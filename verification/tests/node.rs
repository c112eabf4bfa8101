use rexcore::{update, Arena, Callback, EventSource, Fault, Node};

struct Mock {
    activated: bool,
}

#[test]
fn new_arena_is_empty() {
    let arena: Arena<Mock> = Arena::new();
    assert_eq!(arena.len(), 0);
}

#[test]
fn each_object_gets_its_own_slot() {
    let mut arena: Arena<u8> = Arena::new();
    let a = Node::new(&mut arena, 1);
    let b = Node::new(&mut arena, 2);
    assert_eq!(arena.len(), 2);
    assert_eq!(*a.get_obj(&mut arena), 1);
    assert_eq!(*b.get_obj(&mut arena), 2);
    *a.get_obj(&mut arena) = 10;
    assert_eq!(*a.get_obj(&mut arena), 10);
    assert_eq!(*b.get_obj(&mut arena), 2);
}

#[test]
fn bound_method_is_seen_by_the_next_borrow() {
    let mut arena = Arena::new();
    let m = Node::new(&mut arena, Mock { activated: false });
    let mut e = EventSource::new();
    e.push(m.sink(update(|_: &Mock, really: bool| Mock { activated: really })));
    assert_eq!(false, m.get_obj(&mut arena).activated);
    assert_eq!(e.fire(&mut arena, true), Ok(()));
    assert_eq!(true, m.get_obj(&mut arena).activated);
}

#[test]
fn total_grows_by_exactly_the_fired_value() {
    let mut arena: Arena<u64> = Arena::new();
    let total = Node::new(&mut arena, 0);
    let other = Node::new(&mut arena, 1000);
    let mut e = EventSource::new();
    e.push(total.sink(update(|sum: &u64, v: u64| sum + v)));
    let mut expected = 0;
    for v in [1, 2, 3, 40, 500] {
        assert_eq!(e.fire(&mut arena, v), Ok(()));
        expected += v;
        assert_eq!(*total.get_obj(&mut arena), expected);
        assert_eq!(*other.get_obj(&mut arena), 1000);
    }
}

#[test]
fn all_handles_stand_for_one_object() {
    let mut arena: Arena<i32> = Arena::new();
    let node = Node::new(&mut arena, 5);
    let copy = node.clone();
    let handle = node.clone_obj();
    let bound = handle.sink(update(|n: &i32, v: i32| n * v));
    assert_eq!(bound.call(&mut arena, 3), Ok(()));
    assert_eq!(*node.get_obj(&mut arena), 15);
    assert_eq!(*copy.get_obj(&mut arena), 15);
    *copy.get_obj(&mut arena) = -1;
    assert_eq!(*handle.get_obj(&mut arena), -1);
}

#[test]
fn two_sources_share_one_object() {
    let mut arena: Arena<i32> = Arena::new();
    let node = Node::new(&mut arena, 0);
    let mut up = EventSource::new();
    let mut down = EventSource::new();
    up.push(node.sink(update(|n: &i32, v: i32| n + v)));
    down.push(node.sink(update(|n: &i32, v: i32| n - v)));
    assert_eq!(up.fire(&mut arena, 10), Ok(()));
    assert_eq!(down.fire(&mut arena, 4), Ok(()));
    assert_eq!(up.fire(&mut arena, 1), Ok(()));
    assert_eq!(*node.get_obj(&mut arena), 7);
}

#[test]
fn node_of_another_arena_dangles() {
    let mut small: Arena<u8> = Arena::new();
    let mut big: Arena<u8> = Arena::new();
    let _ = Node::new(&mut big, 1);
    let second = Node::new(&mut big, 2);
    assert_eq!(second.try_get_obj(&mut small).err(), Some(Fault::Dangling));
    let bound = second.sink(update(|n: &u8, v: u8| n + v));
    assert_eq!(bound.call(&mut small, 1), Err(Fault::Dangling));
    assert_eq!(small.len(), 0);
    assert_eq!(bound.call(&mut big, 1), Ok(()));
    assert_eq!(*second.get_obj(&mut big), 3);
}

#[test]
fn checked_borrow_gives_the_object_or_the_reason() {
    let mut arena: Arena<u8> = Arena::new();
    let mut empty: Arena<u8> = Arena::new();
    let node = Node::new(&mut arena, 7);
    match node.try_get_obj(&mut arena) {
        Ok(obj) => *obj += 1,
        Err(fault) => panic!("{:?}", fault),
    }
    assert_eq!(*node.get_obj(&mut arena), 8);
    assert_eq!(node.try_get_obj(&mut empty).err(), Some(Fault::Dangling));
}
