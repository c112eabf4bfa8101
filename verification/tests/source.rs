use rexcore::{connect, lift, update, Arena, Callback, Either, EventSource, Fault, Node};

fn append(tag: u32) -> impl Fn(&Vec<(u32, u32)>, u32) -> Vec<(u32, u32)> {
    move |log: &Vec<(u32, u32)>, v: u32| {
        let mut log = log.clone();
        log.push((tag, v));
        log
    }
}

fn add_scaled(scale: u32) -> impl Fn(&u32, u32) -> u32 {
    move |n: &u32, v: u32| n + scale * v
}

#[test]
fn new_source_has_no_callback() {
    let e: EventSource<Either<(), ()>> = EventSource::new();
    assert_eq!(e.len(), 0);
}

#[test]
fn firing_an_empty_source_changes_nothing() {
    let mut arena: Arena<u32> = Arena::new();
    let node = Node::new(&mut arena, 41);
    let mut e = EventSource::new();
    assert_eq!(e.fire(&mut arena, 5u32), Ok(()));
    assert_eq!(*node.get_obj(&mut arena), 41);
    e.push(node.sink(update(add_scaled(1))));
    assert_eq!(e.len(), 1);
    assert_eq!(e.fire(&mut arena, 5u32), Ok(()));
    assert_eq!(*node.get_obj(&mut arena), 46);
}

#[test]
fn callbacks_run_in_registration_order() {
    let mut arena = Arena::new();
    let log = Node::new(&mut arena, Vec::new());
    let mut e = EventSource::new();
    e.push(log.sink(update(append(1))));
    e.push(log.sink(update(append(2))));
    e.push(log.sink(update(append(3))));
    assert_eq!(e.len(), 3);
    assert_eq!(e.fire(&mut arena, 7), Ok(()));
    assert_eq!(*log.get_obj(&mut arena), vec![(1, 7), (2, 7), (3, 7)]);
    assert_eq!(e.fire(&mut arena, 8), Ok(()));
    assert_eq!(
        *log.get_obj(&mut arena),
        vec![(1, 7), (2, 7), (3, 7), (1, 8), (2, 8), (3, 8)]
    );
}

#[test]
fn each_callback_gets_an_equal_clone() {
    let mut arena: Arena<Vec<String>> = Arena::new();
    let log = Node::new(&mut arena, Vec::new());
    let mut e = EventSource::new();
    for _ in 0..3 {
        e.push(log.sink(update(|seen: &Vec<String>, v: String| {
            let mut seen = seen.clone();
            seen.push(v);
            seen
        })));
    }
    assert_eq!(e.len(), 3);
    let fired = String::from("ping");
    assert_eq!(e.fire(&mut arena, fired.clone()), Ok(()));
    assert_eq!(*log.get_obj(&mut arena), vec![fired.clone(), fired.clone(), fired]);
}

#[test]
fn every_callback_runs_once_per_fire() {
    let mut arena: Arena<usize> = Arena::new();
    let count = Node::new(&mut arena, 0);
    let mut e = EventSource::new();
    for k in 0..5 {
        assert_eq!(e.len(), k);
        e.push(count.sink(update(|n: &usize, _: u8| n + 1)));
    }
    assert_eq!(e.fire(&mut arena, 0), Ok(()));
    assert_eq!(*count.get_obj(&mut arena), 5);
    assert_eq!(e.fire(&mut arena, 0), Ok(()));
    assert_eq!(*count.get_obj(&mut arena), 10);
}

#[test]
fn a_chain_counts_as_one_callback() {
    let mut arena: Arena<usize> = Arena::new();
    let count = Node::new(&mut arena, 0);
    let mut e = EventSource::new();
    for k in 1..3 {
        connect(
            &mut e,
            rexcore::chain(lift(move |v: u8| v + k), lift(move |v: u8| v * (k + 1))),
            count.sink(update(|n: &usize, _: u8| n + 1)),
        );
    }
    assert_eq!(e.len(), 2);
    assert_eq!(e.fire(&mut arena, 1), Ok(()));
    assert_eq!(*count.get_obj(&mut arena), 2);
}

#[test]
fn two_kinds_of_callback_on_one_source() {
    let mut arena: Arena<i32> = Arena::new();
    let sum = Node::new(&mut arena, 0);
    let mut e = EventSource::new();
    e.push(Either::Left(sum.sink(update(|n: &i32, v: i32| n + v))));
    e.push(Either::Right(rexcore::feed(
        lift(|v: i32| 10 * v),
        sum.sink(update(|n: &i32, v: i32| n - v)),
    )));
    assert_eq!(e.fire(&mut arena, 3), Ok(()));
    assert_eq!(*sum.get_obj(&mut arena), 3 - 30);
}

#[test]
fn a_fault_ends_the_dispatch() {
    let mut small: Arena<u32> = Arena::new();
    let first = Node::new(&mut small, 0);
    let mut big: Arena<u32> = Arena::new();
    let _ = Node::new(&mut big, 0);
    let stray = Node::new(&mut big, 0);
    let mut e = EventSource::new();
    e.push(first.sink(update(add_scaled(1))));
    e.push(stray.sink(update(add_scaled(1))));
    e.push(first.sink(update(add_scaled(100))));
    assert_eq!(e.fire(&mut small, 2), Err(Fault::Dangling));
    assert_eq!(*first.get_obj(&mut small), 2);
    assert_eq!(e.fire(&mut big, 2), Ok(()));
    assert_eq!(*first.get_obj(&mut big), 202);
    assert_eq!(*stray.get_obj(&mut big), 2);
}

struct Silent;

impl Callback<u8, Arena<u8>> for Silent {
    fn call(&self, _world: &mut Arena<u8>, value: u8) -> Result<(), Fault> {
        println!("got {}", value);
        Ok(())
    }
}

#[test]
fn a_callback_outside_the_world_leaves_it_alone() {
    let mut arena: Arena<u8> = Arena::new();
    let node = Node::new(&mut arena, 9);
    let mut e = EventSource::new();
    e.push(Silent);
    e.push(Silent);
    assert_eq!(e.fire(&mut arena, 1), Ok(()));
    assert_eq!(arena.len(), 1);
    assert_eq!(*node.get_obj(&mut arena), 9);
}

#[test]
fn source_describes_itself_with_its_size() {
    let mut arena: Arena<u32> = Arena::new();
    let node = Node::new(&mut arena, 0);
    let mut e = EventSource::new();
    assert_eq!(e.describe(), "<EventSource with 0 targets>");
    e.push(node.sink(update(add_scaled(1))));
    assert_eq!(e.describe(), "<EventSource with 1 targets>");
    for k in 2..13 {
        e.push(node.sink(update(add_scaled(k))));
        assert_eq!(e.describe(), format!("<EventSource with {} targets>", k));
    }
    assert_eq!(e.describe(), "<EventSource with 12 targets>");
    for k in 13..205 {
        e.push(node.sink(update(add_scaled(k))));
    }
    assert_eq!(e.describe(), "<EventSource with 204 targets>");
}
