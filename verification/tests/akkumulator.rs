use rexcore::{
    feed, lift, Accumulate, Akkumulator, Arena, Callback, Chain, Either, EventSource, Fault, Node,
};
use std::cell::RefCell;
use std::rc::Rc;
use vstd::view::View;

/// A listener that keeps what it hears, outside the arena.
struct Heard(Rc<RefCell<Vec<usize>>>);

impl<W: View> Callback<usize, W> for Heard {
    fn call(&self, _world: &mut W, value: usize) -> Result<(), Fault> {
        self.0.borrow_mut().push(value);
        Ok(())
    }
}

/// A listener that hands what it hears to an accumulator of its arena.
struct Back(Node<Akkumulator<Back>>);

impl Callback<usize, Arena<Akkumulator<Back>>> for Back {
    fn call(&self, world: &mut Arena<Akkumulator<Back>>, value: usize) -> Result<(), Fault> {
        self.0.sink(Accumulate).call(world, value)
    }
}

#[test]
fn new_accumulator_starts_at_zero_without_listeners() {
    let mut arena: Arena<Akkumulator<Heard>> = Arena::new();
    let mut a: Akkumulator<Heard> = Akkumulator::new();
    assert_eq!(a.accum, 0);
    assert_eq!(a.out_accumulator().len(), 0);
    assert_eq!(a.accumulate(&mut arena, 5), Ok(()));
    assert_eq!(a.accum, 5);
    assert_eq!(a.out_accumulator().len(), 0);
    assert_eq!(arena.len(), 0);
}

#[test]
fn accumulator_reports_each_new_total() {
    let heard = Rc::new(RefCell::new(Vec::new()));
    let mut arena = Arena::new();
    let akku = Node::new(&mut arena, Akkumulator::new());
    let mut e = EventSource::new();
    e.push(akku.sink(Accumulate));
    akku.get_obj(&mut arena).out_accumulator().push(Heard(heard.clone()));

    assert_eq!(akku.get_obj(&mut arena).accum, 0);
    assert_eq!(e.fire(&mut arena, 1), Ok(()));
    assert_eq!(akku.get_obj(&mut arena).accum, 1);
    assert_eq!(*heard.borrow(), vec![1]);
    assert_eq!(e.fire(&mut arena, 2), Ok(()));
    assert_eq!(akku.get_obj(&mut arena).accum, 3);
    assert_eq!(*heard.borrow(), vec![1, 3]);
    assert_eq!(e.fire(&mut arena, 3), Ok(()));
    assert_eq!(akku.get_obj(&mut arena).accum, 6);
    assert_eq!(*heard.borrow(), vec![1, 3, 6]);
}

#[test]
fn accumulator_behind_a_chain_and_before_one() {
    let heard = Rc::new(RefCell::new(Vec::new()));
    let mut arena = Arena::new();
    let akku = Node::new(&mut arena, Akkumulator::new());
    let mut e = EventSource::new();
    e.push(feed(lift(|v: usize| v), akku.sink(Accumulate)));
    akku.get_obj(&mut arena).out_accumulator().push(
        Chain::new(lift(|a: usize| 2 * a))
            .and_then(lift(|b: usize| b / 2))
            .feed(Heard(heard.clone())),
    );
    for i in 1..6 {
        assert_eq!(e.fire(&mut arena, i), Ok(()));
    }
    assert_eq!(akku.get_obj(&mut arena).accum, 15);
    assert_eq!(*heard.borrow(), vec![1, 3, 6, 10, 15]);
}

#[test]
fn accumulate_adds_and_fires() {
    let heard = Rc::new(RefCell::new(Vec::new()));
    let mut arena: Arena<Akkumulator<Heard>> = Arena::new();
    let mut akku = Akkumulator::new();
    akku.out_accumulator().push(Heard(heard.clone()));
    akku.out_accumulator().push(Heard(heard.clone()));
    akku.accum = 40;
    assert_eq!(akku.accumulate(&mut arena, 2), Ok(()));
    assert_eq!(akku.accum, 42);
    assert_eq!(*heard.borrow(), vec![42, 42]);
}

#[test]
fn one_accumulator_feeds_another() {
    let mut arena = Arena::new();
    let first = Node::new(&mut arena, Akkumulator::new());
    let second = Node::new(&mut arena, Akkumulator::new());
    first.get_obj(&mut arena).out_accumulator().push(Back(second.clone()));
    let mut e = EventSource::new();
    e.push(first.sink(Accumulate));
    assert_eq!(e.fire(&mut arena, 1), Ok(()));
    assert_eq!(e.fire(&mut arena, 2), Ok(()));
    assert_eq!(e.fire(&mut arena, 3), Ok(()));
    assert_eq!(first.get_obj(&mut arena).accum, 6);
    assert_eq!(second.get_obj(&mut arena).accum, 1 + 3 + 6);
}

#[test]
fn listener_on_the_accumulators_own_node_faults() {
    let mut arena = Arena::new();
    let akku = Node::new(&mut arena, Akkumulator::new());
    akku.get_obj(&mut arena).out_accumulator().push(Back(akku.clone()));
    let mut e = EventSource::new();
    e.push(akku.sink(Accumulate));
    assert_eq!(e.fire(&mut arena, 1), Err(Fault::Reentrant));
    assert_eq!(akku.get_obj(&mut arena).accum, 1);
    assert_eq!(e.fire(&mut arena, 6), Err(Fault::Reentrant));
    assert_eq!(akku.get_obj(&mut arena).accum, 7);
}

#[test]
fn accumulators_in_a_ring_fault_where_the_ring_closes() {
    let heard = Rc::new(RefCell::new(Vec::new()));
    let mut arena: Arena<Akkumulator<Either<Heard, Ring>>> = Arena::new();
    let first = Node::new(&mut arena, Akkumulator::new());
    let second = Node::new(&mut arena, Akkumulator::new());
    first.get_obj(&mut arena).out_accumulator().push(Either::Left(Heard(heard.clone())));
    first.get_obj(&mut arena).out_accumulator().push(Either::Right(Ring(second.clone())));
    second.get_obj(&mut arena).out_accumulator().push(Either::Right(Ring(first.clone())));
    second.get_obj(&mut arena).out_accumulator().push(Either::Left(Heard(heard.clone())));
    let mut e = EventSource::new();
    e.push(first.sink(Accumulate));
    assert_eq!(e.fire(&mut arena, 7), Err(Fault::Reentrant));
    assert_eq!(first.get_obj(&mut arena).accum, 7);
    assert_eq!(second.get_obj(&mut arena).accum, 7);
    assert_eq!(*heard.borrow(), vec![7]);
}

/// As `Back`, in an arena whose accumulators have listeners of two kinds.
struct Ring(Node<Akkumulator<Either<Heard, Ring>>>);

impl Callback<usize, Arena<Akkumulator<Either<Heard, Ring>>>> for Ring {
    fn call(
        &self,
        world: &mut Arena<Akkumulator<Either<Heard, Ring>>>,
        value: usize,
    ) -> Result<(), Fault> {
        self.0.sink(Accumulate).call(world, value)
    }
}
