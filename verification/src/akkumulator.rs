use crate::event_sink::Callback;
use crate::event_source::{
    admits, clones_of, lemma_admits_prefix, lemma_faithful_copies, lemma_runs_of_one, repeat, runs,
    EventSource,
};
use crate::fault::Fault;
use crate::node::{holds, Arena, Bound, Method};
use vstd::prelude::*;

verus! {

/// A running total with listeners: each value it is given is added to the
/// total, and the new total is fired into its own source.
pub struct Akkumulator<C> {
    pub accum: usize,
    pub out_accum: EventSource<C>,
}

impl<C> Akkumulator<C> {
    /// An accumulator with the total 0 and without listeners.
    pub fn new() -> (akku: Akkumulator<C>)
        ensures
            akku.accum == 0,
            akku.out_accum@ == Seq::<C>::empty(),
    {
        Akkumulator { accum: 0, out_accum: EventSource::new() }
    }

    /// The source that fires each new total, to register listeners on.
    pub fn out_accumulator(&mut self) -> (out: &mut EventSource<C>)
        ensures
            *out == old(self).out_accum,
            *final(self) == (Akkumulator { accum: old(self).accum, out_accum: *final(out) }),
    {
        &mut self.out_accum
    }

    /// Adds `val` to the total and fires the new total to the listeners.
    pub fn accumulate(&mut self, arena: &mut Arena<Akkumulator<C>>, val: usize) -> (r: Result<
        (),
        Fault,
    >) where C: Callback<usize, Arena<Akkumulator<C>>>
        requires
            old(self).accum + val <= usize::MAX,
            admits(
                old(self).out_accum@,
                old(arena)@,
                repeat((old(self).accum + val) as usize, old(self).out_accum@.len()),
            ),
        ensures
            final(self).accum == old(self).accum + val,
            final(self).out_accum == old(self).out_accum,
            runs(
                old(self).out_accum@,
                old(arena)@,
                repeat(final(self).accum, old(self).out_accum@.len()),
                final(arena)@,
                r,
            ),
    {
        self.accum = self.accum + val;
        let total: usize = self.accum;
        proof {
            assert forall|copies: Seq<usize>|
                copies.len() == self.out_accum@.len() && clones_of(
                    total,
                    copies,
                ) implies #[trigger] admits(self.out_accum@, arena@, copies) by {
                lemma_faithful_copies(total, copies);
            }
        }
        let r = self.out_accum.fire(arena, total);
        proof {
            let copies = choose|copies: Seq<usize>|
                {
                    &&& copies.len() == self.out_accum@.len()
                    &&& clones_of(total, copies)
                    &&& #[trigger] runs(self.out_accum@, old(arena)@, copies, arena@, r)
                };
            lemma_faithful_copies(total, copies);
        }
        r
    }
}

/// The method of an accumulator that a node binds: `accumulate`.
pub struct Accumulate;

impl<C: Callback<usize, Arena<Akkumulator<C>>>> Method<Akkumulator<C>, usize> for Accumulate {
    open spec fn accepts(
        &self,
        obj: Akkumulator<C>,
        arena: Seq<Option<Akkumulator<C>>>,
        value: usize,
    ) -> bool {
        &&& obj.accum + value <= usize::MAX
        &&& admits(
            obj.out_accum@,
            arena,
            repeat((obj.accum + value) as usize, obj.out_accum@.len()),
        )
    }

    open spec fn yields(
        &self,
        obj: Akkumulator<C>,
        arena: Seq<Option<Akkumulator<C>>>,
        value: usize,
        left: Akkumulator<C>,
        after: Seq<Option<Akkumulator<C>>>,
        r: Result<(), Fault>,
    ) -> bool {
        &&& left.accum == obj.accum + value
        &&& left.out_accum == obj.out_accum
        &&& runs(obj.out_accum@, arena, repeat(left.accum, obj.out_accum@.len()), after, r)
    }

    fn invoke(
        &self,
        obj: &mut Akkumulator<C>,
        arena: &mut Arena<Akkumulator<C>>,
        value: usize,
    ) -> (r: Result<(), Fault>) {
        obj.accumulate(arena, value)
    }
}

/// After an accumulator in a node was given a value through its bound
/// method, the node holds the old total plus that value and the same
/// listeners, whether or not a listener faulted, as long as the listeners
/// left the node's slot in place.
pub proof fn lemma_total_grows_by_value<C: Callback<usize, Arena<Akkumulator<C>>>>(
    bound: Bound<Akkumulator<C>, Accumulate>,
    world: Seq<Option<Akkumulator<C>>>,
    value: usize,
    after: Seq<Option<Akkumulator<C>>>,
    r: Result<(), Fault>,
)
    requires
        holds(world, bound.node.slot()),
        bound.yields(world, value, after, r),
        bound.node.slot() < after.len(),
    ensures
        holds(after, bound.node.slot()),
        after[bound.node.slot()]->Some_0.accum == world[bound.node.slot()]->Some_0.accum + value,
        after[bound.node.slot()]->Some_0.out_accum == world[bound.node.slot()]->Some_0.out_accum,
{
}

/// An accumulator whose first listener does not accept the arena in which
/// the accumulator is lent out, as a callback bound to the accumulator's own
/// node does not, is not accepted: no admitted dispatch reaches the second
/// borrow.
pub proof fn lemma_own_listener_is_refused<C: Callback<usize, Arena<Akkumulator<C>>>>(
    bound: Bound<Akkumulator<C>, Accumulate>,
    world: Seq<Option<Akkumulator<C>>>,
    value: usize,
)
    requires
        holds(world, bound.node.slot()),
        world[bound.node.slot()]->Some_0.out_accum@.len() >= 1,
        !world[bound.node.slot()]->Some_0.out_accum@[0].accepts(
            world.update(bound.node.slot(), None),
            (world[bound.node.slot()]->Some_0.accum + value) as usize,
        ),
    ensures
        !bound.accepts(world, value),
{
    let at = bound.node.slot();
    let akku = world[at]->Some_0;
    let given = world.update(at, None);
    let total = (akku.accum + value) as usize;
    let values = repeat(total, akku.out_accum@.len());
    if bound.accepts(world, value) {
        lemma_admits_prefix(akku.out_accum@, 1, given, values);
        lemma_runs_of_one(akku.out_accum@.take(1), given, values, given, Ok(()));
    }
}

} // verus!
