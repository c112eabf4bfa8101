use crate::event_sink::Callback;
use crate::fault::Fault;
use core::marker::PhantomData;
use vstd::prelude::*;

verus! {

/// The objects that nodes stand for. A slot holds its object, or is empty
/// for as long as the object is lent to a bound method.
pub struct Arena<Obj> {
    slots: Vec<Option<Obj>>,
}

impl<Obj> View for Arena<Obj> {
    type V = Seq<Option<Obj>>;

    /// The slots in the order in which they were made; `None` marks an object
    /// that is lent out.
    closed spec fn view(&self) -> Self::V {
        self.slots@
    }
}

/// What an arena of `Obj` looks like to a contract.
pub type Slots<Obj> = Seq<Option<Obj>>;

/// Slot `at` exists and holds its object.
pub open spec fn holds<Obj>(arena: Seq<Option<Obj>>, at: int) -> bool {
    0 <= at < arena.len() && arena[at] is Some
}

/// Slot `at` exists, and its object is lent out.
pub open spec fn lent<Obj>(arena: Seq<Option<Obj>>, at: int) -> bool {
    0 <= at < arena.len() && arena[at] is None
}

impl<Obj> Arena<Obj> {
    /// An arena without objects.
    pub fn new() -> (arena: Arena<Obj>)
        ensures
            arena@ == Seq::<Option<Obj>>::empty(),
    {
        Arena { slots: Vec::new() }
    }

    /// The number of slots.
    pub fn len(&self) -> (n: usize)
        ensures
            n == self@.len(),
    {
        self.slots.len()
    }
}

/// A handle to one object of an arena. A clone of a handle stands for the
/// same object.
pub struct Node<Obj> {
    index: usize,
    marker: PhantomData<Obj>,
}

impl<Obj> Node<Obj> {
    /// The slot that the node stands for.
    pub closed spec fn slot(&self) -> int {
        self.index as int
    }

    /// Moves `obj` into a fresh slot of `arena` and returns the handle to it.
    pub fn new(arena: &mut Arena<Obj>, obj: Obj) -> (node: Node<Obj>)
        ensures
            node.slot() == old(arena)@.len(),
            final(arena)@ == old(arena)@.push(Some(obj)),
    {
        let index: usize = arena.slots.len();
        arena.slots.push(Some(obj));
        Node { index, marker: PhantomData }
    }

    /// Borrows the object exclusively, for as long as the arena stays
    /// borrowed. The object must be in its slot: while a bound method runs on
    /// it, it is lent out and cannot be borrowed again.
    pub fn get_obj<'a>(&self, arena: &'a mut Arena<Obj>) -> (obj: &'a mut Obj)
        requires
            holds(old(arena)@, self.slot()),
        ensures
            old(arena)@[self.slot()] == Some(*obj),
            final(arena)@ == old(arena)@.update(self.slot(), Some(*final(obj))),
    {
        match &mut arena.slots[self.index] {
            Some(obj) => obj,
            None => unreached(),
        }
    }

    /// Borrows the object exclusively if it is in its slot, and says why not
    /// if it is not: it is lent to a bound method, or the node names no slot
    /// of this arena.
    pub fn try_get_obj<'a>(&self, arena: &'a mut Arena<Obj>) -> (r: Result<&'a mut Obj, Fault>)
        ensures
            r is Ok <==> holds(old(arena)@, self.slot()),
            match r {
                Ok(obj) => {
                    &&& old(arena)@[self.slot()] == Some(*obj)
                    &&& final(arena)@ == old(arena)@.update(self.slot(), Some(*final(obj)))
                },
                Err(fault) => {
                    &&& final(arena)@ == old(arena)@
                    &&& fault == Fault::Reentrant <==> lent(old(arena)@, self.slot())
                    &&& fault == Fault::Dangling <==> self.slot() >= old(arena)@.len()
                },
            },
    {
        if self.index >= arena.slots.len() {
            return Err(Fault::Dangling);
        }
        match &mut arena.slots[self.index] {
            Some(obj) => Ok(obj),
            None => Err(Fault::Reentrant),
        }
    }

    /// Another handle to the same object.
    pub fn clone_obj(&self) -> (other: Node<Obj>)
        ensures
            other == *self,
    {
        Node { index: self.index, marker: PhantomData }
    }

    /// The callback that runs `method` on the node's object.
    pub fn sink<M>(&self, method: M) -> (bound: Bound<Obj, M>)
        ensures
            bound == (Bound { node: *self, method }),
    {
        Bound { node: self.clone_obj(), method }
    }
}

impl<Obj> Clone for Node<Obj> {
    fn clone(&self) -> (other: Node<Obj>)
        ensures
            other == *self,
    {
        self.clone_obj()
    }
}

/// What an object does with a value that it is given. The method works on
/// the object while the object's slot in the arena is empty.
pub trait Method<Obj, T> {
    /// The objects, arenas and values on which the method may be invoked.
    spec fn accepts(&self, obj: Obj, arena: Seq<Option<Obj>>, value: T) -> bool;

    /// The method, given `value` on `obj` and `arena`, may leave the object
    /// `left` and the arena `after`, and end with `r`.
    spec fn yields(
        &self,
        obj: Obj,
        arena: Seq<Option<Obj>>,
        value: T,
        left: Obj,
        after: Seq<Option<Obj>>,
        r: Result<(), Fault>,
    ) -> bool;

    /// Runs the method on `obj`, which was taken out of `arena` for the time
    /// of the call.
    fn invoke(&self, obj: &mut Obj, arena: &mut Arena<Obj>, value: T) -> (r: Result<(), Fault>)
        requires
            self.accepts(*old(obj), old(arena)@, value),
        ensures
            self.yields(*old(obj), old(arena)@, value, *final(obj), final(arena)@, r),
    ;
}

/// A method bound to a node: a callback on the node's arena.
pub struct Bound<Obj, M> {
    pub node: Node<Obj>,
    pub method: M,
}

/// The object `left` goes back into slot `at` of the arena that the method
/// left, and the method's result `inner` stands; if the slot is gone, the
/// object is dropped and the call dangles.
pub open spec fn restored<Obj>(
    at: int,
    left: Obj,
    arena: Seq<Option<Obj>>,
    inner: Result<(), Fault>,
    after: Seq<Option<Obj>>,
    r: Result<(), Fault>,
) -> bool {
    if at < arena.len() {
        after == arena.update(at, Some(left)) && r == inner
    } else {
        after == arena && r == Err::<(), Fault>(Fault::Dangling)
    }
}

impl<Obj, M> Bound<Obj, M> {
    /// What an attempt to run the method may leave and end with: a node that
    /// names no slot dangles; an object that is lent out is not lent again;
    /// else the method runs on the object, with the object's slot empty, and
    /// the object is put back.
    pub open spec fn outcome<T>(
        &self,
        world: Seq<Option<Obj>>,
        value: T,
        after: Seq<Option<Obj>>,
        r: Result<(), Fault>,
    ) -> bool where M: Method<Obj, T> {
        let at = self.node.slot();
        if at >= world.len() {
            after == world && r == Err::<(), Fault>(Fault::Dangling)
        } else if world[at] is None {
            after == world && r == Err::<(), Fault>(Fault::Reentrant)
        } else {
            exists|left: Obj, arena: Seq<Option<Obj>>, inner: Result<(), Fault>|
                #![trigger self.method.yields(world[at]->Some_0, world.update(at, None), value, left, arena, inner)]
            self.method.yields(
                    world[at]->Some_0,
                    world.update(at, None),
                    value,
                    left,
                    arena,
                    inner,
                ) && restored(at, left, arena, inner, after, r)
        }
    }

    /// Runs the method on the node's object if the object is there to be
    /// lent, and says why not if it is not.
    pub fn try_call<T>(&self, world: &mut Arena<Obj>, value: T) -> (r: Result<(), Fault>) where
        M: Method<Obj, T>,

        requires
            holds(old(world)@, self.node.slot()) ==> self.method.accepts(
                old(world)@[self.node.slot()]->Some_0,
                old(world)@.update(self.node.slot(), None),
                value,
            ),
        ensures
            self.outcome(old(world)@, value, final(world)@, r),
    {
        let at: usize = self.node.index;
        if at >= world.slots.len() {
            return Err(Fault::Dangling);
        }
        let taken = world.slots[at].take();
        match taken {
            None => {
                assert(world@ =~= old(world)@);
                Err(Fault::Reentrant)
            },
            Some(mut obj) => {
                let ghost given = world@;
                let ghost lent_out = obj;
                assert(given =~= old(world)@.update(at as int, None));
                let inner = self.method.invoke(&mut obj, world, value);
                let ghost arena = world@;
                if at < world.slots.len() {
                    let ghost left = obj;
                    world.slots.set(at, Some(obj));
                    assert(world@ =~= arena.update(at as int, Some(left)));
                    assert(self.method.yields(lent_out, given, value, left, arena, inner)
                        && restored(at as int, left, arena, inner, world@, inner));
                    inner
                } else {
                    assert(self.method.yields(lent_out, given, value, obj, arena, inner)
                        && restored(
                        at as int,
                        obj,
                        arena,
                        inner,
                        world@,
                        Err::<(), Fault>(Fault::Dangling),
                    ));
                    Err(Fault::Dangling)
                }
            },
        }
    }
}

impl<Obj, T, M: Method<Obj, T>> Callback<T, Arena<Obj>> for Bound<Obj, M> {
    /// The object is there to be lent, and the method accepts it.
    open spec fn accepts(&self, world: Seq<Option<Obj>>, value: T) -> bool {
        &&& holds(world, self.node.slot())
        &&& self.method.accepts(
            world[self.node.slot()]->Some_0,
            world.update(self.node.slot(), None),
            value,
        )
    }

    open spec fn yields(
        &self,
        world: Seq<Option<Obj>>,
        value: T,
        after: Seq<Option<Obj>>,
        r: Result<(), Fault>,
    ) -> bool {
        self.outcome(world, value, after, r)
    }

    fn call(&self, world: &mut Arena<Obj>, value: T) -> (r: Result<(), Fault>) {
        self.try_call(world, value)
    }
}

/// What a bound method made of its object is what the next borrow of the
/// node finds: the callback puts the object back into its slot as the method
/// left it, and leaves the other slots as the method left them.
pub proof fn lemma_borrow_observes_method<Obj, T, M: Method<Obj, T>>(
    bound: Bound<Obj, M>,
    world: Seq<Option<Obj>>,
    value: T,
    after: Seq<Option<Obj>>,
    r: Result<(), Fault>,
)
    requires
        holds(world, bound.node.slot()),
        bound.yields(world, value, after, r),
    ensures
        exists|left: Obj, arena: Seq<Option<Obj>>, inner: Result<(), Fault>|
            {
                &&& #[trigger] bound.method.yields(
                    world[bound.node.slot()]->Some_0,
                    world.update(bound.node.slot(), None),
                    value,
                    left,
                    arena,
                    inner,
                )
                &&& restored(bound.node.slot(), left, arena, inner, after, r)
                &&& bound.node.slot() < arena.len() ==> {
                    &&& r == inner
                    &&& holds(after, bound.node.slot())
                    &&& after[bound.node.slot()] == Some(left)
                }
            },
{
    let at = bound.node.slot();
    let (left, arena, inner) = choose|left: Obj, arena: Seq<Option<Obj>>, inner: Result<(), Fault>|
        #![trigger bound.method.yields(world[at]->Some_0, world.update(at, None), value, left, arena, inner)]
        bound.method.yields(world[at]->Some_0, world.update(at, None), value, left, arena, inner)
            && restored(at, left, arena, inner, after, r);
    assert(bound.method.yields(
        world[bound.node.slot()]->Some_0,
        world.update(bound.node.slot(), None),
        value,
        left,
        arena,
        inner,
    ) && restored(bound.node.slot(), left, arena, inner, after, r));
}

/// A callback bound to a node whose object is lent out is not accepted, so
/// that no admitted dispatch borrows an object twice. Invoked all the same,
/// by a caller that nothing holds to the contract, it faults and leaves the
/// arena as it is.
pub proof fn lemma_lent_object_is_refused<Obj, T, M: Method<Obj, T>>(
    bound: Bound<Obj, M>,
    world: Seq<Option<Obj>>,
    value: T,
    after: Seq<Option<Obj>>,
    r: Result<(), Fault>,
)
    requires
        lent(world, bound.node.slot()),
    ensures
        !bound.accepts(world, value),
        bound.outcome(world, value, after, r) <==> after == world && r == Err::<(), Fault>(
            Fault::Reentrant,
        ),
{
}

/// While a bound method runs, the object it runs on is lent out: on the
/// arena that the method is given, a callback bound to the same node is not
/// accepted, and an attempt to run it faults at once.
pub proof fn lemma_nested_call_is_refused<Obj, T, U, M: Method<Obj, T>, N: Method<Obj, U>>(
    outer: Bound<Obj, M>,
    inner: Bound<Obj, N>,
    world: Seq<Option<Obj>>,
    value: U,
    after: Seq<Option<Obj>>,
    r: Result<(), Fault>,
)
    requires
        holds(world, outer.node.slot()),
        inner.node.slot() == outer.node.slot(),
    ensures
        ({
            let given = world.update(outer.node.slot(), None);
            &&& lent(given, inner.node.slot())
            &&& !inner.accepts(given, value)
            &&& inner.outcome(given, value, after, r) <==> after == given && r == Err::<(), Fault>(
                Fault::Reentrant,
            )
        }),
{
}

/// A function used as a method: the object becomes what the function makes
/// of it and of the value. The arena is left alone.
pub struct Update<F>(pub F);

impl<Obj, T, F: Fn(&Obj, T) -> Obj> Method<Obj, T> for Update<F> {
    open spec fn accepts(&self, obj: Obj, arena: Seq<Option<Obj>>, value: T) -> bool {
        call_requires(self.0, (&obj, value))
    }

    open spec fn yields(
        &self,
        obj: Obj,
        arena: Seq<Option<Obj>>,
        value: T,
        left: Obj,
        after: Seq<Option<Obj>>,
        r: Result<(), Fault>,
    ) -> bool {
        call_ensures(self.0, (&obj, value), left) && after == arena && r is Ok
    }

    fn invoke(&self, obj: &mut Obj, arena: &mut Arena<Obj>, value: T) -> (r: Result<(), Fault>) {
        let next = (self.0)(obj, value);
        *obj = next;
        Ok(())
    }
}

/// Makes a method of the function `f`.
pub fn update<Obj, T, F: Fn(&Obj, T) -> Obj>(f: F) -> (method: Update<F>)
    ensures
        method.0 == f,
        forall|obj: Obj, arena: Seq<Option<Obj>>, value: T| #[trigger]
            method.accepts(obj, arena, value) <==> call_requires(f, (&obj, value)),
        forall|
            obj: Obj,
            arena: Seq<Option<Obj>>,
            value: T,
            left: Obj,
            after: Seq<Option<Obj>>,
            r: Result<(), Fault>,
        | #[trigger]
            method.yields(obj, arena, value, left, after, r) <==> call_ensures(
                f,
                (&obj, value),
                left,
            ) && after == arena && r is Ok,
{
    Update(f)
}

/// What a function used as a method accepts and yields, for a function of
/// any type.
pub proof fn lemma_update_unfolds<Obj, T, F: Fn(&Obj, T) -> Obj>(
    method: Update<F>,
    obj: Obj,
    arena: Seq<Option<Obj>>,
    value: T,
    left: Obj,
    after: Seq<Option<Obj>>,
    r: Result<(), Fault>,
)
    ensures
        method.accepts(obj, arena, value) <==> call_requires(method.0, (&obj, value)),
        method.yields(obj, arena, value, left, after, r) <==> call_ensures(
            method.0,
            (&obj, value),
            left,
        ) && after == arena && r is Ok,
{
}

/// What a bound method accepts and yields, for a method of any type.
pub proof fn lemma_bound_unfolds<Obj, T, M: Method<Obj, T>>(
    bound: Bound<Obj, M>,
    world: Seq<Option<Obj>>,
    value: T,
    after: Seq<Option<Obj>>,
    r: Result<(), Fault>,
)
    ensures
        bound.accepts(world, value) <==> holds(world, bound.node.slot()) && bound.method.accepts(
            world[bound.node.slot()]->Some_0,
            world.update(bound.node.slot(), None),
            value,
        ),
        bound.yields(world, value, after, r) <==> bound.outcome(world, value, after, r),
{
}

/// What a function bound to a node accepts and yields, for a function of
/// any type: it needs the object in its slot and what the function requires,
/// and it leaves in the slot what the function ensures, and the rest of the
/// arena as it was.
pub proof fn lemma_bound_update<Obj, T, F: Fn(&Obj, T) -> Obj>(
    bound: Bound<Obj, Update<F>>,
    world: Seq<Option<Obj>>,
    value: T,
    after: Seq<Option<Obj>>,
    r: Result<(), Fault>,
)
    ensures
        bound.accepts(world, value) <==> holds(world, bound.node.slot()) && call_requires(
            bound.method.0,
            (&world[bound.node.slot()]->Some_0, value),
        ),
        holds(world, bound.node.slot()) ==> (bound.yields(world, value, after, r) <==> exists|
            left: Obj,
        |
            {
                &&& #[trigger] call_ensures(
                    bound.method.0,
                    (&world[bound.node.slot()]->Some_0, value),
                    left,
                )
                &&& after == world.update(bound.node.slot(), Some(left))
                &&& r is Ok
            }),
{
    let at = bound.node.slot();
    if holds(world, at) {
        let obj = world[at]->Some_0;
        let given = world.update(at, None);
        if bound.yields(world, value, after, r) {
            let (left, arena, inner) = choose|
                left: Obj,
                arena: Seq<Option<Obj>>,
                inner: Result<(), Fault>,
            | #[trigger]
                bound.method.yields(obj, given, value, left, arena, inner) && restored(
                    at,
                    left,
                    arena,
                    inner,
                    after,
                    r,
                );
            assert(given.update(at, Some(left)) =~= world.update(at, Some(left)));
            assert(call_ensures(bound.method.0, (&obj, value), left));
        }
        if exists|left: Obj|
            {
                &&& #[trigger] call_ensures(bound.method.0, (&obj, value), left)
                &&& after == world.update(at, Some(left))
                &&& r is Ok
            } {
            let left = choose|left: Obj|
                {
                    &&& #[trigger] call_ensures(bound.method.0, (&obj, value), left)
                    &&& after == world.update(at, Some(left))
                    &&& r is Ok
                };
            assert(given.update(at, Some(left)) =~= world.update(at, Some(left)));
            assert(bound.method.yields(obj, given, value, left, given, r) && restored(
                at,
                left,
                given,
                r,
                after,
                r,
            ));
        }
    }
}

} // verus!
