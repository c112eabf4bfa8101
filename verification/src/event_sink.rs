use crate::event_source::EventSource;
use crate::fault::Fault;
use core::marker::PhantomData;
use vstd::prelude::*;

verus! {

/// A transformation of one value into another, used as a link of a chain.
pub trait Step<A> {
    type Out;

    /// The inputs on which the step may be applied.
    spec fn accepts(&self, a: A) -> bool;

    /// `b` is a result that the step may give on `a`.
    spec fn yields(&self, a: A, b: Self::Out) -> bool;

    /// Applies the step to `a`.
    fn apply(&self, a: A) -> (b: Self::Out)
        requires
            self.accepts(a),
        ensures
            self.yields(a, b),
    ;
}

/// A function from `A` to `B` used as a step: it accepts what the function
/// requires, and yields what the function ensures.
pub struct Lift<A, B, F> {
    pub f: F,
    pub marker: PhantomData<(A, B)>,
}

impl<A, B, F: Fn(A) -> B> Step<A> for Lift<A, B, F> {
    type Out = B;

    open spec fn accepts(&self, a: A) -> bool {
        call_requires(self.f, (a,))
    }

    open spec fn yields(&self, a: A, b: B) -> bool {
        call_ensures(self.f, (a,), b)
    }

    fn apply(&self, a: A) -> (b: B) {
        (self.f)(a)
    }
}

/// Makes a step of the function `f`.
pub fn lift<A, B, F: Fn(A) -> B>(f: F) -> (step: Lift<A, B, F>)
    ensures
        step.f == f,
        forall|a: A| #[trigger] step.accepts(a) <==> call_requires(f, (a,)),
        forall|a: A, b: B| #[trigger] step.yields(a, b) <==> call_ensures(f, (a,), b),
{
    Lift { f, marker: PhantomData }
}

/// Two steps in a row: the output of `first` is the input of `second`.
pub struct Then<F, G> {
    pub first: F,
    pub second: G,
}

impl<A, F: Step<A>, G: Step<F::Out>> Step<A> for Then<F, G> {
    type Out = G::Out;

    open spec fn accepts(&self, a: A) -> bool {
        &&& self.first.accepts(a)
        &&& forall|b: F::Out| #[trigger] self.first.yields(a, b) ==> self.second.accepts(b)
    }

    open spec fn yields(&self, a: A, c: G::Out) -> bool {
        exists|b: F::Out| #![trigger self.first.yields(a, b)]
            self.first.yields(a, b) && self.second.yields(b, c)
    }

    fn apply(&self, a: A) -> (c: G::Out) {
        let b = self.first.apply(a);
        self.second.apply(b)
    }
}

/// Composes two steps into one.
pub fn chain<A, F: Step<A>, G: Step<F::Out>>(first: F, second: G) -> (both: Then<F, G>)
    ensures
        both == (Then { first, second }),
        forall|a: A| #[trigger]
            both.accepts(a) <==> first.accepts(a) && forall|b: F::Out| #[trigger]
                first.yields(a, b) ==> second.accepts(b),
        forall|a: A, c: G::Out| #[trigger]
            both.yields(a, c) <==> exists|b: F::Out| #![trigger first.yields(a, b)]
            first.yields(a, b) && second.yields(b, c),
{
    let both = Then { first, second };
    assert(both.first == first && both.second == second);
    both
}

/// A chain under construction. It starts as one step and grows at its end.
pub struct Chain<S> {
    pub steps: S,
}

impl<S> Chain<S> {
    /// The chain of one step, which is that step.
    pub fn new(first: S) -> (one: Chain<S>)
        ensures
            one.steps == first,
    {
        Chain { steps: first }
    }

    /// The chain with `next` behind all its steps.
    pub fn and_then<G>(self, next: G) -> (longer: Chain<Then<S, G>>)
        ensures
            longer.steps == (Then { first: self.steps, second: next }),
    {
        Chain { steps: Then { first: self.steps, second: next } }
    }

    /// The steps as one step.
    pub fn build(self) -> (composed: S)
        ensures
            composed == self.steps,
    {
        self.steps
    }

    /// Closes the chain with the callback `sink`.
    pub fn feed<C>(self, sink: C) -> (fed: Feed<S, C>)
        ensures
            fed == (Feed { step: self.steps, sink }),
    {
        Feed { step: self.steps, sink }
    }
}

/// A unit of work that takes one value and acts on the world it is given.
pub trait Callback<T, W: View> {
    /// The worlds and values on which the callback may be invoked: all of
    /// them, unless the callback says otherwise.
    open spec fn accepts(&self, world: W::V, value: T) -> bool {
        true
    }

    /// The callback, given `value` on `world`, may leave the world `after`
    /// and end with `r`. Unless the callback says otherwise it leaves the
    /// world as it found it and does not fault: its work is outside the world.
    open spec fn yields(&self, world: W::V, value: T, after: W::V, r: Result<(), Fault>) -> bool {
        after == world && r is Ok
    }

    /// Invokes the callback with `value`. A fault is returned, not raised.
    fn call(&self, world: &mut W, value: T) -> (r: Result<(), Fault>)
        requires
            self.accepts(old(world)@, value),
        ensures
            self.yields(old(world)@, value, final(world)@, r),
    ;
}

/// A chain closed by a callback: the value goes through `step`, and what
/// comes out is handed to `sink`.
pub struct Feed<S, C> {
    pub step: S,
    pub sink: C,
}

impl<A, W: View, S: Step<A>, C: Callback<S::Out, W>> Callback<A, W> for Feed<S, C> {
    open spec fn accepts(&self, world: W::V, value: A) -> bool {
        &&& self.step.accepts(value)
        &&& forall|passed: S::Out| #[trigger]
            self.step.yields(value, passed) ==> self.sink.accepts(world, passed)
    }

    open spec fn yields(&self, world: W::V, value: A, after: W::V, r: Result<(), Fault>) -> bool {
        exists|passed: S::Out| #![trigger self.step.yields(value, passed)]
            self.step.yields(value, passed) && self.sink.yields(world, passed, after, r)
    }

    fn call(&self, world: &mut W, value: A) -> (r: Result<(), Fault>) {
        let passed = self.step.apply(value);
        self.sink.call(world, passed)
    }
}

/// Closes the chain `step` with the callback `sink`.
pub fn feed<A, W: View, S: Step<A>, C: Callback<S::Out, W>>(step: S, sink: C) -> (fed: Feed<S, C>)
    ensures
        fed == (Feed { step, sink }),
        forall|w: W::V, a: A| #[trigger]
            fed.accepts(w, a) <==> step.accepts(a) && forall|passed: S::Out| #[trigger]
                step.yields(a, passed) ==> sink.accepts(w, passed),
        forall|w: W::V, a: A, after: W::V, r: Result<(), Fault>| #[trigger]
            fed.yields(w, a, after, r) <==> exists|passed: S::Out| #![trigger step.yields(a, passed)]
            step.yields(a, passed) && sink.yields(w, passed, after, r),
{
    let fed = Feed { step, sink };
    assert(fed.step == step && fed.sink == sink);
    fed
}

/// One of two kinds of callback, so that a source can hold both.
pub enum Either<L, R> {
    Left(L),
    Right(R),
}

impl<T, W: View, L: Callback<T, W>, R: Callback<T, W>> Callback<T, W> for Either<L, R> {
    open spec fn accepts(&self, world: W::V, value: T) -> bool {
        match self {
            Either::Left(l) => l.accepts(world, value),
            Either::Right(r) => r.accepts(world, value),
        }
    }

    open spec fn yields(&self, world: W::V, value: T, after: W::V, r: Result<(), Fault>) -> bool {
        match self {
            Either::Left(left) => left.yields(world, value, after, r),
            Either::Right(right) => right.yields(world, value, after, r),
        }
    }

    fn call(&self, world: &mut W, value: T) -> (r: Result<(), Fault>) {
        match self {
            Either::Left(l) => l.call(world, value),
            Either::Right(r) => r.call(world, value),
        }
    }
}

/// Registers on `source` the chain `steps` closed by `sink`, behind all that
/// were registered before.
pub fn connect<S, C>(source: &mut EventSource<Feed<S, C>>, steps: S, sink: C)
    ensures
        final(source)@ == old(source)@.push(Feed { step: steps, sink }),
{
    source.push(Feed { step: steps, sink });
}

/// A chain gives on a value what its last step gives on what the steps
/// before it gave, whichever way the steps were paired into chains; and it
/// accepts a value if each step accepts whatever can reach it.
pub proof fn lemma_chain_composes<A, F: Step<A>, G: Step<F::Out>, H: Step<G::Out>>(
    f: F,
    g: G,
    h: H,
    x: A,
    z: H::Out,
)
    ensures
        (Then { first: Then { first: f, second: g }, second: h }).yields(x, z) <==> exists|
            y1: F::Out,
            y2: G::Out,
        |
            f.yields(x, y1) && #[trigger] g.yields(y1, y2) && h.yields(y2, z),
        (Then { first: f, second: Then { first: g, second: h } }).yields(x, z) <==> (Then {
            first: Then { first: f, second: g },
            second: h,
        }).yields(x, z),
        (Then { first: Then { first: f, second: g }, second: h }).accepts(x) <==> {
            &&& f.accepts(x)
            &&& forall|y1: F::Out| #[trigger] f.yields(x, y1) ==> g.accepts(y1)
            &&& forall|y1: F::Out, y2: G::Out|
                f.yields(x, y1) && #[trigger] g.yields(y1, y2) ==> h.accepts(y2)
        },
        (Then { first: f, second: Then { first: g, second: h } }).accepts(x) <==> (Then {
            first: Then { first: f, second: g },
            second: h,
        }).accepts(x),
{
    let fg = Then { first: f, second: g };
    let gh = Then { first: g, second: h };
    let left = Then { first: fg, second: h };
    let right = Then { first: f, second: gh };
    assert(fg.first == f && fg.second == g);
    assert(gh.first == g && gh.second == h);
    assert(left.first == fg && left.second == h);
    assert(right.first == f && right.second == gh);
    if left.yields(x, z) {
        let y2 = choose|y2: G::Out| #[trigger] fg.yields(x, y2) && h.yields(y2, z);
        let y1 = choose|y1: F::Out| #[trigger] f.yields(x, y1) && g.yields(y1, y2);
        assert(gh.yields(y1, z));
        assert(f.yields(x, y1) && g.yields(y1, y2) && h.yields(y2, z));
    }
    if right.yields(x, z) {
        let y1 = choose|y1: F::Out| #[trigger] f.yields(x, y1) && gh.yields(y1, z);
        let y2 = choose|y2: G::Out| #[trigger] g.yields(y1, y2) && h.yields(y2, z);
        assert(fg.yields(x, y2));
        assert(f.yields(x, y1) && g.yields(y1, y2) && h.yields(y2, z));
    }
    if exists|y1: F::Out, y2: G::Out|
        f.yields(x, y1) && #[trigger] g.yields(y1, y2) && h.yields(y2, z) {
        let (y1, y2) = choose|y1: F::Out, y2: G::Out|
            f.yields(x, y1) && #[trigger] g.yields(y1, y2) && h.yields(y2, z);
        assert(fg.yields(x, y2));
        assert(gh.yields(y1, z));
        assert(left.yields(x, z));
        assert(right.yields(x, z));
    }
    if left.accepts(x) {
        assert forall|y1: F::Out, y2: G::Out|
            f.yields(x, y1) && #[trigger] g.yields(y1, y2) implies h.accepts(y2) by {
            assert(fg.yields(x, y2));
        }
        assert forall|y1: F::Out| #[trigger] f.yields(x, y1) implies gh.accepts(y1) by {
            assert forall|y2: G::Out| #[trigger] g.yields(y1, y2) implies h.accepts(y2) by {
                assert(fg.yields(x, y2));
            }
        }
        assert(right.accepts(x));
    }
    if right.accepts(x) {
        assert forall|y2: G::Out| #[trigger] fg.yields(x, y2) implies h.accepts(y2) by {
            let y1 = choose|y1: F::Out| #[trigger] f.yields(x, y1) && g.yields(y1, y2);
            assert(gh.accepts(y1));
        }
        assert(left.accepts(x));
    }
    if f.accepts(x) && (forall|y1: F::Out| #[trigger] f.yields(x, y1) ==> g.accepts(y1)) && (forall|
        y1: F::Out,
        y2: G::Out,
    |
        f.yields(x, y1) && #[trigger] g.yields(y1, y2) ==> h.accepts(y2)) {
        assert forall|y2: G::Out| #[trigger] fg.yields(x, y2) implies h.accepts(y2) by {
            let y1 = choose|y1: F::Out| #[trigger] f.yields(x, y1) && g.yields(y1, y2);
        }
        assert(left.accepts(x));
    }
}

/// A chain of one step is that step.
pub proof fn lemma_chain_of_one<A, F: Step<A>>(f: F, x: A, y: F::Out)
    ensures
        (Chain { steps: f }).steps == f,
        (Chain { steps: f }).steps.accepts(x) == f.accepts(x),
        (Chain { steps: f }).steps.yields(x, y) == f.yields(x, y),
{
}

/// What a lifted function accepts and yields, for a function of any type.
pub proof fn lemma_lift_unfolds<A, B, F: Fn(A) -> B>(step: Lift<A, B, F>, a: A, b: B)
    ensures
        step.accepts(a) <==> call_requires(step.f, (a,)),
        step.yields(a, b) <==> call_ensures(step.f, (a,), b),
{
}

/// What two steps in a row accept and yield, for steps of any type.
pub proof fn lemma_then_unfolds<A, F: Step<A>, G: Step<F::Out>>(both: Then<F, G>, a: A, c: G::Out)
    ensures
        both.accepts(a) <==> both.first.accepts(a) && forall|b: F::Out| #[trigger]
            both.first.yields(a, b) ==> both.second.accepts(b),
        both.yields(a, c) <==> exists|b: F::Out| #![trigger both.first.yields(a, b)]
            both.first.yields(a, b) && both.second.yields(b, c),
{
}

/// What a chain closed by a callback accepts and yields, for parts of any
/// type.
pub proof fn lemma_feed_unfolds<A, W: View, S: Step<A>, C: Callback<S::Out, W>>(
    fed: Feed<S, C>,
    world: W::V,
    value: A,
    after: W::V,
    r: Result<(), Fault>,
)
    ensures
        fed.accepts(world, value) <==> fed.step.accepts(value) && forall|passed: S::Out| #[trigger]
            fed.step.yields(value, passed) ==> fed.sink.accepts(world, passed),
        fed.yields(world, value, after, r) <==> exists|passed: S::Out| #![trigger fed.step.yields(value, passed)]
            fed.step.yields(value, passed) && fed.sink.yields(world, passed, after, r),
{
}

/// What one of two kinds of callback accepts and yields, for kinds of any
/// type.
pub proof fn lemma_either_unfolds<T, W: View, L: Callback<T, W>, R: Callback<T, W>>(
    either: Either<L, R>,
    world: W::V,
    value: T,
    after: W::V,
    r: Result<(), Fault>,
)
    ensures
        either is Left ==> {
            &&& either.accepts(world, value) <==> either->Left_0.accepts(world, value)
            &&& either.yields(world, value, after, r) <==> either->Left_0.yields(
                world,
                value,
                after,
                r,
            )
        },
        either is Right ==> {
            &&& either.accepts(world, value) <==> either->Right_0.accepts(world, value)
            &&& either.yields(world, value, after, r) <==> either->Right_0.yields(
                world,
                value,
                after,
                r,
            )
        },
{
}

/// Two lifted functions in a row, closed by a callback: the callback is
/// given what the second function makes of what the first made.
pub proof fn lemma_feed_of_lifted_chain<
    A,
    B,
    D,
    W: View,
    F: Fn(A) -> B,
    G: Fn(B) -> D,
    C: Callback<D, W>,
>(fed: Feed<Then<Lift<A, B, F>, Lift<B, D, G>>, C>, world: W::V, value: A, after: W::V, r: Result<
    (),
    Fault,
>)
    ensures
        fed.accepts(world, value) <==> {
            &&& call_requires(fed.step.first.f, (value,))
            &&& forall|b: B| #[trigger]
                call_ensures(fed.step.first.f, (value,), b) ==> call_requires(
                    fed.step.second.f,
                    (b,),
                )
            &&& forall|b: B, d: D|
                call_ensures(fed.step.first.f, (value,), b) && #[trigger] call_ensures(
                    fed.step.second.f,
                    (b,),
                    d,
                ) ==> fed.sink.accepts(world, d)
        },
        fed.yields(world, value, after, r) <==> exists|b: B, d: D|
            call_ensures(fed.step.first.f, (value,), b) && #[trigger] call_ensures(
                fed.step.second.f,
                (b,),
                d,
            ) && fed.sink.yields(world, d, after, r),
{
    let f = fed.step.first;
    let g = fed.step.second;
    assert(fed.step.first == f && fed.step.second == g);
    if fed.accepts(world, value) {
        assert(fed.step.accepts(value));
        assert(f.accepts(value));
        assert forall|b: B| #[trigger] call_ensures(f.f, (value,), b) implies call_requires(
            g.f,
            (b,),
        ) by {
            assert(f.yields(value, b));
            assert(g.accepts(b));
        }
        assert forall|b: B, d: D|
            call_ensures(f.f, (value,), b) && #[trigger] call_ensures(
                g.f,
                (b,),
                d,
            ) implies fed.sink.accepts(world, d) by {
            assert(f.yields(value, b) && g.yields(b, d));
            assert(fed.step.yields(value, d));
        }
    }
    if fed.yields(world, value, after, r) {
        let d = choose|d: D| #[trigger]
            fed.step.yields(value, d) && fed.sink.yields(world, d, after, r);
        let b = choose|b: B| #[trigger] f.yields(value, b) && g.yields(b, d);
        assert(call_ensures(f.f, (value,), b) && call_ensures(g.f, (b,), d));
    }
    if exists|b: B, d: D|
        call_ensures(f.f, (value,), b) && #[trigger] call_ensures(g.f, (b,), d)
            && fed.sink.yields(world, d, after, r) {
        let (b, d) = choose|b: B, d: D|
            call_ensures(f.f, (value,), b) && #[trigger] call_ensures(g.f, (b,), d)
                && fed.sink.yields(world, d, after, r);
        assert(f.yields(value, b) && g.yields(b, d));
        assert(fed.step.yields(value, d));
    }
    if call_requires(f.f, (value,)) && (forall|b: B| #[trigger]
        call_ensures(f.f, (value,), b) ==> call_requires(g.f, (b,))) && (forall|b: B, d: D|
        call_ensures(f.f, (value,), b) && #[trigger] call_ensures(g.f, (b,), d)
            ==> fed.sink.accepts(world, d)) {
        assert forall|b: B| #[trigger] f.yields(value, b) implies g.accepts(b) by {
            assert(call_ensures(f.f, (value,), b));
        }
        assert(f.accepts(value));
        assert(fed.step.accepts(value));
        assert forall|d: D| #[trigger] fed.step.yields(value, d) implies fed.sink.accepts(
            world,
            d,
        ) by {
            let b = choose|b: B| #![trigger f.yields(value, b)] f.yields(value, b) && g.yields(b, d);
            assert(call_ensures(f.f, (value,), b) && call_ensures(g.f, (b,), d));
        }
        assert(fed.accepts(world, value));
    }
}

} // verus!
