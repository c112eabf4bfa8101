use crate::event_sink::Callback;
use crate::fault::Fault;
use vstd::prelude::*;

verus! {

/// The callbacks of the list, run from the first to the last, callback `i`
/// on `values[i]` and on the world that the one before it left, may leave
/// the world `after` and end with `r`. The first fault ends the run.
pub open spec fn runs<T, W: View, C: Callback<T, W>>(
    targets: Seq<C>,
    world: W::V,
    values: Seq<T>,
    after: W::V,
    r: Result<(), Fault>,
) -> bool
    decreases targets.len(),
{
    if targets.len() == 0 {
        after == world && r is Ok
    } else {
        ||| r is Err && runs(targets.drop_last(), world, values, after, r)
        ||| exists|mid: W::V|
            runs(targets.drop_last(), world, values, mid, Ok(())) && #[trigger] targets.last().yields(
                mid,
                values[targets.len() - 1],
                after,
                r,
            )
    }
}

/// Every callback of the list accepts each world that it may be run on, and
/// the value that it will be given.
pub open spec fn admits<T, W: View, C: Callback<T, W>>(
    targets: Seq<C>,
    world: W::V,
    values: Seq<T>,
) -> bool
    decreases targets.len(),
{
    if targets.len() == 0 {
        true
    } else {
        &&& admits(targets.drop_last(), world, values)
        &&& forall|mid: W::V| #[trigger]
            runs(targets.drop_last(), world, values, mid, Ok(())) ==> targets.last().accepts(
                mid,
                values[targets.len() - 1],
            )
    }
}

/// The first `k` callbacks ran without a fault, callback `i` from the world
/// `trail[i]` to the world `trail[i + 1]`.
pub open spec fn visits<T, W: View, C: Callback<T, W>>(
    targets: Seq<C>,
    values: Seq<T>,
    trail: Seq<W::V>,
    k: int,
) -> bool {
    forall|i: int|
        0 <= i < k ==> #[trigger] targets[i].yields(trail[i], values[i], trail[i + 1], Ok(()))
}

/// `trail` holds the worlds of a run, one after the other: it starts with
/// `world`; a run without a fault visits every callback once, in order, and
/// ends in `after`; a run with a fault visits the callbacks in order up to the
/// one that faults, which leaves `after`, and no callback behind it.
pub open spec fn journey<T, W: View, C: Callback<T, W>>(
    targets: Seq<C>,
    world: W::V,
    values: Seq<T>,
    after: W::V,
    r: Result<(), Fault>,
    trail: Seq<W::V>,
) -> bool {
    &&& trail.len() >= 1
    &&& trail[0] == world
    &&& visits(targets, values, trail, trail.len() - 1)
    &&& if r is Ok {
        trail.len() == targets.len() + 1 && trail.last() == after
    } else {
        trail.len() <= targets.len() && targets[trail.len() - 1].yields(
            trail.last(),
            values[trail.len() - 1],
            after,
            r,
        )
    }
}

/// Each of `copies` is a clone of `value`.
pub open spec fn clones_of<T: Clone>(value: T, copies: Seq<T>) -> bool {
    forall|i: int| 0 <= i < copies.len() ==> cloned(value, #[trigger] copies[i])
}

/// Every clone of `value` equals it.
pub open spec fn faithful<T: Clone>(value: T) -> bool {
    forall|copy: T| cloned(value, copy) ==> copy == value
}

/// The value `value`, `n` times.
pub open spec fn repeat<T>(value: T, n: nat) -> Seq<T> {
    Seq::new(n, |i: int| value)
}

/// Clones of a value whose clones all equal it are that value, repeated.
pub proof fn lemma_faithful_copies<T: Clone>(value: T, copies: Seq<T>)
    requires
        faithful(value),
        clones_of(value, copies),
    ensures
        copies == repeat(value, copies.len()),
{
    assert(copies =~= repeat(value, copies.len()));
}

proof fn lemma_runs_carries_over<T, W: View, C: Callback<T, W>>(
    targets: Seq<C>,
    world: W::V,
    values: Seq<T>,
    others: Seq<T>,
    after: W::V,
    r: Result<(), Fault>,
)
    requires
        forall|i: int| 0 <= i < targets.len() ==> values[i] == others[i],
        runs(targets, world, values, after, r),
    ensures
        runs(targets, world, others, after, r),
    decreases targets.len(),
{
    if targets.len() > 0 {
        let front = targets.drop_last();
        if r is Err && runs(front, world, values, after, r) {
            lemma_runs_carries_over(front, world, values, others, after, r);
        } else {
            let mid = choose|mid: W::V|
                runs(front, world, values, mid, Ok(())) && #[trigger] targets.last().yields(
                    mid,
                    values[targets.len() - 1],
                    after,
                    r,
                );
            lemma_runs_carries_over(front, world, values, others, mid, Ok(()));
            assert(runs(front, world, others, mid, Ok(())) && targets.last().yields(
                mid,
                others[targets.len() - 1],
                after,
                r,
            ));
        }
    }
}

/// A list of callbacks reads as many values as it has callbacks: what is
/// behind them in `values` does not matter.
pub proof fn lemma_runs_reads_prefix<T, W: View, C: Callback<T, W>>(
    targets: Seq<C>,
    world: W::V,
    values: Seq<T>,
    others: Seq<T>,
    after: W::V,
    r: Result<(), Fault>,
)
    requires
        forall|i: int| 0 <= i < targets.len() ==> values[i] == others[i],
    ensures
        runs(targets, world, values, after, r) == runs(targets, world, others, after, r),
        admits(targets, world, values) == admits(targets, world, others),
    decreases targets.len(),
{
    if runs(targets, world, values, after, r) {
        lemma_runs_carries_over(targets, world, values, others, after, r);
    }
    if runs(targets, world, others, after, r) {
        lemma_runs_carries_over(targets, world, others, values, after, r);
    }
    if targets.len() > 0 {
        let front = targets.drop_last();
        lemma_runs_reads_prefix(front, world, values, others, after, r);
        assert forall|mid: W::V|
            runs(front, world, values, mid, Ok(())) == runs(front, world, others, mid, Ok(())) by {
            if runs(front, world, values, mid, Ok(())) {
                lemma_runs_carries_over(front, world, values, others, mid, Ok(()));
            }
            if runs(front, world, others, mid, Ok(())) {
                lemma_runs_carries_over(front, world, others, values, mid, Ok(()));
            }
        }
    }
}

/// A fault ends the run: the callbacks behind it are not invoked.
pub proof fn lemma_fault_ends_run<T, W: View, C: Callback<T, W>>(
    targets: Seq<C>,
    n: int,
    world: W::V,
    values: Seq<T>,
    after: W::V,
    r: Result<(), Fault>,
)
    requires
        0 <= n <= targets.len(),
        r is Err,
        runs(targets.take(n), world, values, after, r),
    ensures
        runs(targets, world, values, after, r),
    decreases targets.len(),
{
    if n == targets.len() {
        assert(targets.take(n) =~= targets);
    } else {
        assert(targets.drop_last().take(n) =~= targets.take(n));
        lemma_fault_ends_run(targets.drop_last(), n, world, values, after, r);
    }
}

/// A list that is admitted is admitted up to any of its callbacks.
pub proof fn lemma_admits_prefix<T, W: View, C: Callback<T, W>>(
    targets: Seq<C>,
    n: int,
    world: W::V,
    values: Seq<T>,
)
    requires
        0 <= n <= targets.len(),
        admits(targets, world, values),
    ensures
        admits(targets.take(n), world, values),
    decreases targets.len(),
{
    if n == targets.len() {
        assert(targets.take(n) =~= targets);
    } else {
        assert(targets.drop_last().take(n) =~= targets.take(n));
        lemma_admits_prefix(targets.drop_last(), n, world, values);
    }
}

/// A list without callbacks admits every world and leaves it as it is.
pub proof fn lemma_runs_of_none<T, W: View, C: Callback<T, W>>(
    targets: Seq<C>,
    world: W::V,
    values: Seq<T>,
    after: W::V,
    r: Result<(), Fault>,
)
    requires
        targets.len() == 0,
    ensures
        admits(targets, world, values),
        runs(targets, world, values, after, r) <==> after == world && r is Ok,
{
}

/// A list of one callback admits what the callback accepts and does what
/// the callback does.
pub proof fn lemma_runs_of_one<T, W: View, C: Callback<T, W>>(
    targets: Seq<C>,
    world: W::V,
    values: Seq<T>,
    after: W::V,
    r: Result<(), Fault>,
)
    requires
        targets.len() == 1,
    ensures
        admits(targets, world, values) <==> targets[0].accepts(world, values[0]),
        runs(targets, world, values, after, r) <==> targets[0].yields(world, values[0], after, r),
{
    let none = targets.drop_last();
    assert(targets.last() == targets[0]);
    lemma_runs_of_none(none, world, values, after, r);
    lemma_runs_of_none(none, world, values, world, Ok(()));
    assert forall|mid: W::V| #[trigger] runs(none, world, values, mid, Ok(())) implies mid
        == world by {
        lemma_runs_of_none(none, world, values, mid, Ok(()));
    }
    if runs(targets, world, values, after, r) {
        if !(r is Err && runs(none, world, values, after, r)) {
            let mid = choose|mid: W::V|
                runs(none, world, values, mid, Ok(())) && #[trigger] targets.last().yields(
                    mid,
                    values[targets.len() - 1],
                    after,
                    r,
                );
        }
    }
    if targets[0].yields(world, values[0], after, r) {
        assert(runs(none, world, values, world, Ok(())) && targets.last().yields(
            world,
            values[targets.len() - 1],
            after,
            r,
        ));
    }
}

/// Registration order is dispatch order: the callback registered last runs
/// last, on a world that the callbacks before it left, and only if none of
/// them faulted.
pub proof fn lemma_registration_order<T, W: View, C: Callback<T, W>>(
    targets: Seq<C>,
    callback: C,
    world: W::V,
    values: Seq<T>,
    after: W::V,
    r: Result<(), Fault>,
)
    ensures
        runs(targets.push(callback), world, values, after, r) <==> {
            ||| r is Err && runs(targets, world, values, after, r)
            ||| exists|mid: W::V|
                runs(targets, world, values, mid, Ok(())) && #[trigger] callback.yields(
                    mid,
                    values[targets.len() as int],
                    after,
                    r,
                )
        },
        admits(targets.push(callback), world, values) <==> {
            &&& admits(targets, world, values)
            &&& forall|mid: W::V| #[trigger]
                runs(targets, world, values, mid, Ok(())) ==> callback.accepts(
                    mid,
                    values[targets.len() as int],
                )
        },
{
    let longer = targets.push(callback);
    assert(longer.drop_last() =~= targets);
    assert(longer.last() == callback);
    assert(longer.len() == targets.len() + 1);
}

/// Fan-out: a run without a fault has invoked every callback exactly once,
/// in registration order; a run with a fault has invoked the callbacks up to
/// the one that faulted, in order, and no other.
pub proof fn lemma_run_visits_each<T, W: View, C: Callback<T, W>>(
    targets: Seq<C>,
    world: W::V,
    values: Seq<T>,
    after: W::V,
    r: Result<(), Fault>,
)
    requires
        runs(targets, world, values, after, r),
    ensures
        exists|trail: Seq<W::V>| #[trigger]
            journey(targets, world, values, after, r, trail),
    decreases targets.len(),
{
    if targets.len() == 0 {
        assert(journey(targets, world, values, after, r, seq![world]));
    } else {
        let front = targets.drop_last();
        let n = targets.len() as int;
        if r is Err && runs(front, world, values, after, r) {
            lemma_run_visits_each(front, world, values, after, r);
            let trail = choose|trail: Seq<W::V>| #[trigger]
                journey(front, world, values, after, r, trail);
            assert forall|i: int| 0 <= i < trail.len() - 1 implies #[trigger] targets[i].yields(
                trail[i],
                values[i],
                trail[i + 1],
                Ok(()),
            ) by {
                assert(front[i].yields(trail[i], values[i], trail[i + 1], Ok(())));
            }
            assert(front[trail.len() - 1] == targets[trail.len() - 1]);
            assert(journey(targets, world, values, after, r, trail));
        } else {
            let mid = choose|mid: W::V|
                runs(front, world, values, mid, Ok(())) && #[trigger] targets.last().yields(
                    mid,
                    values[n - 1],
                    after,
                    r,
                );
            lemma_run_visits_each(front, world, values, mid, Ok(()));
            let before = choose|trail: Seq<W::V>| #[trigger]
                journey(front, world, values, mid, Ok(()), trail);
            if r is Ok {
                let trail = before.push(after);
                assert(r->Ok_0 == ());
                assert(r == Ok::<(), Fault>(()));
                assert forall|i: int| 0 <= i < n implies #[trigger] targets[i].yields(
                    trail[i],
                    values[i],
                    trail[i + 1],
                    Ok(()),
                ) by {
                    if i < n - 1 {
                        assert(front[i].yields(before[i], values[i], before[i + 1], Ok(())));
                    }
                }
                assert(journey(targets, world, values, after, r, trail));
            } else {
                assert forall|i: int| 0 <= i < n - 1 implies #[trigger] targets[i].yields(
                    before[i],
                    values[i],
                    before[i + 1],
                    Ok(()),
                ) by {
                    assert(front[i].yields(before[i], values[i], before[i + 1], Ok(())));
                }
                assert(targets.last() == targets[n - 1]);
                assert(before.len() == n && before.last() == mid);
                assert(journey(targets, world, values, after, r, before));
            }
        }
    }
}

/// The character that stands for the digit `d`.
pub open spec fn digit(d: nat) -> char {
    if d == 0 {
        '0'
    } else if d == 1 {
        '1'
    } else if d == 2 {
        '2'
    } else if d == 3 {
        '3'
    } else if d == 4 {
        '4'
    } else if d == 5 {
        '5'
    } else if d == 6 {
        '6'
    } else if d == 7 {
        '7'
    } else if d == 8 {
        '8'
    } else {
        '9'
    }
}

/// The number `n` in decimal, without leading zeros.
pub open spec fn decimal(n: nat) -> Seq<char>
    decreases n,
{
    if n < 10 {
        seq![digit(n)]
    } else {
        decimal(n / 10).push(digit(n % 10))
    }
}

fn digit_text(d: usize) -> (text: &'static str)
    requires
        d < 10,
    ensures
        text@ == seq![digit(d as nat)],
{
    proof {
        reveal_strlit("0");
        reveal_strlit("1");
        reveal_strlit("2");
        reveal_strlit("3");
        reveal_strlit("4");
        reveal_strlit("5");
        reveal_strlit("6");
        reveal_strlit("7");
        reveal_strlit("8");
        reveal_strlit("9");
    }
    let text = if d == 0 {
        "0"
    } else if d == 1 {
        "1"
    } else if d == 2 {
        "2"
    } else if d == 3 {
        "3"
    } else if d == 4 {
        "4"
    } else if d == 5 {
        "5"
    } else if d == 6 {
        "6"
    } else if d == 7 {
        "7"
    } else if d == 8 {
        "8"
    } else {
        "9"
    };
    assert(text@ =~= seq![digit(d as nat)]);
    text
}

fn append_decimal(text: &mut String, n: usize)
    ensures
        final(text)@ == old(text)@ + decimal(n as nat),
    decreases n,
{
    if n >= 10 {
        append_decimal(text, n / 10);
    }
    text.append(digit_text(n % 10));
    assert(text@ =~= old(text)@ + decimal(n as nat));
}

/// An ordered list of callbacks. Callbacks are only ever added, at the end.
pub struct EventSource<C> {
    targets: Vec<C>,
}

impl<C> View for EventSource<C> {
    type V = Seq<C>;

    /// The registered callbacks, in registration order.
    closed spec fn view(&self) -> Seq<C> {
        self.targets@
    }
}

impl<C> EventSource<C> {
    /// A source with no callback.
    pub fn new() -> (source: EventSource<C>)
        ensures
            source@ == Seq::<C>::empty(),
    {
        EventSource { targets: Vec::new() }
    }

    /// The number of registered callbacks.
    pub fn len(&self) -> (n: usize)
        ensures
            n == self@.len(),
    {
        self.targets.len()
    }

    /// The source in words, with the number of its callbacks.
    pub fn describe(&self) -> (text: String)
        ensures
            text@ == "<EventSource with "@ + decimal(self@.len()) + " targets>"@,
    {
        let mut text = String::from_str("<EventSource with ");
        append_decimal(&mut text, self.targets.len());
        text.append(" targets>");
        text
    }

    /// Registers `callback` behind all that were registered before.
    pub fn push(&mut self, callback: C)
        ensures
            final(self)@ == old(self)@.push(callback),
    {
        self.targets.push(callback);
    }

    /// Hands a clone of `val` to each registered callback, in registration
    /// order, each on the world that the one before it left. The first fault
    /// ends the dispatch and is returned.
    pub fn fire<T: Clone, W: View>(&self, world: &mut W, val: T) -> (r: Result<(), Fault>) where
        C: Callback<T, W>,

        requires
            forall|copies: Seq<T>|
                copies.len() == self@.len() && clones_of(val, copies) ==> #[trigger] admits(
                    self@,
                    old(world)@,
                    copies,
                ),
        ensures
            exists|copies: Seq<T>|
                {
                    &&& copies.len() == self@.len()
                    &&& clones_of(val, copies)
                    &&& #[trigger] runs(self@, old(world)@, copies, final(world)@, r)
                },
    {
        let n: usize = self.targets.len();
        let mut i: usize = 0;
        let ghost mut copies: Seq<T> = Seq::empty();
        while i < n
            invariant
                i <= n,
                n == self@.len(),
                copies.len() == i,
                clones_of(val, copies),
                forall|all: Seq<T>|
                    all.len() == self@.len() && clones_of(val, all) ==> #[trigger] admits(
                        self@,
                        old(world)@,
                        all,
                    ),
                runs(self@.take(i as int), old(world)@, copies, world@, Ok(())),
            decreases n - i,
        {
            let copy = val.clone();
            let ghost next = copies.push(copy);
            let ghost padded = next + repeat(val, (n - i - 1) as nat);
            let ghost before = world@;
            proof {
                assert(cloned(val, copy));
                assert(clones_of(val, padded));
                assert(self@.take(i + 1).drop_last() =~= self@.take(i as int));
                assert(self@.take(i + 1).last() == self@[i as int]);
                lemma_admits_prefix(self@, i + 1, old(world)@, padded);
                lemma_runs_reads_prefix(
                    self@.take(i as int),
                    old(world)@,
                    padded,
                    copies,
                    before,
                    Ok(()),
                );
                lemma_runs_reads_prefix(
                    self@.take(i as int),
                    old(world)@,
                    next,
                    copies,
                    before,
                    Ok(()),
                );
            }
            let r = self.targets[i].call(world, copy);
            proof {
                let upto = self@.take(i + 1);
                assert(upto.len() == i + 1 && next[i as int] == copy);
                assert(runs(upto.drop_last(), old(world)@, next, before, Ok(())) && upto.last().yields(
                    before,
                    next[upto.len() - 1],
                    world@,
                    r,
                ));
                assert(runs(upto, old(world)@, next, world@, r));
            }
            match r {
                Err(fault) => {
                    proof {
                        lemma_runs_reads_prefix(
                            self@.take(i + 1),
                            old(world)@,
                            padded,
                            next,
                            world@,
                            r,
                        );
                        lemma_fault_ends_run(self@, i + 1, old(world)@, padded, world@, r);
                    }
                    return Err(fault);
                },
                Ok(done) => {
                    assert(done == ());
                },
            }
            proof {
                copies = next;
            }
            i += 1;
        }
        proof {
            assert(self@.take(n as int) =~= self@);
        }
        Ok(())
    }
}

} // verus!
