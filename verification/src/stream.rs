//! The engine over a whole stream, and what holds of every stream.

use crate::engine::{age_of, is_last_occurrence, occurs, occurs_at, trim_to_window, Engine, Outcome};
use vstd::prelude::*;

verus! {

impl Engine {
    /// The state after consuming all of `input`, byte by byte.
    pub open spec fn run(self, input: Seq<u8>) -> Engine
        decreases input.len(),
    {
        if input.len() == 0 {
            self
        } else {
            self.run(input.drop_last()).next(input.last())
        }
    }

    /// What is reported, in order, while consuming `input` byte by byte.
    pub open spec fn outcomes(self, input: Seq<u8>) -> Seq<Outcome>
        decreases input.len(),
    {
        if input.len() == 0 {
            Seq::empty()
        } else {
            self.outcomes(input.drop_last()).push(
                self.run(input.drop_last()).outcome(input.last()),
            )
        }
    }
}

/// The bytes of all resolved runs among `outcomes`, in order.
pub open spec fn emitted(outcomes: Seq<Outcome>) -> Seq<u8>
    decreases outcomes.len(),
{
    if outcomes.len() == 0 {
        Seq::empty()
    } else {
        emitted(outcomes.drop_last()) + outcomes.last().bytes()
    }
}

/// A fresh engine is well formed.
pub proof fn lemma_init_wf(window_size: nat)
    requires
        window_size >= 1,
    ensures
        Engine::init(window_size).wf(),
{
}

/// A step keeps the engine well formed. In particular the haystack never
/// holds more than `window_size` bytes, and neither does the needle.
pub proof fn lemma_next_wf(e: Engine, byte: u8)
    requires
        e.wf(),
    ensures
        e.next(byte).wf(),
        e.next(byte).window_size == e.window_size,
        e.next(byte).haystack.len() <= e.window_size,
        e.next(byte).needle.len() <= e.window_size,
        e.next(byte).needle.len() >= 1,
{
    if e.extends(byte) {
        let p = choose|p: int| occurs_at(e.haystack, e.needle.push(byte), p);
        assert(p + e.needle.push(byte).len() <= e.haystack.len());
    }
}

/// Every state that a well-formed engine reaches is well formed: however
/// long the stream, the haystack stays within the window.
pub proof fn lemma_run_wf(e: Engine, input: Seq<u8>)
    requires
        e.wf(),
    ensures
        e.run(input).wf(),
        e.run(input).window_size == e.window_size,
        e.run(input).haystack.len() <= e.window_size,
    decreases input.len(),
{
    if input.len() > 0 {
        lemma_run_wf(e, input.drop_last());
        lemma_next_wf(e.run(input.drop_last()), input.last());
    }
}

/// A needle that fills the whole window is resolved by the next byte,
/// whatever that byte is, and is then all of the history that is kept.
pub proof fn lemma_full_window_run(e: Engine, byte: u8)
    requires
        e.wf(),
        e.needle.len() == e.window_size,
    ensures
        e.outcome(byte) == (Outcome::Flushed {
            run: e.needle,
            age: age_of(e.haystack, e.needle),
        }),
        e.next(byte).haystack == e.needle,
        e.next(byte).needle == seq![byte],
{
    if e.extends(byte) {
        let p = choose|p: int| occurs_at(e.haystack, e.needle.push(byte), p);
        assert(p + e.needle.push(byte).len() <= e.haystack.len());
    }
    assert(trim_to_window(e.haystack + e.needle, e.window_size) =~= e.needle);
}

/// The first byte given to a fresh engine resolves the empty run, with no
/// age.
pub proof fn lemma_cold_start(window_size: nat, byte: u8)
    ensures
        Engine::init(window_size).outcome(byte) == (Outcome::Flushed {
            run: Seq::empty(),
            age: None,
        }),
        Engine::init(window_size).next(byte).needle == seq![byte],
{
    let e = Engine::init(window_size);
    assert(!e.extends(byte));
    assert(age_of(e.haystack, e.needle) is None);
}

/// `p` is the rightmost occurrence of `needle` at or below `bound`.
spec fn is_last_below(hay: Seq<u8>, needle: Seq<u8>, bound: int, p: int) -> bool {
    &&& p <= bound
    &&& occurs_at(hay, needle, p)
    &&& forall|q: int| q <= bound && occurs_at(hay, needle, q) ==> q <= p
}

/// Among the occurrences at or below `bound`, if there is any, one is
/// rightmost.
proof fn lemma_last_occurrence_below(hay: Seq<u8>, needle: Seq<u8>, bound: int, some: int)
    requires
        some <= bound,
        occurs_at(hay, needle, some),
    ensures
        exists|p: int| is_last_below(hay, needle, bound, p),
    decreases bound,
{
    if occurs_at(hay, needle, bound) {
        assert(is_last_below(hay, needle, bound, bound));
    } else {
        let lower = bound - 1;
        lemma_last_occurrence_below(hay, needle, lower, some);
        let p = choose|p: int| is_last_below(hay, needle, lower, p);
        assert(is_last_below(hay, needle, bound, p));
    }
}

/// A needle that occurs in the haystack has a most recent occurrence.
pub proof fn lemma_last_occurrence_exists(hay: Seq<u8>, needle: Seq<u8>)
    requires
        occurs(hay, needle),
    ensures
        exists|p: int| is_last_occurrence(hay, needle, p),
{
    let some = choose|p: int| occurs_at(hay, needle, p);
    lemma_last_occurrence_below(hay, needle, hay.len() as int, some);
    let p = choose|p: int| is_last_below(hay, needle, hay.len() as int, p);
    assert(is_last_occurrence(hay, needle, p));
}

/// An age points at the most recent occurrence of the run, and is smaller
/// than the length of the haystack.
pub proof fn lemma_age_bound(hay: Seq<u8>, run: Seq<u8>)
    ensures
        age_of(hay, run) matches Some(age) ==> {
            &&& run.len() > 0
            &&& age < hay.len()
            &&& age + run.len() <= hay.len()
            &&& is_last_occurrence(hay, run, hay.len() - age - run.len())
        },
{
    if run.len() > 0 && occurs(hay, run) {
        lemma_last_occurrence_exists(hay, run);
    }
}

/// A non-empty run has no age only if it occurs nowhere in the haystack.
pub proof fn lemma_no_age(hay: Seq<u8>, run: Seq<u8>)
    requires
        run.len() > 0,
    ensures
        age_of(hay, run) is None <==> !occurs(hay, run),
{
}

/// Whatever age a step reports is smaller than the length of the haystack,
/// before the step and after it.
pub proof fn lemma_reported_age_bound(e: Engine, byte: u8)
    requires
        e.wf(),
    ensures
        e.outcome(byte) matches Outcome::Flushed { run, age: Some(age) } ==> {
            &&& run == e.needle
            &&& age < e.haystack.len()
            &&& age < e.next(byte).haystack.len()
            &&& is_last_occurrence(e.haystack, run, e.haystack.len() - age - run.len())
        },
        e.outcome(byte) matches Outcome::Flushed { run, age: None } ==> run.len() == 0 || !occurs(
            e.haystack,
            run,
        ),
{
    lemma_age_bound(e.haystack, e.needle);
}

/// Consuming `first` and then `second` is consuming `first + second`.
pub proof fn lemma_run_concat(e: Engine, first: Seq<u8>, second: Seq<u8>)
    ensures
        e.run(first + second) == e.run(first).run(second),
        e.outcomes(first + second) == e.outcomes(first) + e.run(first).outcomes(second),
    decreases second.len(),
{
    if second.len() == 0 {
        assert(first + second =~= first);
        assert(e.outcomes(first) + e.run(first).outcomes(second) =~= e.outcomes(first));
    } else {
        let whole = first + second;
        assert(whole.drop_last() =~= first + second.drop_last());
        assert(whole.last() == second.last());
        lemma_run_concat(e, first, second.drop_last());
        assert(e.outcomes(whole) =~= e.outcomes(first) + e.run(first).outcomes(second));
    }
}

/// Nothing is lost and nothing is made up: the bytes of the resolved runs,
/// followed by what is still buffered, are what was buffered at the start
/// followed by the input.
pub proof fn lemma_partition(e: Engine, input: Seq<u8>)
    ensures
        emitted(e.outcomes(input)) + e.run(input).needle == e.needle + input,
    decreases input.len(),
{
    if input.len() == 0 {
        assert(emitted(e.outcomes(input)) + e.run(input).needle =~= e.needle + input);
    } else {
        let shorter = input.drop_last();
        let byte = input.last();
        let mid = e.run(shorter);
        lemma_partition(e, shorter);
        assert(e.outcomes(input).drop_last() =~= e.outcomes(shorter));
        assert(e.outcomes(input).last() == mid.outcome(byte));
        assert(e.needle + input =~= (e.needle + shorter).push(byte));
        if mid.extends(byte) {
            assert(emitted(e.outcomes(input)) =~= emitted(e.outcomes(shorter)));
            assert(emitted(e.outcomes(input)) + e.run(input).needle =~= (emitted(
                e.outcomes(shorter),
            ) + mid.needle).push(byte));
        } else {
            assert(emitted(e.outcomes(input)) + e.run(input).needle =~= (emitted(
                e.outcomes(shorter),
            ) + mid.needle).push(byte));
        }
    }
}

/// Fed to a fresh engine, a stream is cut into runs: the resolved runs, in
/// order, followed by the bytes left in the needle at the end, are the
/// stream itself.
pub proof fn lemma_round_trip(window_size: nat, input: Seq<u8>)
    ensures
        emitted(Engine::init(window_size).outcomes(input)) + Engine::init(window_size).run(
            input,
        ).needle == input,
{
    let e = Engine::init(window_size);
    lemma_partition(e, input);
    assert(e.needle + input =~= input);
}

} // verus!
