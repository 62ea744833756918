//! The mathematical model of the sliding-window match engine.
//!
//! The engine keeps a bounded *haystack* of committed history and a *needle*
//! of bytes that are still being matched. A byte extends the needle for as
//! long as the extended needle occurs somewhere in the haystack; as soon as
//! it does not, the needle is resolved as a run, committed to the haystack,
//! and a new needle starts with that byte.

use vstd::prelude::*;

verus! {

/// `needle` occurs in `hay` starting at position `p`.
pub open spec fn occurs_at(hay: Seq<u8>, needle: Seq<u8>, p: int) -> bool {
    &&& 0 <= p
    &&& p + needle.len() <= hay.len()
    &&& hay.subrange(p, p + needle.len()) == needle
}

/// `needle` occurs somewhere in `hay`.
pub open spec fn occurs(hay: Seq<u8>, needle: Seq<u8>) -> bool {
    exists|p: int| occurs_at(hay, needle, p)
}

/// The last `window_size` bytes of `s`, or all of `s` if it is shorter.
pub open spec fn trim_to_window(s: Seq<u8>, window_size: nat) -> Seq<u8> {
    if s.len() > window_size {
        s.subrange(s.len() - window_size, s.len() as int)
    } else {
        s
    }
}

/// `p` is the position of the most recent occurrence of `needle` in `hay`:
/// `needle` occurs there, and nowhere further to the right.
pub open spec fn is_last_occurrence(hay: Seq<u8>, needle: Seq<u8>, p: int) -> bool {
    &&& occurs_at(hay, needle, p)
    &&& forall|q: int| occurs_at(hay, needle, q) ==> q <= p
}

/// The age of `run` in `hay`: the distance, in bytes, from the end of `hay`
/// back to the end of the most recent occurrence of `run` in `hay`. `None`
/// says that `run` is empty or does not occur in `hay` at all.
pub open spec fn age_of(hay: Seq<u8>, run: Seq<u8>) -> Option<nat> {
    if run.len() > 0 && occurs(hay, run) {
        let p = choose|p: int| is_last_occurrence(hay, run, p);
        Some((hay.len() - p - run.len()) as nat)
    } else {
        None
    }
}

/// An age held in a machine integer, as the number it stands for.
pub open spec fn age_view(age: Option<usize>) -> Option<nat> {
    match age {
        Some(a) => Some(a as nat),
        None => None,
    }
}

/// What one step of the engine reports.
pub ghost enum Outcome {
    /// The needle still matches history; nothing is resolved yet.
    Buffering,
    /// The needle could not grow: it is handed out as a run, with its age.
    Flushed { run: Seq<u8>, age: Option<nat> },
}

impl Outcome {
    /// The bytes that this outcome hands to the consumer.
    pub open spec fn bytes(self) -> Seq<u8> {
        match self {
            Outcome::Buffering => Seq::empty(),
            Outcome::Flushed { run, age } => run,
        }
    }
}

/// The state of the engine.
pub ghost struct Engine {
    /// Capacity of the haystack.
    pub window_size: nat,
    /// Committed history, oldest byte first.
    pub haystack: Seq<u8>,
    /// Bytes consumed since the last resolved run.
    pub needle: Seq<u8>,
}

impl Engine {
    /// A fresh engine: no history, nothing buffered.
    pub open spec fn init(window_size: nat) -> Engine {
        Engine { window_size, haystack: Seq::empty(), needle: Seq::empty() }
    }

    /// What holds of every state that a fresh engine can reach.
    pub open spec fn wf(self) -> bool {
        &&& self.window_size >= 1
        &&& self.haystack.len() <= self.window_size
        &&& self.needle.len() <= self.window_size
        &&& self.needle.len() == 0 ==> self.haystack.len() == 0
    }

    /// The needle, extended by `byte`, still occurs in the haystack.
    pub open spec fn extends(self, byte: u8) -> bool {
        self.needle.len() > 0 && occurs(self.haystack, self.needle.push(byte))
    }

    /// The state after consuming `byte`.
    pub open spec fn next(self, byte: u8) -> Engine {
        if self.extends(byte) {
            Engine { needle: self.needle.push(byte), ..self }
        } else {
            Engine {
                haystack: trim_to_window(self.haystack + self.needle, self.window_size),
                needle: seq![byte],
                ..self
            }
        }
    }

    /// What consuming `byte` reports.
    pub open spec fn outcome(self, byte: u8) -> Outcome {
        if self.extends(byte) {
            Outcome::Buffering
        } else {
            Outcome::Flushed { run: self.needle, age: age_of(self.haystack, self.needle) }
        }
    }
}

/// An occurrence that is followed by `byte` is an occurrence of the needle
/// extended by `byte`.
pub proof fn lemma_occurrence_extends(hay: Seq<u8>, needle: Seq<u8>, byte: u8, p: int)
    requires
        occurs_at(hay, needle, p),
        p + needle.len() < hay.len(),
        hay[p + needle.len()] == byte,
    ensures
        occurs_at(hay, needle.push(byte), p),
{
    let longer = needle.push(byte);
    assert forall|k: int| 0 <= k < longer.len() implies hay.subrange(p, p + longer.len())[k]
        == longer[k] by {
        if k < needle.len() {
            assert(hay.subrange(p, p + needle.len())[k] == needle[k]);
        }
    }
    assert(hay.subrange(p, p + longer.len()) =~= longer);
}

/// An occurrence of the needle extended by `byte` is an occurrence of the
/// needle that is followed by `byte`.
pub proof fn lemma_occurrence_shrinks(hay: Seq<u8>, needle: Seq<u8>, byte: u8, p: int)
    requires
        occurs_at(hay, needle.push(byte), p),
    ensures
        occurs_at(hay, needle, p),
        p + needle.len() < hay.len(),
        hay[p + needle.len()] == byte,
{
    let longer = needle.push(byte);
    assert forall|k: int| 0 <= k < needle.len() implies hay.subrange(p, p + needle.len())[k]
        == needle[k] by {
        assert(hay.subrange(p, p + longer.len())[k] == longer[k]);
    }
    assert(hay.subrange(p, p + needle.len()) =~= needle);
    assert(hay.subrange(p, p + longer.len())[needle.len() as int] == longer[needle.len() as int]);
}

/// The age of a run whose most recent occurrence is at `p`.
pub proof fn lemma_age_of_last(hay: Seq<u8>, run: Seq<u8>, p: int)
    requires
        run.len() > 0,
        is_last_occurrence(hay, run, p),
    ensures
        age_of(hay, run) == Some((hay.len() - p - run.len()) as nat),
{
    let chosen = choose|q: int| is_last_occurrence(hay, run, q);
    assert(occurs_at(hay, run, p));
    assert(chosen <= p && p <= chosen);
}

} // verus!
