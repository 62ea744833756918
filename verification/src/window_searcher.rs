//! The executable sliding-window match engine.

use crate::engine::{
    age_of, age_view, is_last_occurrence, lemma_age_of_last, lemma_occurrence_extends,
    lemma_occurrence_shrinks, occurs, occurs_at, trim_to_window, Engine, Outcome,
};
use std::collections::VecDeque;
use vstd::prelude::*;

verus! {

/// The window size that is used where none is asked for.
pub const DEFAULT_WINDOW_SIZE: usize = 1024;

/// Why a configuration is refused.
#[derive(Clone, Copy, Debug, PartialEq, Eq)]
pub enum ConfigError {
    /// The window has to hold at least one byte.
    ZeroWindowSize,
}

impl ConfigError {
    /// The error in words.
    pub fn message(&self) -> (text: &'static str)
        ensures
            text@ == "window size must be greater than zero"@,
    {
        "window size must be greater than zero"
    }
}

/// Incremental matcher over a bounded window of history.
///
/// Bytes are fed one at a time through [`WindowSearcher::search`]. The
/// engine keeps, besides the haystack and the needle of its model, the list
/// of haystack positions at which the needle currently occurs, so that a
/// byte that extends the needle costs one comparison per live candidate.
pub struct WindowSearcher {
    window_size: usize,
    haystack: VecDeque<u8>,
    needle: VecDeque<u8>,
    matches: Vec<usize>,
}

/// What [`WindowSearcher::search`] reports for one byte.
#[derive(Debug, PartialEq, Eq)]
pub enum SearchState {
    /// The byte extended a repeat of earlier history; nothing is resolved.
    Buffering,
    /// The bytes buffered so far are resolved as a run.
    Flushed {
        buffer: VecDeque<u8>,
        /// How long ago, in bytes, the run was last seen in the window;
        /// `None` if it does not occur there.
        age: Option<usize>,
    },
}

impl View for SearchState {
    type V = Outcome;

    open spec fn view(&self) -> Outcome {
        match self {
            SearchState::Buffering => Outcome::Buffering,
            SearchState::Flushed { buffer, age } => Outcome::Flushed {
                run: buffer@,
                age: age_view(*age),
            },
        }
    }
}

/// `list` is strictly increasing.
pub open spec fn strictly_increasing(list: Seq<usize>) -> bool {
    forall|i: int, j: int| 0 <= i < j < list.len() ==> list[i] < list[j]
}

/// `p` is an entry of `list`.
pub open spec fn lists(list: Seq<usize>, p: int) -> bool {
    exists|i: int| 0 <= i < list.len() && list[i] == p
}

/// `list` enumerates, in increasing order, exactly the positions at which a
/// non-empty `needle` occurs in `hay`; for an empty needle it is empty.
pub open spec fn is_candidate_list(hay: Seq<u8>, needle: Seq<u8>, list: Seq<usize>) -> bool {
    &&& strictly_increasing(list)
    &&& forall|i: int| 0 <= i < list.len() ==> occurs_at(hay, needle, #[trigger] list[i] as int)
    &&& forall|p: int| needle.len() > 0 && #[trigger] occurs_at(hay, needle, p) ==> lists(list, p)
    &&& needle.len() == 0 ==> list.len() == 0
}

/// The test that a candidate has to pass to survive `byte`: its occurrence
/// of a needle of `needle_len` bytes is followed, inside the haystack, by
/// `byte`.
pub open spec fn continues_at(hay: Seq<u8>, needle_len: nat, p: int, byte: u8) -> bool {
    p + needle_len < hay.len() && hay[p + needle_len] == byte
}

/// The age of the needle can be read off its candidates: it is the distance
/// from the end of the last candidate's occurrence to the end of the
/// haystack, and there is none if there is no candidate.
pub proof fn lemma_age_by_candidates(hay: Seq<u8>, needle: Seq<u8>, list: Seq<usize>)
    requires
        is_candidate_list(hay, needle, list),
    ensures
        list.len() > 0 ==> is_last_occurrence(hay, needle, list.last() as int),
        age_of(hay, needle) == if list.len() == 0 {
            None
        } else {
            Some((hay.len() - list.last() - needle.len()) as nat)
        },
{
    if list.len() > 0 {
        let last = list[list.len() - 1];
        assert(occurs_at(hay, needle, last as int));
        assert forall|q: int| occurs_at(hay, needle, q) implies q <= last by {
            let i = choose|i: int| 0 <= i < list.len() && list[i] == q;
            assert(list[i] <= list[list.len() - 1]);
        }
        lemma_age_of_last(hay, needle, last as int);
    } else if needle.len() > 0 && occurs(hay, needle) {
        let p = choose|p: int| occurs_at(hay, needle, p);
        assert(lists(list, p));
    }
}

/// The needle, extended by `byte`, still occurs in the haystack exactly if
/// one of its candidates passes the test for `byte`.
pub proof fn lemma_extends_by_candidates(e: Engine, list: Seq<usize>, byte: u8)
    requires
        is_candidate_list(e.haystack, e.needle, list),
    ensures
        e.extends(byte) <==> exists|i: int|
            0 <= i < list.len() && continues_at(
                e.haystack,
                e.needle.len(),
                #[trigger] list[i] as int,
                byte,
            ),
{
    let longer = e.needle.push(byte);
    if e.extends(byte) {
        let p = choose|p: int| occurs_at(e.haystack, longer, p);
        lemma_occurrence_shrinks(e.haystack, e.needle, byte, p);
        let i = choose|i: int| 0 <= i < list.len() && list[i] == p;
        assert(continues_at(e.haystack, e.needle.len(), list[i] as int, byte));
    }
    if exists|i: int|
        0 <= i < list.len() && continues_at(
            e.haystack,
            e.needle.len(),
            #[trigger] list[i] as int,
            byte,
        ) {
        let i = choose|i: int|
            0 <= i < list.len() && continues_at(
                e.haystack,
                e.needle.len(),
                #[trigger] list[i] as int,
                byte,
            );
        lemma_occurrence_extends(e.haystack, e.needle, byte, list[i] as int);
    }
}

/// From one step to the next, while the engine buffers, the candidates are
/// filtered: those that pass the test for `byte` stay, and no other comes
/// in.
pub proof fn lemma_candidates_filtered(
    hay: Seq<u8>,
    needle: Seq<u8>,
    byte: u8,
    before: Seq<usize>,
    after: Seq<usize>,
)
    requires
        needle.len() > 0,
        is_candidate_list(hay, needle, before),
        is_candidate_list(hay, needle.push(byte), after),
    ensures
        forall|p: int|
            lists(after, p) <==> lists(before, p) && continues_at(hay, needle.len(), p, byte),
{
    assert forall|p: int|
        lists(after, p) <==> lists(before, p) && continues_at(hay, needle.len(), p, byte) by {
        if lists(after, p) {
            let i = choose|i: int| 0 <= i < after.len() && after[i] == p;
            assert(occurs_at(hay, needle.push(byte), after[i] as int));
            lemma_occurrence_shrinks(hay, needle, byte, p);
        }
        if lists(before, p) && continues_at(hay, needle.len(), p, byte) {
            let i = choose|i: int| 0 <= i < before.len() && before[i] == p;
            assert(occurs_at(hay, needle, before[i] as int));
            lemma_occurrence_extends(hay, needle, byte, p);
        }
    }
}

/// After a run is resolved, the candidates are the positions of the byte
/// that starts the next run.
pub proof fn lemma_candidates_of_byte(hay: Seq<u8>, byte: u8, list: Seq<usize>)
    requires
        is_candidate_list(hay, seq![byte], list),
    ensures
        forall|p: int| lists(list, p) <==> 0 <= p < hay.len() && hay[p] == byte,
{
    let single = seq![byte];
    assert forall|p: int| lists(list, p) <==> 0 <= p < hay.len() && hay[p] == byte by {
        if lists(list, p) {
            let i = choose|i: int| 0 <= i < list.len() && list[i] == p;
            assert(occurs_at(hay, single, list[i] as int));
            assert(hay.subrange(p, p + 1)[0] == single[0]);
        }
        if 0 <= p < hay.len() && hay[p] == byte {
            assert(hay.subrange(p, p + 1) =~= single);
            assert(occurs_at(hay, single, p));
        }
    }
}

/// Two increasing lists with the same entries are the same list.
proof fn lemma_increasing_lists_equal(a: Seq<usize>, b: Seq<usize>)
    requires
        strictly_increasing(a),
        strictly_increasing(b),
        forall|p: int| lists(a, p) <==> lists(b, p),
    ensures
        a == b,
    decreases a.len(),
{
    if a.len() == 0 {
        if b.len() > 0 {
            assert(lists(b, b[0] as int));
        }
        assert(a =~= b);
    } else {
        let last = a[a.len() - 1];
        assert(lists(a, last as int));
        let j = choose|j: int| 0 <= j < b.len() && b[j] == last;
        assert(lists(b, b[b.len() - 1] as int));
        let i = choose|i: int| 0 <= i < a.len() && a[i] == b[b.len() - 1];
        assert(b[b.len() - 1] == last);
        let shorter_a = a.drop_last();
        let shorter_b = b.drop_last();
        assert forall|p: int| lists(shorter_a, p) <==> lists(shorter_b, p) by {
            if lists(shorter_a, p) {
                let k = choose|k: int| 0 <= k < shorter_a.len() && shorter_a[k] == p;
                assert(a[k] == p && a[k] < a[a.len() - 1]);
                assert(lists(a, p));
                let m = choose|m: int| 0 <= m < b.len() && b[m] == p;
                assert(shorter_b[m] == p);
            }
            if lists(shorter_b, p) {
                let k = choose|k: int| 0 <= k < shorter_b.len() && shorter_b[k] == p;
                assert(b[k] == p && b[k] < b[b.len() - 1]);
                assert(lists(b, p));
                let m = choose|m: int| 0 <= m < a.len() && a[m] == p;
                assert(shorter_a[m] == p);
            }
        }
        lemma_increasing_lists_equal(shorter_a, shorter_b);
        assert(a =~= shorter_a.push(last));
        assert(b =~= shorter_b.push(last));
    }
}

/// A haystack and a needle have one candidate list only.
pub proof fn lemma_candidate_list_unique(
    hay: Seq<u8>,
    needle: Seq<u8>,
    a: Seq<usize>,
    b: Seq<usize>,
)
    requires
        is_candidate_list(hay, needle, a),
        is_candidate_list(hay, needle, b),
    ensures
        a == b,
{
    if needle.len() == 0 {
        assert(a =~= b);
    } else {
        assert forall|p: int| lists(a, p) <==> lists(b, p) by {
            if lists(a, p) {
                let i = choose|i: int| 0 <= i < a.len() && a[i] == p;
                assert(occurs_at(hay, needle, a[i] as int));
            }
            if lists(b, p) {
                let i = choose|i: int| 0 <= i < b.len() && b[i] == p;
                assert(occurs_at(hay, needle, b[i] as int));
            }
        }
        lemma_increasing_lists_equal(a, b);
    }
}

/// Appending to a list keeps its entries and adds the new one.
proof fn lemma_lists_push(list: Seq<usize>, x: usize, p: int)
    requires
        lists(list, p) || p == x,
    ensures
        lists(list.push(x), p),
{
    if lists(list, p) {
        let i = choose|i: int| 0 <= i < list.len() && list[i] == p;
        assert(list.push(x)[i] == p);
    } else {
        assert(list.push(x)[list.len() as int] == p);
    }
}

/// The positions among `matches` whose occurrence of the needle is followed
/// by `next_byte`.
fn surviving(
    haystack: &VecDeque<u8>,
    needle: &VecDeque<u8>,
    matches: &Vec<usize>,
    next_byte: u8,
) -> (kept: Vec<usize>)
    requires
        is_candidate_list(haystack@, needle@, matches@),
    ensures
        strictly_increasing(kept@),
        forall|a: int|
            0 <= a < kept.len() ==> occurs_at(
                haystack@,
                needle@.push(next_byte),
                #[trigger] kept[a] as int,
            ),
        forall|q: int|
            needle@.len() > 0 && #[trigger] occurs_at(haystack@, needle@.push(next_byte), q)
                ==> lists(kept@, q),
        needle@.len() == 0 ==> kept.len() == 0,
{
    let ghost hay = haystack@;
    let needle_len = needle.len();
    let ghost longer = needle@.push(next_byte);
    let hay_len = haystack.len();
    let mut kept: Vec<usize> = Vec::new();
    let mut i: usize = 0;
    while i < matches.len()
        invariant
            0 <= i <= matches.len(),
            hay == haystack@,
            hay_len == hay.len(),
            longer == needle@.push(next_byte),
            needle_len == needle@.len(),
            is_candidate_list(hay, needle@, matches@),
            strictly_increasing(kept@),
            kept.len() > 0 ==> i > 0 && kept[kept.len() - 1] <= matches[i - 1],
            forall|a: int| 0 <= a < kept.len() ==> occurs_at(hay, longer, #[trigger] kept[a] as int),
            forall|k: int|
                0 <= k < i && occurs_at(hay, longer, #[trigger] matches[k] as int) ==> lists(
                    kept@,
                    matches[k] as int,
                ),
        decreases matches.len() - i,
    {
        let p = matches[i];
        assert(occurs_at(hay, needle@, matches[i as int] as int));
        if p + needle_len < hay_len && haystack[p + needle_len] == next_byte {
            proof {
                lemma_occurrence_extends(hay, needle@, next_byte, p as int);
                if kept.len() > 0 {
                    assert(matches[i - 1] < matches[i as int]);
                }
            }
            let ghost before = kept@;
            kept.push(p);
            assert forall|k: int|
                0 <= k < i + 1 && occurs_at(hay, longer, #[trigger] matches[k] as int) implies lists(
                kept@,
                matches[k] as int,
            ) by {
                lemma_lists_push(before, p, matches[k] as int);
            }
        } else {
            proof {
                if occurs_at(hay, longer, p as int) {
                    lemma_occurrence_shrinks(hay, needle@, next_byte, p as int);
                }
                if kept.len() > 0 {
                    assert(matches[i - 1] < matches[i as int]);
                }
            }
        }
        i += 1;
    }
    proof {
        assert forall|q: int| needle_len > 0 && #[trigger] occurs_at(hay, longer, q) implies lists(
            kept@,
            q,
        ) by {
            lemma_occurrence_shrinks(hay, needle@, next_byte, q);
            let k = choose|k: int| 0 <= k < matches.len() && matches[k] == q;
            assert(occurs_at(hay, longer, matches[k] as int));
        }
    }
    kept
}

/// Appends `needle` to `haystack` and drops bytes from the front until at
/// most `window_size` are left.
fn commit(haystack: &mut VecDeque<u8>, needle: &VecDeque<u8>, window_size: usize)
    ensures
        final(haystack)@ == trim_to_window(old(haystack)@ + needle@, window_size as nat),
{
    let ghost joined = old(haystack)@ + needle@;
    let mut k: usize = 0;
    while k < needle.len()
        invariant
            0 <= k <= needle.len(),
            joined == old(haystack)@ + needle@,
            haystack@ == old(haystack)@ + needle@.take(k as int),
        decreases needle.len() - k,
    {
        let byte = needle[k];
        haystack.push_back(byte);
        assert(needle@.take(k + 1) =~= needle@.take(k as int).push(byte));
        assert(haystack@ =~= old(haystack)@ + needle@.take(k + 1));
        k += 1;
    }
    assert(needle@.take(needle.len() as int) =~= needle@);
    while haystack.len() > window_size
        invariant
            haystack.len() <= joined.len(),
            joined.len() > window_size ==> haystack.len() >= window_size,
            joined.len() <= window_size ==> haystack.len() == joined.len(),
            haystack@ == joined.subrange(joined.len() - haystack.len(), joined.len() as int),
        decreases haystack.len(),
    {
        haystack.pop_front();
        assert(haystack@ =~= joined.subrange(joined.len() - haystack.len(), joined.len() as int));
    }
    assert(haystack@ =~= trim_to_window(joined, window_size as nat));
}

/// The positions of `byte` in `haystack`, in increasing order.
fn positions_of(haystack: &VecDeque<u8>, byte: u8) -> (found: Vec<usize>)
    ensures
        is_candidate_list(haystack@, seq![byte], found@),
{
    let ghost hay = haystack@;
    let ghost single = seq![byte];
    let mut found: Vec<usize> = Vec::new();
    let mut j: usize = 0;
    while j < haystack.len()
        invariant
            0 <= j <= haystack.len(),
            hay == haystack@,
            single == seq![byte],
            strictly_increasing(found@),
            found.len() > 0 ==> found[found.len() - 1] < j,
            forall|a: int| 0 <= a < found.len() ==> occurs_at(hay, single, #[trigger] found[a] as int),
            forall|q: int| 0 <= q < j && #[trigger] occurs_at(hay, single, q) ==> lists(found@, q),
        decreases haystack.len() - j,
    {
        if haystack[j] == byte {
            assert(hay.subrange(j as int, j + 1) =~= single);
            let ghost before = found@;
            found.push(j);
            assert forall|q: int| 0 <= q < j + 1 && #[trigger] occurs_at(hay, single, q) implies lists(
                found@,
                q,
            ) by {
                lemma_lists_push(before, j, q);
            }
        } else {
            assert(!occurs_at(hay, single, j as int)) by {
                if occurs_at(hay, single, j as int) {
                    assert(hay.subrange(j as int, j + 1)[0] == single[0]);
                }
            }
        }
        j += 1;
    }
    found
}

impl View for WindowSearcher {
    type V = Engine;

    closed spec fn view(&self) -> Engine {
        Engine {
            window_size: self.window_size as nat,
            haystack: self.haystack@,
            needle: self.needle@,
        }
    }
}

impl WindowSearcher {
    /// The haystack positions that the engine currently holds as candidates
    /// for the needle.
    pub closed spec fn candidates(&self) -> Seq<usize> {
        self.matches@
    }

    /// The engine's invariant: its state is one that a fresh engine can
    /// reach, and the candidates are exactly the places where the needle
    /// occurs in the haystack.
    pub open spec fn wf(&self) -> bool {
        &&& self@.wf()
        &&& is_candidate_list(self@.haystack, self@.needle, self.candidates())
    }

    /// An engine with no history, for a window of `window_size` bytes.
    pub fn new(window_size: usize) -> (s: Self)
        requires
            window_size > 0,
        ensures
            s.wf(),
            s@ == Engine::init(window_size as nat),
            s.candidates().len() == 0,
    {
        Self {
            window_size,
            haystack: VecDeque::new(),
            needle: VecDeque::new(),
            matches: Vec::new(),
        }
    }

    /// An engine with no history, for a window of `window_size` bytes, or
    /// the reason why there is no such engine: a window of no bytes is
    /// refused.
    pub fn try_new(window_size: usize) -> (r: Result<Self, ConfigError>)
        ensures
            match r {
                Ok(s) => {
                    &&& window_size > 0
                    &&& s.wf()
                    &&& s@ == Engine::init(window_size as nat)
                    &&& s.candidates().len() == 0
                },
                Err(e) => window_size == 0 && e == ConfigError::ZeroWindowSize,
            },
    {
        if window_size == 0 {
            Err(ConfigError::ZeroWindowSize)
        } else {
            Ok(Self::new(window_size))
        }
    }

    /// Consumes one byte.
    ///
    /// While the bytes buffered since the last run, followed by `next_byte`,
    /// still occur in the window, the byte is buffered. Otherwise the
    /// buffered bytes are handed out as a run, together with the distance
    /// back to their most recent occurrence in the window, and are committed
    /// to the window; `next_byte` starts the next run.
    ///
    /// In terms of the candidates: the byte is buffered exactly if one of
    /// them passes the test for it, and the age of a run is the distance of
    /// the last candidate's occurrence from the end of the haystack.
    /// Afterwards the invariant holds again: the haystack is within the
    /// window, and at each candidate the haystack reads as the needle does.
    pub fn search(&mut self, next_byte: u8) -> (r: SearchState)
        requires
            old(self).wf(),
        ensures
            final(self).wf(),
            final(self)@ == old(self)@.next(next_byte),
            r@ == old(self)@.outcome(next_byte),
            r is Buffering <==> exists|i: int|
                0 <= i < old(self).candidates().len() && continues_at(
                    old(self)@.haystack,
                    old(self)@.needle.len(),
                    #[trigger] old(self).candidates()[i] as int,
                    next_byte,
                ),
            r matches SearchState::Flushed { age, .. } ==> age_view(age) == if old(
                self,
            ).candidates().len() == 0 {
                None
            } else {
                Some(
                    (old(self)@.haystack.len() - old(self).candidates().last() - old(
                        self,
                    )@.needle.len()) as nat,
                )
            },
    {
        let ghost hay = self.haystack@;
        let ghost needle = self.needle@;
        let needle_len = self.needle.len();
        let hay_len = self.haystack.len();
        proof {
            lemma_age_by_candidates(hay, needle, self.matches@);
            lemma_extends_by_candidates(self@, self.matches@, next_byte);
        }
        let age: Option<usize> = if self.matches.len() > 0 {
            let last = self.matches[self.matches.len() - 1];
            Some(hay_len - last - needle_len)
        } else {
            None
        };
        let kept = surviving(&self.haystack, &self.needle, &self.matches, next_byte);
        proof {
            let longer = needle.push(next_byte);
            if kept.len() > 0 {
                assert(occurs_at(hay, longer, kept[0] as int));
            } else if needle.len() > 0 && occurs(hay, longer) {
                let p = choose|p: int| occurs_at(hay, longer, p);
                assert(lists(kept@, p));
            }
            assert(old(self)@.extends(next_byte) <==> kept.len() > 0);
        }
        if kept.len() == 0 {
            commit(&mut self.haystack, &self.needle, self.window_size);
            let mut buffer: VecDeque<u8> = VecDeque::new();
            std::mem::swap(&mut buffer, &mut self.needle);
            self.matches = positions_of(&self.haystack, next_byte);
            self.needle.push_back(next_byte);
            assert(self.needle@ =~= seq![next_byte]);
            SearchState::Flushed { buffer, age }
        } else {
            self.matches = kept;
            self.needle.push_back(next_byte);
            SearchState::Buffering
        }
    }

    /// The capacity of the haystack.
    pub fn window_size(&self) -> (n: usize)
        ensures
            n == self@.window_size,
    {
        self.window_size
    }

    /// The committed history, oldest byte first.
    pub fn haystack(&self) -> (hay: &VecDeque<u8>)
        ensures
            hay@ == self@.haystack,
    {
        &self.haystack
    }

    /// The bytes consumed since the last resolved run.
    pub fn needle(&self) -> (needle: &VecDeque<u8>)
        ensures
            needle@ == self@.needle,
    {
        &self.needle
    }

    /// The haystack positions at which the needle currently occurs, in
    /// increasing order.
    pub fn matches(&self) -> (list: &Vec<usize>)
        ensures
            list@ == self.candidates(),
    {
        &self.matches
    }

    /// Ends the stream: hands out the bytes that are still buffered.
    pub fn flush(self) -> (rest: VecDeque<u8>)
        ensures
            rest@ == self@.needle,
    {
        self.needle
    }
}

} // verus!
