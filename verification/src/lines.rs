//! Cutting a run into line fragments.
//!
//! Some terminals reset the colour at the start of each line, so a run is
//! written fragment by fragment, each one after its own colour selection.
//! A fragment ends with the line feed that closes it, or at the end of the
//! run.

use std::collections::VecDeque;
use vstd::prelude::*;

verus! {

/// The byte that ends a line.
pub const LINE_FEED: u8 = 0x0a;

/// `part` is not empty and holds no line feed before its last byte.
pub open spec fn is_line_fragment(part: Seq<u8>) -> bool {
    &&& part.len() > 0
    &&& forall|k: int| 0 <= k < part.len() - 1 ==> part[k] != LINE_FEED
}

/// `parts` cuts `bytes` after each line feed and nowhere else.
pub open spec fn is_line_split(bytes: Seq<u8>, parts: Seq<Seq<u8>>) -> bool {
    &&& parts.flatten() == bytes
    &&& forall|i: int| 0 <= i < parts.len() ==> is_line_fragment(#[trigger] parts[i])
    &&& forall|i: int| 0 <= i < parts.len() - 1 ==> (#[trigger] parts[i]).last() == LINE_FEED
}

/// The contents of a list of byte vectors.
pub open spec fn contents(parts: Seq<Vec<u8>>) -> Seq<Seq<u8>> {
    parts.map_values(|part: Vec<u8>| part@)
}

/// Cuts `bytes` into its line fragments.
pub fn split_lines(bytes: &VecDeque<u8>) -> (parts: Vec<Vec<u8>>)
    ensures
        is_line_split(bytes@, contents(parts@)),
{
    let mut parts: Vec<Vec<u8>> = Vec::new();
    let mut current: Vec<u8> = Vec::new();
    let mut i: usize = 0;
    assert(contents(parts@) =~= Seq::<Seq<u8>>::empty());
    assert(contents(parts@).flatten() + current@ =~= bytes@.take(0));
    while i < bytes.len()
        invariant
            0 <= i <= bytes.len(),
            contents(parts@).flatten() + current@ == bytes@.take(i as int),
            forall|k: int| 0 <= k < current.len() ==> current[k] != LINE_FEED,
            forall|j: int|
                0 <= j < parts.len() ==> is_line_fragment(#[trigger] contents(parts@)[j]),
            forall|j: int|
                0 <= j < parts.len() ==> (#[trigger] contents(parts@)[j]).last() == LINE_FEED,
        decreases bytes.len() - i,
    {
        let byte = bytes[i];
        let ghost before = current@;
        current.push(byte);
        assert(bytes@.take(i + 1) =~= bytes@.take(i as int).push(byte));
        assert(contents(parts@).flatten() + current@ =~= (contents(parts@).flatten() + before).push(
            byte,
        ));
        if byte == LINE_FEED {
            let ghost done = contents(parts@);
            let ghost line = current@;
            parts.push(current);
            current = Vec::new();
            proof {
                assert(contents(parts@) =~= done.push(line));
                done.lemma_flatten_push(line);
                assert(contents(parts@).flatten() + current@ =~= done.flatten() + line);
            }
        }
        i += 1;
    }
    assert(bytes@.take(bytes.len() as int) =~= bytes@);
    if current.len() > 0 {
        let ghost done = contents(parts@);
        let ghost line = current@;
        parts.push(current);
        proof {
            assert(contents(parts@) =~= done.push(line));
            done.lemma_flatten_push(line);
        }
    } else {
        assert(contents(parts@).flatten() + current@ =~= contents(parts@).flatten());
    }
    parts
}

/// The first fragment of a line split is a start of the bytes, and the
/// other fragments split what follows it.
proof fn lemma_line_split_unfold(bytes: Seq<u8>, parts: Seq<Seq<u8>>)
    requires
        is_line_split(bytes, parts),
        parts.len() > 0,
    ensures
        parts[0].len() <= bytes.len(),
        bytes.take(parts[0].len() as int) == parts[0],
        is_line_split(bytes.skip(parts[0].len() as int), parts.drop_first()),
        parts.len() == 1 ==> parts[0] == bytes,
{
    let first = parts[0];
    let rest = parts.drop_first();
    assert(parts.flatten() == first + rest.flatten());
    assert(bytes.take(first.len() as int) =~= first);
    assert(bytes.skip(first.len() as int) =~= rest.flatten());
    assert forall|i: int| 0 <= i < rest.len() implies is_line_fragment(#[trigger] rest[i]) by {
        assert(rest[i] == parts[i + 1]);
    }
    assert forall|i: int| 0 <= i < rest.len() - 1 implies (#[trigger] rest[i]).last()
        == LINE_FEED by {
        assert(rest[i] == parts[i + 1]);
    }
    if parts.len() == 1 {
        assert(rest.flatten() =~= Seq::<u8>::empty());
        assert(first =~= bytes);
    }
}

/// Of two line splits of the same bytes, the first fragment of the one is
/// no longer than that of the other.
proof fn lemma_first_fragment_not_longer(bytes: Seq<u8>, a: Seq<Seq<u8>>, b: Seq<Seq<u8>>)
    requires
        is_line_split(bytes, a),
        is_line_split(bytes, b),
        a.len() > 0,
        b.len() > 0,
    ensures
        a[0].len() <= b[0].len(),
{
    lemma_line_split_unfold(bytes, a);
    lemma_line_split_unfold(bytes, b);
    if a[0].len() > b[0].len() {
        // The first fragment of `b` ends inside the first fragment of `a`,
        // so it is not the last one, and ends with a line feed.
        let end = b[0].len() - 1;
        assert(b.len() > 1);
        assert(b[0].last() == LINE_FEED);
        assert(bytes.take(b[0].len() as int)[end] == bytes[end]);
        assert(bytes.take(a[0].len() as int)[end] == bytes[end]);
        assert(a[0][end] == LINE_FEED);
    }
}

/// Bytes have one line split only.
pub proof fn lemma_line_split_unique(bytes: Seq<u8>, a: Seq<Seq<u8>>, b: Seq<Seq<u8>>)
    requires
        is_line_split(bytes, a),
        is_line_split(bytes, b),
    ensures
        a == b,
    decreases a.len(),
{
    if a.len() == 0 || b.len() == 0 {
        if a.len() > 0 {
            lemma_line_split_unfold(bytes, a);
        }
        if b.len() > 0 {
            lemma_line_split_unfold(bytes, b);
        }
        assert(a.flatten() =~= Seq::<u8>::empty()) by {
            if a.len() == 0 {
            } else {
                assert(b.flatten() =~= Seq::<u8>::empty());
            }
        }
        assert(a =~= b);
    } else {
        lemma_first_fragment_not_longer(bytes, a, b);
        lemma_first_fragment_not_longer(bytes, b, a);
        lemma_line_split_unfold(bytes, a);
        lemma_line_split_unfold(bytes, b);
        assert(a[0] == b[0]);
        lemma_line_split_unique(bytes.skip(a[0].len() as int), a.drop_first(), b.drop_first());
        assert(a =~= seq![a[0]] + a.drop_first());
        assert(b =~= seq![b[0]] + b.drop_first());
    }
}

} // verus!
