//! A first-in, first-out queue of bytes.
//!
//! The filter that removes escape sequences is fed bytes and hands its
//! output to a writer; the match engine takes bytes one at a time. The queue
//! stands between the two: the filter's output is written to its back, and
//! the engine reads from its front.

use std::collections::VecDeque;
use vstd::prelude::*;

verus! {

/// How many bytes are taken from the input at a time to refill the queue.
pub const INPUT_CHUNK: usize = 64;

/// A queue of bytes, oldest first.
pub struct ByteQueue {
    bytes: VecDeque<u8>,
}

impl View for ByteQueue {
    type V = Seq<u8>;

    closed spec fn view(&self) -> Seq<u8> {
        self.bytes@
    }
}

/// The smaller of two lengths.
pub open spec fn shorter(a: int, b: int) -> int {
    if a <= b {
        a
    } else {
        b
    }
}

impl ByteQueue {
    /// The number of bytes that wait in the queue.
    pub fn len(&self) -> (n: usize)
        ensures
            n == self@.len(),
    {
        self.bytes.len()
    }

    /// Appends all of `buf` to the back of the queue and returns how many
    /// bytes that were.
    pub fn write(&mut self, buf: &[u8]) -> (n: usize)
        ensures
            final(self)@ == old(self)@ + buf@,
            n == buf.len(),
    {
        let mut i: usize = 0;
        while i < buf.len()
            invariant
                0 <= i <= buf.len(),
                self@ == old(self)@ + buf@.take(i as int),
            decreases buf.len() - i,
        {
            let byte = buf[i];
            self.bytes.push_back(byte);
            assert(buf@.take(i + 1) =~= buf@.take(i as int).push(byte));
            assert(self@ =~= old(self)@ + buf@.take(i + 1));
            i += 1;
        }
        assert(buf@.take(buf.len() as int) =~= buf@);
        buf.len()
    }

    /// Takes up to `max` bytes from the front of the queue, oldest first.
    /// The result is empty only if `max` is zero or the queue is empty.
    pub fn read(&mut self, max: usize) -> (out: Vec<u8>)
        ensures
            out@ == old(self)@.take(shorter(max as int, old(self)@.len() as int)),
            final(self)@ == old(self)@.skip(shorter(max as int, old(self)@.len() as int)),
    {
        let mut out: Vec<u8> = Vec::new();
        while out.len() < max && self.bytes.len() > 0
            invariant
                out.len() <= max,
                out.len() <= old(self)@.len(),
                out@ == old(self)@.take(out.len() as int),
                self@ == old(self)@.skip(out.len() as int),
            decreases self@.len(),
        {
            let front = self.bytes.pop_front();
            match front {
                Some(byte) => {
                    out.push(byte);
                    assert(out@ =~= old(self)@.take(out.len() as int));
                    assert(self@ =~= old(self)@.skip(out.len() as int));
                },
                None => {},
            }
        }
        out
    }
}

/// An empty queue, to be shared by the side that writes to it and the side
/// that reads from it.
pub fn make_read_writer() -> (queue: ByteQueue)
    ensures
        queue@ == Seq::<u8>::empty(),
{
    ByteQueue { bytes: VecDeque::new() }
}

} // verus!
