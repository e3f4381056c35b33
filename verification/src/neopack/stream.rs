//! A buffer for values that arrive in pieces.
//!
//! Bytes are added at the end as they arrive. A reader over the bytes that
//! have not been consumed yet reads as many values as are whole; a read that
//! runs out of bytes is `Pending` and leaves the reader where it was, so
//! that the same read can be made again once more bytes have arrived. What
//! was read is marked as consumed, and is freed on demand.

use vstd::prelude::*;
use vstd::slice::slice_subrange;
use crate::neopack::decoder::Reader;

verus! {

/// A growable queue of bytes with a mark behind what has been consumed.
#[derive(Debug)]
pub struct StreamBuffer {
    pub buf: Vec<u8>,
    pub consumed: usize,
}

impl View for StreamBuffer {
    type V = Seq<u8>;

    /// The bytes that have not been consumed yet.
    open spec fn view(&self) -> Seq<u8> {
        self.buf@.subrange(self.consumed as int, self.buf@.len() as int)
    }
}

impl StreamBuffer {
    /// The mark lies within the buffer.
    pub open spec fn wf(&self) -> bool {
        self.consumed <= self.buf@.len()
    }

    /// An empty buffer.
    pub fn new() -> (s: Self)
        ensures
            s.wf(),
            s@ == Seq::<u8>::empty(),
            s.buf@.len() == 0,
    {
        StreamBuffer { buf: Vec::new(), consumed: 0 }
    }

    /// Adds bytes behind those that are there.
    pub fn extend(&mut self, bytes: &[u8])
        requires
            old(self).wf(),
        ensures
            final(self).wf(),
            final(self)@ == old(self)@ + bytes@,
            final(self).consumed == old(self).consumed,
            final(self).buf@ == old(self).buf@ + bytes@,
    {
        self.buf.extend_from_slice(bytes);
        assert(self@ =~= old(self)@ + bytes@);
    }

    /// Number of bytes held, those that are consumed but not freed yet
    /// included.
    pub fn len(&self) -> (n: usize)
        ensures
            n == self.buf@.len(),
    {
        self.buf.len()
    }

    /// A reader over the bytes that have not been consumed yet.
    pub fn cursor(&self) -> (r: Reader<'_>)
        requires
            self.wf(),
        ensures
            r.wf(),
            r.pos == 0,
            r.buf@ == self@,
    {
        Reader::new(slice_subrange(self.buf.as_slice(), self.consumed, self.buf.len()))
    }

    /// Marks the next `n` bytes as consumed; all of them where there are
    /// fewer.
    pub fn mark_consumed(&mut self, n: usize)
        requires
            old(self).wf(),
        ensures
            final(self).wf(),
            final(self).buf@ == old(self).buf@,
            final(self)@ == old(self)@.subrange(
                if n <= old(self)@.len() {
                    n as int
                } else {
                    old(self)@.len() as int
                },
                old(self)@.len() as int,
            ),
    {
        let left: usize = self.buf.len() - self.consumed;
        if n <= left {
            self.consumed = self.consumed + n;
        } else {
            self.consumed = self.buf.len();
        }
        assert(self@ =~= old(self)@.subrange(
            if n <= old(self)@.len() {
                n as int
            } else {
                old(self)@.len() as int
            },
            old(self)@.len() as int,
        ));
    }

    /// Frees the bytes that have been consumed and says how many they were.
    pub fn compact(&mut self) -> (freed: usize)
        requires
            old(self).wf(),
        ensures
            final(self).wf(),
            final(self)@ == old(self)@,
            final(self).consumed == 0,
            final(self).buf@ == old(self)@,
            freed == old(self).consumed,
    {
        let freed: usize = self.consumed;
        let tail = self.buf.split_off(self.consumed);
        self.buf = tail;
        self.consumed = 0;
        assert(self@ =~= old(self)@);
        freed
    }
}

} // verus!
