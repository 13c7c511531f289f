//! A byte buffer of fixed capacity that is filled at its end and consumed
//! from its front, and reused across many messages.

use vstd::prelude::*;

verus! {

/// A fixed block of bytes with two cursors. The bytes before `consumed` are
/// done with, the bytes from there up to `filled` are pending, and what lies
/// beyond is free space.
pub struct ByteBuffer {
    data: Vec<u8>,
    start: usize,
    end: usize,
}

impl ByteBuffer {
    /// The cursors lie inside the block and in order.
    pub closed spec fn wf(&self) -> bool {
        self.start <= self.end <= self.data.len()
    }

    /// The number of bytes that the block can hold.
    pub closed spec fn capacity(&self) -> nat {
        self.data.len() as nat
    }

    /// How many bytes were written since the block was last empty.
    pub closed spec fn filled(&self) -> nat {
        self.end as nat
    }

    /// How many of the written bytes are done with.
    pub closed spec fn consumed(&self) -> nat {
        self.start as nat
    }

    /// Every byte written since the block was last empty or compacted.
    pub closed spec fn written(&self) -> Seq<u8> {
        self.data@.take(self.end as int)
    }

    /// The bytes that are written and not yet consumed.
    pub open spec fn pending(&self) -> Seq<u8> {
        self.written().skip(self.consumed() as int)
    }

    /// The cursors are ordered and bounded, and `written` has `filled`
    /// bytes.
    pub proof fn lemma_bounds(&self)
        requires
            self.wf(),
        ensures
            self.consumed() <= self.filled() <= self.capacity(),
            self.written().len() == self.filled(),
            self.pending().len() == self.filled() - self.consumed(),
    {
    }

    /// An empty buffer that can hold `capacity` bytes.
    pub fn new(capacity: usize) -> (b: ByteBuffer)
        ensures
            b.wf(),
            b.capacity() == capacity,
            b.filled() == 0,
            b.consumed() == 0,
            b.written() == Seq::<u8>::empty(),
    {
        let b = ByteBuffer { data: vec![0u8; capacity], start: 0, end: 0 };
        assert(b.written() =~= Seq::<u8>::empty());
        b
    }

    /// The number of bytes written since the buffer was last empty.
    pub fn len(&self) -> (n: usize)
        requires
            self.wf(),
        ensures
            n == self.filled(),
    {
        self.end
    }

    /// The number of written bytes that are done with.
    pub fn sent(&self) -> (n: usize)
        requires
            self.wf(),
        ensures
            n == self.consumed(),
    {
        self.start
    }

    /// The number of bytes that can still be appended.
    pub fn room(&self) -> (n: usize)
        requires
            self.wf(),
        ensures
            n == self.capacity() - self.filled(),
    {
        self.data.len() - self.end
    }

    /// A copy of the pending bytes.
    pub fn pending_bytes(&self) -> (out: Vec<u8>)
        requires
            self.wf(),
        ensures
            out@ == self.pending(),
    {
        let mut out: Vec<u8> = Vec::new();
        let mut i: usize = self.start;
        while i < self.end
            invariant
                self.wf(),
                self.start <= i <= self.end,
                out@ == self.data@.subrange(self.start as int, i as int),
            decreases self.end - i,
        {
            out.push(self.data[i]);
            i = i + 1;
            assert(out@ =~= self.data@.subrange(self.start as int, i as int));
        }
        assert(out@ =~= self.pending());
        out
    }

    /// The whole block as a slice: the written bytes, consumed ones
    /// included, and the free space behind them.
    pub fn as_slice(&self) -> (s: &[u8])
        requires
            self.wf(),
        ensures
            s@.len() == self.capacity(),
            s@.take(self.filled() as int) == self.written(),
    {
        self.data.as_slice()
    }

    /// Appends `src` behind the written bytes.
    pub fn fill(&mut self, src: &[u8])
        requires
            old(self).wf(),
            src.len() <= old(self).capacity() - old(self).filled(),
        ensures
            final(self).wf(),
            final(self).capacity() == old(self).capacity(),
            final(self).consumed() == old(self).consumed(),
            final(self).filled() == old(self).filled() + src.len(),
            final(self).written() == old(self).written() + src@,
    {
        let mut i: usize = 0;
        let base: usize = self.end;
        while i < src.len()
            invariant
                i <= src.len(),
                base == old(self).end,
                base + src.len() <= self.data.len(),
                self.data.len() == old(self).data.len(),
                self.start == old(self).start,
                self.end == old(self).end,
                self.data@.take(base as int) == old(self).data@.take(base as int),
                self.data@.subrange(base as int, base + i) == src@.take(i as int),
            decreases src.len() - i,
        {
            let ghost before = self.data@;
            self.data.set(base + i, src[i]);
            i = i + 1;
            proof {
                assert(self.data@.take(base as int) =~= before.take(base as int));
                assert(self.data@.subrange(base as int, base + i) =~= src@.take(i as int)) by {
                    assert forall|k: int| 0 <= k < i implies self.data@.subrange(
                        base as int,
                        base + i,
                    )[k] == src@.take(i as int)[k] by {
                        if k < i - 1 {
                            assert(before.subrange(base as int, base + i - 1)[k] == src@.take(
                                i - 1,
                            )[k]);
                        }
                    }
                }
            }
        }
        self.end = base + src.len();
        assert(self.written() =~= old(self).written() + src@) by {
            assert(src@.take(src.len() as int) =~= src@);
            assert forall|k: int| 0 <= k < self.end implies self.written()[k] == (old(
                self,
            ).written() + src@)[k] by {
                if k < base {
                    assert(self.data@.take(base as int)[k] == old(self).data@.take(base as int)[k]);
                } else {
                    assert(self.data@.subrange(base as int, base + src.len())[k - base]
                        == src@[k - base]);
                }
            }
        }
    }

    /// Marks the first `n` pending bytes as done with. Once nothing is
    /// pending the buffer is empty again, with both cursors at zero.
    pub fn consume(&mut self, n: usize)
        requires
            old(self).wf(),
            n <= old(self).filled() - old(self).consumed(),
        ensures
            final(self).wf(),
            final(self).capacity() == old(self).capacity(),
            final(self).pending() == old(self).pending().skip(n as int),
            old(self).consumed() + n < old(self).filled() ==> final(self).consumed() == old(
                self,
            ).consumed() + n && final(self).written() == old(self).written(),
            old(self).consumed() + n == old(self).filled() ==> final(self).consumed() == 0
                && final(self).filled() == 0,
    {
        if self.start + n == self.end {
            self.start = 0;
            self.end = 0;
        } else {
            self.start = self.start + n;
        }
        assert(self.pending() =~= old(self).pending().skip(n as int));
    }

    /// Moves the pending bytes to the front of the block, so that all free
    /// space lies behind them.
    pub fn compact(&mut self)
        requires
            old(self).wf(),
        ensures
            final(self).wf(),
            final(self).capacity() == old(self).capacity(),
            final(self).consumed() == 0,
            final(self).written() == old(self).pending(),
    {
        let from: usize = self.start;
        let count: usize = self.end - self.start;
        if from > 0 {
            let mut i: usize = 0;
            while i < count
                invariant
                    i <= count,
                    from == old(self).start,
                    count == old(self).end - old(self).start,
                    old(self).wf(),
                    self.data.len() == old(self).data.len(),
                    forall|k: int| 0 <= k < i ==> self.data@[k] == old(self).data@[from + k],
                    forall|k: int| i <= k < self.data.len() ==> self.data@[k] == old(self).data@[k],
                decreases count - i,
            {
                let b = self.data[from + i];
                self.data.set(i, b);
                i = i + 1;
            }
        }
        self.start = 0;
        self.end = count;
        assert(self.written() =~= old(self).pending());
    }
}

} // verus!
