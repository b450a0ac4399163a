//! A queue of bytes that is read as one slice.

use vstd::prelude::*;
use vstd::slice::slice_subrange;

verus! {

/// Trusted: `Vec::capacity`. What an allocator reserved is not a function of
/// the contents, so nothing is claimed of the result.
#[verifier::external_body]
fn reserved(buf: &Vec<u8>) -> usize {
    buf.capacity()
}

/// A queue of bytes: written at the back, read as a slice, popped at the
/// front. It counts the bytes that were popped over its lifetime.
pub struct ByteQueue {
    buf: Vec<u8>,
    offset: usize,
    head: i64,
}

impl View for ByteQueue {
    type V = Seq<u8>;

    /// The bytes that were written and not yet popped.
    closed spec fn view(&self) -> Seq<u8> {
        self.buf@.skip(self.offset as int)
    }
}

impl ByteQueue {
    /// What holds of every queue between two calls.
    pub closed spec fn wf(&self) -> bool {
        &&& self.offset <= self.buf@.len()
        &&& 0 <= self.head
    }

    /// The number of bytes popped so far.
    pub closed spec fn consumed(&self) -> int {
        self.head as int
    }

    /// An empty queue that has popped nothing.
    pub fn new() -> (q: ByteQueue)
        ensures
            q.wf(),
            q@ == Seq::<u8>::empty(),
            q.consumed() == 0,
    {
        let q = ByteQueue { buf: Vec::new(), offset: 0, head: 0 };
        assert(q@ =~= Seq::<u8>::empty());
        q
    }

    /// Moves the unread bytes to the start of the buffer, which then holds no other.
    fn compact(&mut self)
        requires
            old(self).wf(),
        ensures
            final(self).wf(),
            final(self)@ == old(self)@,
            final(self).consumed() == old(self).consumed(),
            final(self).offset == 0,
            final(self).buf@ == old(self)@,
    {
        let offset = self.offset;
        if offset == 0 {
            return ;
        }
        let available = self.buf.len() - offset;
        let ghost before = self.buf@;
        let mut i: usize = 0;
        while i < available
            invariant
                0 < offset,
                offset == self.offset,
                self.head == old(self).head,
                self.buf@.len() == before.len(),
                before.len() <= usize::MAX,
                offset + available == before.len(),
                i <= available,
                forall|k: int| 0 <= k < i ==> self.buf@[k] == before[offset + k],
                forall|k: int| i <= k < before.len() ==> self.buf@[k] == before[k],
            decreases available - i,
        {
            let b = self.buf[offset + i];
            self.buf.set(i, b);
            i += 1;
        }
        self.buf.truncate(available);
        self.offset = 0;
        assert(self.buf@ =~= old(self)@);
        assert(self@ =~= old(self)@);
    }

    /// Appends `data`. Where the buffer would have to grow and the bytes
    /// already popped take up at least as much room as `data`, the unread
    /// bytes are first moved to the start of the buffer.
    pub fn write(&mut self, data: &[u8])
        requires
            old(self).wf(),
            old(self)@.len() + data@.len() <= usize::MAX,
        ensures
            final(self).wf(),
            final(self)@ == old(self)@ + data@,
            final(self).consumed() == old(self).consumed(),
    {
        let fits = data.len() <= usize::MAX - self.buf.len();
        let crowded = !fits || self.buf.len() + data.len() > reserved(&self.buf);
        if !fits || (crowded && self.offset >= data.len()) {
            self.compact();
        }
        // With the room of the popped bytes given up where it was needed,
        // the buffer can take `data`.
        assert(self.buf@.len() + data@.len() <= usize::MAX);
        self.buf.extend_from_slice(data);
        assert(self@ =~= old(self)@ + data@);
    }

    /// The unread bytes.
    pub fn as_slice(&self) -> (s: &[u8])
        requires
            self.wf(),
        ensures
            s@ == self@,
    {
        let s = slice_subrange(self.buf.as_slice(), self.offset, self.buf.len());
        assert(s@ =~= self@);
        s
    }

    /// The number of unread bytes.
    pub fn len(&self) -> (n: usize)
        requires
            self.wf(),
        ensures
            n == self@.len(),
    {
        self.buf.len() - self.offset
    }

    /// Drops the first `n` unread bytes.
    pub fn pop(&mut self, n: usize)
        requires
            old(self).wf(),
            n <= old(self)@.len(),
            old(self).consumed() + n <= i64::MAX,
        ensures
            final(self).wf(),
            final(self)@ == old(self)@.skip(n as int),
            final(self).consumed() == old(self).consumed() + n,
    {
        let held = self.buf.len();
        assert(self.offset + n <= held);
        self.offset += n;
        self.head += n as i64;
        assert(self@ =~= old(self)@.skip(n as int));
    }

    /// Drops all unread bytes.
    pub fn pop_all(&mut self)
        requires
            old(self).wf(),
            old(self).consumed() + old(self)@.len() <= i64::MAX,
        ensures
            final(self).wf(),
            final(self)@ == Seq::<u8>::empty(),
            final(self).consumed() == old(self).consumed() + old(self)@.len(),
    {
        let n = self.buf.len() - self.offset;
        self.head += n as i64;
        self.buf.clear();
        self.offset = 0;
        assert(self@ =~= Seq::<u8>::empty());
    }

    /// The number of bytes popped so far.
    pub fn head(&self) -> (n: i64)
        requires
            self.wf(),
        ensures
            n == self.consumed(),
    {
        self.head
    }
}

} // verus!
