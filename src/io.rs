//! A buffered reader whose buffer is a fixed-capacity `ArrayDeque`.
//!
//! The reader never reads from its source itself. To fill it, the caller
//! either reads straight into the free room that `fill_regions` lends out
//! (one vectored read into two runs) and reports the count to
//! `commit_fill`, or hands bytes it already holds to `try_fill_buf`. Bytes
//! come out through `peek`/`consume` or `read_buffered`.

use vstd::prelude::*;
use crate::deque::{ArrayDeque, fill_count, start_after_drain};

verus! {

/// A reader over a source `R`, buffered by an `ArrayDeque`.
pub struct BufReader<R> {
    inner: R,
    buf: ArrayDeque,
}

impl<R> BufReader<R> {
    /// The wrapped source.
    pub closed spec fn source(&self) -> R {
        self.inner
    }

    /// The internal queue.
    pub closed spec fn deque(&self) -> ArrayDeque {
        self.buf
    }

    /// The internal queue is well formed.
    pub open spec fn wf(&self) -> bool {
        self.deque().wf()
    }

    /// The bytes buffered and not yet consumed, oldest first.
    pub open spec fn buffered(&self) -> Seq<u8> {
        self.deque()@
    }

    /// Where in the buffer's storage the front byte lives.
    pub open spec fn start(&self) -> nat {
        self.deque().start()
    }

    /// How many buffered bytes lie in one contiguous run from the front.
    pub open spec fn front_len(&self) -> nat {
        self.deque().front_len()
    }

    /// The buffer's free room, in the order in which it fills.
    pub open spec fn spare(&self) -> Seq<u8> {
        self.deque().spare()
    }

    /// The buffer's capacity.
    pub open spec fn cap(&self) -> nat {
        self.deque().cap()
    }

    /// Wraps `inner` with an empty buffer of `capacity` bytes.
    pub fn new(inner: R, capacity: usize) -> (r: Self)
        ensures
            r.wf(),
            r.source() == inner,
            r.buffered() == Seq::<u8>::empty(),
            r.cap() == capacity,
            r.start() == 0,
    {
        BufReader { inner, buf: ArrayDeque::new(capacity) }
    }

    /// Gets a reference to the underlying source.
    pub fn get_ref(&self) -> (r: &R)
        ensures
            *r == self.source(),
    {
        &self.inner
    }

    /// Gets a mutable reference to the underlying source.
    pub fn get_mut(&mut self) -> (r: &mut R)
        ensures
            *r == old(self).source(),
            final(self).source() == *final(r),
            final(self).deque() == old(self).deque(),
    {
        &mut self.inner
    }

    /// Unwraps the reader, returning the underlying source; buffered bytes
    /// are dropped.
    pub fn into_inner(self) -> (r: R)
        ensures
            r == self.source(),
    {
        self.inner
    }

    /// Returns a reference to the internal queue.
    pub fn buffer(&self) -> (r: &ArrayDeque)
        ensures
            *r == self.deque(),
    {
        &self.buf
    }

    /// How many bytes the next fill can take: the free room in the buffer.
    /// Zero means the buffer is full and no read of the source is due.
    pub fn fill_request(&self) -> (r: usize)
        requires
            self.wf(),
        ensures
            r == self.cap() - self.buffered().len(),
            r == 0 <==> self.buffered().len() == self.cap(),
    {
        self.buf.capacity() - self.buf.len()
    }

    /// The source and the buffer's free room, the latter as two writable
    /// runs in the order in which bytes read into them will be queued; both
    /// are empty when the buffer is full. Handing both runs to one vectored
    /// read of the source, then `commit_fill` with the count it reported,
    /// fills the buffer without copying.
    pub fn fill_regions(&mut self) -> (r: (&mut R, &mut [u8], &mut [u8]))
        requires
            old(self).wf(),
        ensures
            *r.0 == old(self).source(),
            r.1@ + r.2@ == old(self).spare(),
            r.1@.len() + r.2@.len() == old(self).cap() - old(self).buffered().len(),
            r.1@.len() == if old(self).start() + old(self).buffered().len() < old(self).cap() {
                old(self).cap() - (old(self).start() + old(self).buffered().len())
            } else {
                0
            },
            final(r.1)@.len() == r.1@.len() && final(r.2)@.len() == r.2@.len() ==> {
                &&& final(self).wf()
                &&& final(self).source() == *final(r.0)
                &&& final(self).buffered() == old(self).buffered()
                &&& final(self).cap() == old(self).cap()
                &&& final(self).start() == old(self).start()
                &&& final(self).spare() == final(r.1)@ + final(r.2)@
            },
    {
        let (a, b) = self.buf.spare_slices_mut();
        (&mut self.inner, a, b)
    }

    /// Queues the first `n` bytes of the free room, which a read through
    /// `fill_regions` has just written, and returns `n`.
    pub fn commit_fill(&mut self, n: usize) -> (r: usize)
        requires
            old(self).wf(),
            n <= old(self).cap() - old(self).buffered().len(),
        ensures
            r == n,
            final(self).wf(),
            final(self).cap() == old(self).cap(),
            final(self).source() == old(self).source(),
            final(self).start() == old(self).start(),
            final(self).buffered().len() == old(self).buffered().len() + n,
            final(self).buffered() == old(self).buffered() + old(self).spare().take(n as int),
    {
        self.buf.commit_spare(n);
        n
    }

    /// Takes bytes that the source delivered into the free room of the
    /// buffer, in order, and returns how many it took: all of them when they
    /// fit, else as many as fit. A full buffer takes none and stays as it is.
    pub fn try_fill_buf(&mut self, received: &[u8]) -> (n: usize)
        requires
            old(self).wf(),
        ensures
            final(self).wf(),
            final(self).cap() == old(self).cap(),
            final(self).source() == old(self).source(),
            final(self).start() == old(self).start(),
            n == fill_count(old(self).buffered().len(), old(self).cap(), received@.len()),
            final(self).buffered() == old(self).buffered() + received@.take(n as int),
    {
        self.buf.push_back_slice(received)
    }

    /// The buffered bytes that lie in one contiguous run from the front;
    /// not empty unless the buffer is.
    pub fn peek(&self) -> (r: &[u8])
        requires
            self.wf(),
        ensures
            r@ == self.buffered().take(self.front_len() as int),
            r@.len() == self.front_len(),
            self.front_len() <= self.buffered().len(),
            self.buffered().len() > 0 ==> r@.len() > 0,
    {
        let (front, _) = self.buf.as_slices();
        front
    }

    /// Marks the first `amt` buffered bytes as used, dropping them.
    pub fn consume(&mut self, amt: usize)
        requires
            old(self).wf(),
            amt <= old(self).buffered().len(),
        ensures
            final(self).wf(),
            final(self).cap() == old(self).cap(),
            final(self).source() == old(self).source(),
            final(self).buffered() == old(self).buffered().skip(amt as int),
            final(self).start() == start_after_drain(
                old(self).start(),
                amt as nat,
                old(self).buffered().len(),
                old(self).cap(),
            ),
    {
        self.buf.drain_front(amt);
    }

    /// Copies as many bytes of the front run (see `peek`) as fit into `dst`,
    /// consumes them, and returns how many were copied. The rest of `dst`
    /// keeps its contents.
    pub fn read_buffered(&mut self, dst: &mut [u8]) -> (n: usize)
        requires
            old(self).wf(),
        ensures
            final(self).wf(),
            final(self).cap() == old(self).cap(),
            final(self).source() == old(self).source(),
            n == if old(dst)@.len() < old(self).front_len() {
                old(dst)@.len() as nat
            } else {
                old(self).front_len()
            },
            final(dst)@ == old(self).buffered().take(n as int) + old(dst)@.skip(n as int),
            final(self).buffered() == old(self).buffered().skip(n as int),
            old(self).front_len() <= old(self).buffered().len(),
            final(self).start() == start_after_drain(
                old(self).start(),
                n as nat,
                old(self).buffered().len(),
                old(self).cap(),
            ),
    {
        let (front, _) = self.buf.as_slices();
        let n: usize = if dst.len() < front.len() { dst.len() } else { front.len() };
        let mut i: usize = 0;
        while i < n
            invariant
                n <= front@.len(),
                n <= dst@.len(),
                dst@.len() == old(dst)@.len(),
                forall|k: int| 0 <= k < i ==> #[trigger] dst@[k] == front@[k],
                forall|k: int| n <= k < dst@.len() ==> #[trigger] dst@[k] == old(dst)@[k],
            decreases n - i,
        {
            dst[i] = front[i];
            i = i + 1;
        }
        proof {
            assert(dst@ =~= old(self).buffered().take(n as int) + old(dst)@.skip(n as int));
        }
        self.buf.drain_front(n);
        n
    }

    /// Returns a mutable reference to the internal queue.
    pub fn buffer_mut(&mut self) -> (r: &mut ArrayDeque)
        ensures
            *r == old(self).deque(),
            final(self).deque() == *final(r),
            final(self).source() == old(self).source(),
    {
        &mut self.buf
    }
}

} // verus!
