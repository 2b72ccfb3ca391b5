//! A fixed-capacity circular byte queue.

use vstd::prelude::*;

verus! {

/// Splits a prefix of `pos` bytes off a view made of two regions of lengths
/// `len1` and `len2`; returns how much of each region that prefix covers.
/// What is left of the two regions after those offsets is, in order, the
/// part of the view past the prefix. With the whole storage seen from the
/// front (the run to its end, then the run from its start) and `pos` the
/// number of queued bytes, what is left is the free room: in the first run
/// only, in both, or in the second run only.
pub fn free_offsets(pos: usize, len1: usize, len2: usize) -> (r: (usize, usize))
    ensures
        r.0 <= len1,
        r.1 <= len2,
        r.0 + r.1 == if pos <= len1 + len2 { pos as int } else { len1 + len2 },
        r.1 > 0 ==> r.0 == len1,
{
    if pos < len1 {
        (pos, 0)
    } else if pos - len1 < len2 {
        (len1, pos - len1)
    } else {
        (len1, len2)
    }
}

/// How many bytes a fill takes: all that are offered, up to the free room.
pub open spec fn fill_count(len: nat, cap: nat, offered: nat) -> nat {
    if len + offered <= cap {
        offered
    } else if len <= cap {
        (cap - len) as nat
    } else {
        0
    }
}

/// A storage position `by` places on from `pos`, wrapping at `cap`.
pub open spec fn advanced(pos: nat, by: nat, cap: nat) -> nat {
    if pos + by < cap {
        pos + by
    } else {
        (pos + by - cap) as nat
    }
}

/// Where the front lies after `n` of `len` queued bytes are dropped: back at
/// the storage's start when none remain, else `n` places on.
pub open spec fn start_after_drain(pos: nat, n: nat, len: nat, cap: nat) -> nat {
    if n == len {
        0
    } else {
        advanced(pos, n, cap)
    }
}

/// A queue of bytes with a capacity fixed at construction. Its contents
/// start at `head` in the backing storage and may wrap past its end.
pub struct ArrayDeque {
    data: Vec<u8>,
    head: usize,
    len: usize,
}

impl View for ArrayDeque {
    type V = Seq<u8>;

    /// The queued bytes, oldest first.
    closed spec fn view(&self) -> Seq<u8> {
        Seq::new(self.len as nat, |i: int| self.data@[self.slot(i)])
    }
}

impl ArrayDeque {
    /// Where in the backing storage the `i`-th byte from the front lives.
    spec fn slot(&self, i: int) -> int {
        if self.head + i < self.data@.len() {
            self.head + i
        } else {
            self.head + i - self.data@.len()
        }
    }

    proof fn lemma_slot_distinct(&self, a: int, b: int)
        requires
            self.wf(),
            0 <= a < b < self.data@.len(),
        ensures
            self.slot(a) != self.slot(b),
            0 <= self.slot(a) < self.data@.len(),
            0 <= self.slot(b) < self.data@.len(),
    {
    }

    /// The storage is as long as the capacity, holds the contents, and the
    /// front lies inside it.
    pub closed spec fn wf(&self) -> bool {
        &&& self.len <= self.data@.len()
        &&& (self.head < self.data@.len() || (self.head == 0 && self.data@.len() == 0))
    }

    /// The number of bytes the queue can hold.
    pub closed spec fn cap(&self) -> nat {
        self.data@.len()
    }

    /// Where in the backing storage the front byte lives.
    pub closed spec fn start(&self) -> nat {
        self.head as nat
    }

    /// How many of the queued bytes lie before the end of the backing
    /// storage, that is, in one contiguous run from the front.
    pub open spec fn front_len(&self) -> nat {
        if self@.len() + self.start() <= self.cap() {
            self@.len()
        } else {
            (self.cap() - self.start()) as nat
        }
    }

    /// An empty queue that holds up to `capacity` bytes.
    pub fn new(capacity: usize) -> (r: Self)
        ensures
            r.wf(),
            r@ == Seq::<u8>::empty(),
            r.cap() == capacity,
            r.start() == 0,
    {
        ArrayDeque { data: vec![0u8; capacity], head: 0, len: 0 }
    }

    /// The number of queued bytes.
    pub fn len(&self) -> (r: usize)
        requires
            self.wf(),
        ensures
            r == self@.len(),
            r <= self.cap(),
    {
        self.len
    }

    /// The number of bytes the queue can hold.
    pub fn capacity(&self) -> (r: usize)
        ensures
            r == self.cap(),
    {
        self.data.len()
    }

    /// Whether no byte is queued.
    pub fn is_empty(&self) -> (r: bool)
        requires
            self.wf(),
        ensures
            r == (self@.len() == 0),
    {
        self.len == 0
    }

    /// Whether the queue holds as many bytes as it can; a queue of
    /// capacity zero is always full.
    pub fn is_full(&self) -> (r: bool)
        requires
            self.wf(),
        ensures
            r == (self@.len() == self.cap()),
    {
        self.len == self.data.len()
    }

    /// The queued bytes as two contiguous runs: the first up to the end of
    /// the backing storage, the second (empty unless the contents wrap)
    /// from its start.
    pub fn as_slices(&self) -> (r: (&[u8], &[u8]))
        requires
            self.wf(),
        ensures
            r.0@ == self@.take(self.front_len() as int),
            r.1@ == self@.skip(self.front_len() as int),
            self.front_len() <= self@.len(),
            self@.len() > 0 ==> self.front_len() > 0,
    {
        let cap = self.data.len();
        let (low, high) = self.data.as_slice().split_at(self.head);
        if self.len <= cap - self.head {
            let (front, _) = high.split_at(self.len);
            let (none, _) = low.split_at(0);
            proof {
                assert(front@ =~= self@.take(self.front_len() as int));
                assert(none@ =~= self@.skip(self.front_len() as int));
            }
            (front, none)
        } else {
            let (back, _) = low.split_at(self.len - (cap - self.head));
            proof {
                assert(high@ =~= self@.take(self.front_len() as int));
                assert(back@ =~= self@.skip(self.front_len() as int));
            }
            (high, back)
        }
    }

    /// Appends as many bytes of `bytes` as there is room for, in order, and
    /// returns how many were taken. The free space may wrap: the bytes go
    /// first to the storage between the contents' end and the storage's
    /// end, then on from the storage's start.
    pub fn push_back_slice(&mut self, bytes: &[u8]) -> (n: usize)
        requires
            old(self).wf(),
        ensures
            final(self).wf(),
            final(self).cap() == old(self).cap(),
            final(self).start() == old(self).start(),
            n == fill_count(old(self)@.len(), old(self).cap(), bytes@.len()),
            final(self)@ == old(self)@ + bytes@.take(n as int),
    {
        let cap = self.data.len();
        let (adv1, adv2) = free_offsets(self.len, cap - self.head, self.head);
        let room = cap - self.len;
        let n: usize = if bytes.len() < room { bytes.len() } else { room };
        let first: usize = if n < cap - self.head - adv1 { n } else { cap - self.head - adv1 };
        let ghost before = self@;
        let mut j: usize = 0;
        while j < n
            invariant
                self.wf(),
                self.data@.len() == cap,
                self.head == old(self).head,
                self.len == old(self).len,
                before.len() == self.len,
                room == cap - self.len,
                n <= room,
                n <= bytes@.len(),
                first <= n,
                adv1 + adv2 == self.len,
                adv1 <= cap - self.head,
                adv2 <= self.head,
                adv2 > 0 ==> adv1 == cap - self.head,
                first < n ==> first == cap - self.head - adv1,
                first <= cap - self.head - adv1,
                forall|i: int| 0 <= i < self.len ==> #[trigger] self.data@[self.slot(i)] == before[i],
                forall|i: int|
                    0 <= i < j ==> #[trigger] self.data@[self.slot(self.len + i)] == bytes@[i],
            decreases n - j,
        {
            let pos: usize = if j < first { self.head + adv1 + j } else { adv2 + (j - first) };
            assert(pos == self.slot(self.len + j));
            let ghost prev = *self;
            self.data[pos] = bytes[j];
            proof {
                assert forall|i: int| 0 <= i < self.len implies #[trigger] self.data@[self.slot(i)]
                    == before[i] by {
                    self.lemma_slot_distinct(i, self.len + j);
                    assert(prev.data@[prev.slot(i)] == before[i]);
                    assert(self.slot(i) == prev.slot(i));
                }
                assert forall|i: int| 0 <= i < j + 1 implies #[trigger] self.data@[self.slot(
                    self.len + i,
                )] == bytes@[i] by {
                    if i < j {
                        self.lemma_slot_distinct(self.len + i, self.len + j);
                        assert(prev.data@[prev.slot(self.len + i)] == bytes@[i]);
                        assert(self.slot(self.len + i) == prev.slot(self.len + i));
                    }
                }
            }
            j = j + 1;
        }
        let ghost len0 = self.len as int;
        let ghost mid = *self;
        assert(self@.len() == self.len);
        assert(self.data@.len() == self.data.len());
        self.len = self.len + n;
        proof {
            let want = before + bytes@.take(n as int);
            assert forall|k: int| 0 <= k < len0 + n implies #[trigger] self@[k] == want[k] by {
                assert(self.slot(k) == mid.slot(k));
                if k < len0 {
                    assert(mid.data@[mid.slot(k)] == before[k]);
                } else {
                    assert(mid.data@[mid.slot(len0 + (k - len0))] == bytes@[k - len0]);
                }
            }
            assert(self@ =~= want);
        }
        n
    }

    /// The storage not holding queued bytes, in the order in which bytes
    /// appended next would occupy it.
    pub closed spec fn spare(&self) -> Seq<u8> {
        Seq::new((self.data@.len() - self.len) as nat, |i: int| self.data@[self.slot(self.len + i)])
    }

    /// The free storage as two writable runs: first the part after the
    /// queued bytes up to the storage's end, then the part from the storage's
    /// start. Writing into them changes only what `spare` holds (a borrowed
    /// slice cannot change its length, which the last clause takes as given).
    pub fn spare_slices_mut(&mut self) -> (r: (&mut [u8], &mut [u8]))
        requires
            old(self).wf(),
        ensures
            r.0@ + r.1@ == old(self).spare(),
            old(self).spare().len() == old(self).cap() - old(self)@.len(),
            r.0@.len() == if old(self).start() + old(self)@.len() < old(self).cap() {
                old(self).cap() - (old(self).start() + old(self)@.len())
            } else {
                0
            },
            final(r.0)@.len() == r.0@.len() && final(r.1)@.len() == r.1@.len() ==> {
                &&& final(self).wf()
                &&& final(self)@ == old(self)@
                &&& final(self).cap() == old(self).cap()
                &&& final(self).start() == old(self).start()
                &&& final(self).spare() == final(r.0)@ + final(r.1)@
            },
    {
        let cap = self.data.len();
        let len = self.len;
        let head = self.head;
        let (adv1, adv2) = free_offsets(len, cap - head, head);
        let (low, high) = self.data.as_mut_slice().split_at_mut(head);
        let (_, free_high) = high.split_at_mut(adv1);
        let (_, free_low) = low.split_at_mut(adv2);
        (free_high, free_low)
    }

    /// Counts the first `n` bytes of the free storage as queued: they become
    /// the newest bytes, in the order `spare` gives them.
    pub fn commit_spare(&mut self, n: usize)
        requires
            old(self).wf(),
            n <= old(self).cap() - old(self)@.len(),
        ensures
            final(self).wf(),
            final(self).cap() == old(self).cap(),
            final(self).start() == old(self).start(),
            final(self)@.len() == old(self)@.len() + n,
            final(self)@ == old(self)@ + old(self).spare().take(n as int),
    {
        assert(self@.len() == self.len);
        assert(self.data@.len() == self.data.len());
        self.len = self.len + n;
        proof {
            let want = old(self)@ + old(self).spare().take(n as int);
            assert forall|k: int| 0 <= k < self.len implies #[trigger] self@[k] == want[k] by {
                assert(self.slot(k) == old(self).slot(k));
                if k >= old(self).len {
                    assert(old(self).slot(old(self).len + (k - old(self).len)) == old(self).slot(k));
                }
            }
            assert(self@ =~= want);
        }
    }

    /// Drops the first `n` bytes. Once nothing is left, the front goes back
    /// to the start of the storage, so the next fill runs unbroken.
    pub fn drain_front(&mut self, n: usize)
        requires
            old(self).wf(),
            n <= old(self)@.len(),
        ensures
            final(self).wf(),
            final(self).cap() == old(self).cap(),
            final(self)@ == old(self)@.skip(n as int),
            final(self).start() == start_after_drain(
                old(self).start(),
                n as nat,
                old(self)@.len(),
                old(self).cap(),
            ),
    {
        let cap = self.data.len();
        if n == self.len {
            self.head = 0;
        } else if n < cap - self.head {
            self.head = self.head + n;
        } else {
            self.head = n - (cap - self.head);
        }
        self.len = self.len - n;
        proof {
            assert(self@ =~= old(self)@.skip(n as int));
        }
    }
}

} // verus!
