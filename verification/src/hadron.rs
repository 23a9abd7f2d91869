//! A fixed-capacity circular buffer of records.

use vstd::prelude::*;
use vstd::slice::slice_index_get;
use vstd::slice::slice_subrange;

verus! {

/// The live records of a ring of capacity `cap` after appending `items` to a
/// ring that held `v`: the last `cap` records of `v + items`, in order.
pub open spec fn ring_evolve<T>(v: Seq<T>, items: Seq<T>, cap: nat) -> Seq<T> {
    let total = v + items;
    if total.len() <= cap {
        total
    } else {
        total.skip(total.len() - cap)
    }
}

/// Appending `a` and then `b` leaves the same records as appending `a + b`.
pub proof fn lemma_ring_evolve_compose<T>(v: Seq<T>, a: Seq<T>, b: Seq<T>, cap: nat)
    ensures
        ring_evolve(ring_evolve(v, a, cap), b, cap) == ring_evolve(v, a + b, cap),
{
    let va = v + a;
    let vab = v + (a + b);
    assert(va + b =~= vab);
    if va.len() <= cap {
        assert(ring_evolve(v, a, cap) + b =~= vab);
    } else {
        let m1 = va.len() - cap;
        assert(va.skip(m1) + b =~= vab.skip(m1));
        let w = vab.skip(m1);
        if w.len() <= cap {
            assert(ring_evolve(ring_evolve(v, a, cap), b, cap) =~= w);
        } else {
            let m2 = w.len() - cap;
            assert(w.skip(m2) =~= vab.skip(m1 + m2));
            assert(m1 + m2 == vab.len() - cap);
        }
    }
    if vab.len() <= cap {
        assert(ring_evolve(v, a + b, cap) =~= vab);
    } else {
        assert(ring_evolve(v, a + b, cap) =~= vab.skip(vab.len() - cap));
    }
}

/// Items that would be overwritten in the same append can be dropped first.
pub proof fn lemma_ring_evolve_drop<T>(v: Seq<T>, items: Seq<T>, cap: nat)
    requires
        items.len() > cap,
    ensures
        ring_evolve(v, items, cap) == ring_evolve(v, items.skip(items.len() - cap), cap),
{
    let d = items.len() - cap;
    let t1 = v + items;
    let t2 = v + items.skip(d);
    assert(t1.skip(t1.len() - cap) =~= items.skip(d));
    if t2.len() <= cap {
        assert(t2 =~= items.skip(d));
    } else {
        assert(t2.skip(t2.len() - cap) =~= items.skip(d));
    }
}

/// The ring state after a sequence of appends, starting from an empty ring.
pub open spec fn spec_apply_batches<T>(batches: Seq<Seq<T>>, cap: nat) -> Seq<T>
    decreases batches.len(),
{
    if batches.len() == 0 {
        Seq::<T>::empty()
    } else {
        ring_evolve(spec_apply_batches(batches.drop_last(), cap), batches.last(), cap)
    }
}

/// The concatenation of a sequence of batches.
pub open spec fn spec_concat_batches<T>(batches: Seq<Seq<T>>) -> Seq<T>
    decreases batches.len(),
{
    if batches.len() == 0 {
        Seq::<T>::empty()
    } else {
        spec_concat_batches(batches.drop_last()) + batches.last()
    }
}

/// After any sequence of appends, a ring of capacity `cap` holds exactly the
/// last `min(total, cap)` of all appended items, in append order.
pub proof fn lemma_ring_order<T>(batches: Seq<Seq<T>>, cap: nat)
    ensures
        spec_apply_batches(batches, cap) == ring_evolve(
            Seq::<T>::empty(),
            spec_concat_batches(batches),
            cap,
        ),
    decreases batches.len(),
{
    if batches.len() == 0 {
        assert(Seq::<T>::empty() + Seq::<T>::empty() =~= Seq::<T>::empty());
    } else {
        lemma_ring_order(batches.drop_last(), cap);
        lemma_ring_evolve_compose(
            Seq::<T>::empty(),
            spec_concat_batches(batches.drop_last()),
            batches.last(),
            cap,
        );
    }
}

/// Hadron is a fixed-capacity ring buffer.
///
/// All storage is allocated at construction. Appends overwrite the oldest
/// records once the buffer is full; reads expose the live records as two
/// contiguous slices.
pub struct Hadron<T> {
    // Index where the next append will begin writing once the buffer is full.
    next: usize,
    // Maximum number of records the buffer can hold.
    capacity: usize,
    // The backing store; grows to `capacity` records and then holds exactly
    // that many forever, with the live records wrapping at `next`.
    mem: Vec<T>,
}

impl<T> Hadron<T> {
    /// Well-formedness of the ring's internal state.
    pub closed spec fn wf(&self) -> bool {
        &&& self.capacity > 0
        &&& self.mem@.len() <= self.capacity
        &&& self.next < self.capacity
        &&& self.mem@.len() < self.capacity ==> self.next == self.mem@.len()
    }

    /// Maximum number of records the ring can hold.
    pub closed spec fn spec_capacity(&self) -> nat {
        self.capacity as nat
    }

    /// Offset of the wrap point from the end of the live records.
    pub closed spec fn spec_next(&self) -> nat {
        self.next as nat
    }

    /// A well-formed ring holds at most `spec_capacity()` records.
    pub proof fn lemma_wf(&self)
        requires
            self.wf(),
        ensures
            self@.len() <= self.spec_capacity(),
            self.spec_capacity() > 0,
    {
    }

    /// Create a new ring buffer holding at most `capacity` records.
    ///
    /// All required memory is allocated during initialization.
    pub fn with_capacity(capacity: usize) -> (ring: Self)
        requires
            capacity > 0,
        ensures
            ring.wf(),
            ring@ == Seq::<T>::empty(),
            ring.spec_capacity() == capacity,
    {
        let ring = Hadron { next: 0, capacity, mem: Vec::with_capacity(capacity) };
        proof {
            assert(ring@ =~= Seq::<T>::empty());
        }
        ring
    }

    /// Get references to the records currently stored in the ring buffer.
    ///
    /// The live records are the concatenation of the two returned slices;
    /// while the ring has not wrapped around, the second slice is empty.
    pub fn as_slices(&self) -> (r: (&[T], &[T]))
        requires
            self.wf(),
        ensures
            r.0@ + r.1@ == self@,
            self@.len() < self.spec_capacity() ==> r.0@ == self@ && r.1@.len() == 0,
            self@.len() == self.spec_capacity() ==> r.0@ == self@.take(
                self.spec_capacity() - self.spec_next(),
            ) && r.1@ == self@.skip(self.spec_capacity() - self.spec_next()),
    {
        let len = self.mem.len();
        if len < self.capacity {
            let head = slice_subrange(self.mem.as_slice(), 0, len);
            let tail = slice_subrange(self.mem.as_slice(), 0, 0);
            proof {
                assert(head@ =~= self@);
                assert(head@ + tail@ =~= self@);
            }
            (head, tail)
        } else {
            let head = slice_subrange(self.mem.as_slice(), self.next, len);
            let tail = slice_subrange(self.mem.as_slice(), 0, self.next);
            proof {
                assert(head@ =~= self@.take(self.spec_capacity() - self.spec_next()));
                assert(tail@ =~= self@.skip(self.spec_capacity() - self.spec_next()));
                assert(head@ + tail@ =~= self@);
            }
            (head, tail)
        }
    }
}

impl<T: Copy> Hadron<T> {
    /// The records currently in the ring, oldest first.
    pub fn iter(&self) -> (out: Vec<T>)
        requires
            self.wf(),
        ensures
            out@ == self@,
    {
        let (head, tail) = self.as_slices();
        let mut out = vstd::slice::slice_to_vec(head);
        let mut rest = vstd::slice::slice_to_vec(tail);
        out.append(&mut rest);
        out
    }

    /// Append one record, overwriting the oldest record when full.
    fn push_one(&mut self, item: T)
        requires
            old(self).wf(),
        ensures
            final(self).wf(),
            final(self).spec_capacity() == old(self).spec_capacity(),
            final(self)@ == ring_evolve(old(self)@, seq![item], old(self).spec_capacity()),
    {
        if self.mem.len() < self.capacity {
            self.mem.push(item);
            self.next = if self.next + 1 == self.capacity {
                0
            } else {
                self.next + 1
            };
            proof {
                assert(self@ =~= old(self)@ + seq![item]);
                assert(old(self)@ + seq![item] =~= ring_evolve(
                    old(self)@,
                    seq![item],
                    old(self).spec_capacity(),
                ));
            }
        } else {
            self.mem.set(self.next, item);
            self.next = if self.next + 1 == self.capacity {
                0
            } else {
                self.next + 1
            };
            proof {
                assert(self@ =~= old(self)@.skip(1) + seq![item]);
                assert((old(self)@ + seq![item]).skip(1) =~= old(self)@.skip(1) + seq![item]);
            }
        }
    }

    /// Append a slice of records into the ring buffer.
    ///
    /// If the newly appended records exceed the capacity of the ring buffer,
    /// space is reclaimed by evicting the oldest records.
    pub fn copy_from_slice(&mut self, items: &[T])
        requires
            old(self).wf(),
        ensures
            final(self).wf(),
            final(self).spec_capacity() == old(self).spec_capacity(),
            final(self)@ == ring_evolve(old(self)@, items@, old(self).spec_capacity()),
    {
        let ghost cap = old(self).spec_capacity();
        let n = items.len();
        let start: usize = if n > self.capacity {
            n - self.capacity
        } else {
            0
        };
        proof {
            if n > self.capacity {
                lemma_ring_evolve_drop(old(self)@, items@, cap);
            } else {
                assert(items@.skip(0) =~= items@);
            }
        }
        let mut i = start;
        while i < n
            invariant
                start <= i <= n,
                n == items@.len(),
                self.wf(),
                self.spec_capacity() == cap,
                self@ == ring_evolve(old(self)@, items@.subrange(start as int, i as int), cap),
                ring_evolve(old(self)@, items@.subrange(start as int, n as int), cap)
                    == ring_evolve(old(self)@, items@, cap),
            decreases n - i,
        {
            let item = *slice_index_get(items, i);
            proof {
                lemma_ring_evolve_compose(
                    old(self)@,
                    items@.subrange(start as int, i as int),
                    seq![items@[i as int]],
                    cap,
                );
                assert(items@.subrange(start as int, i as int) + seq![items@[i as int]]
                    =~= items@.subrange(start as int, i + 1));
            }
            self.push_one(item);
            i = i + 1;
        }
        proof {
            assert(items@.subrange(start as int, n as int) == items@.skip(start as int));
        }
    }
}

impl<T> View for Hadron<T> {
    type V = Seq<T>;

    closed spec fn view(&self) -> Seq<T> {
        if self.mem@.len() < self.capacity {
            self.mem@
        } else {
            self.mem@.skip(self.next as int) + self.mem@.take(self.next as int)
        }
    }
}

} // verus!
