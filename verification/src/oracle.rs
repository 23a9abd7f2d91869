//! Reference implementation of the fixed-capacity ring buffer.

use crate::hadron::lemma_ring_evolve_compose;
use crate::hadron::lemma_ring_evolve_drop;
use crate::hadron::ring_evolve;
use vstd::prelude::*;
use vstd::slice::slice_index_get;

verus! {

/// A fixed-capacity ring buffer kept as a plain record sequence.
///
/// Oracle favours simplicity over speed: it stores the live records
/// contiguously and shifts them on eviction. It serves as the reference
/// against which the optimised rings are compared.
pub struct Oracle<T> {
    capacity: usize,
    items: Vec<T>,
}

impl<T> View for Oracle<T> {
    type V = Seq<T>;

    closed spec fn view(&self) -> Seq<T> {
        self.items@
    }
}

impl<T> Oracle<T> {
    /// Well-formedness of the ring's internal state.
    pub closed spec fn wf(&self) -> bool {
        self.capacity > 0 && self.items@.len() <= self.capacity
    }

    /// Maximum number of records the ring can hold.
    pub closed spec fn spec_capacity(&self) -> nat {
        self.capacity as nat
    }

    /// Create a new ring buffer holding at most `capacity` records.
    pub fn with_capacity(capacity: usize) -> (ring: Self)
        requires
            capacity > 0,
        ensures
            ring.wf(),
            ring@ == Seq::<T>::empty(),
            ring.spec_capacity() == capacity,
    {
        let ring = Oracle { capacity, items: Vec::with_capacity(capacity) };
        proof {
            assert(ring@ =~= Seq::<T>::empty());
        }
        ring
    }
}

impl<T: Copy> Oracle<T> {
    /// The records currently in the ring, oldest first.
    pub fn iter(&self) -> (out: Vec<T>)
        requires
            self.wf(),
        ensures
            out@ == self@,
    {
        vstd::slice::slice_to_vec(self.items.as_slice())
    }

    /// Append a slice of records, evicting the oldest records as needed.
    pub fn copy_from_slice(&mut self, items: &[T])
        requires
            old(self).wf(),
        ensures
            final(self).wf(),
            final(self).spec_capacity() == old(self).spec_capacity(),
            final(self)@ == ring_evolve(old(self)@, items@, old(self).spec_capacity()),
    {
        let ghost cap = old(self).spec_capacity();
        let n = items.len();
        let start: usize = if n > self.capacity {
            n - self.capacity
        } else {
            0
        };
        proof {
            if n > self.capacity {
                lemma_ring_evolve_drop(old(self)@, items@, cap);
            } else {
                assert(items@.skip(0) =~= items@);
            }
        }
        let mut i = start;
        while i < n
            invariant
                start <= i <= n,
                n == items@.len(),
                self.wf(),
                self.spec_capacity() == cap,
                self@ == ring_evolve(old(self)@, items@.subrange(start as int, i as int), cap),
                ring_evolve(old(self)@, items@.subrange(start as int, n as int), cap)
                    == ring_evolve(old(self)@, items@, cap),
            decreases n - i,
        {
            let item = *slice_index_get(items, i);
            proof {
                lemma_ring_evolve_compose(
                    old(self)@,
                    items@.subrange(start as int, i as int),
                    seq![items@[i as int]],
                    cap,
                );
                assert(items@.subrange(start as int, i as int) + seq![items@[i as int]]
                    =~= items@.subrange(start as int, i + 1));
            }
            if self.items.len() == self.capacity {
                self.items.remove(0);
                proof {
                    let ghost before = ring_evolve(
                        old(self)@,
                        items@.subrange(start as int, i as int),
                        cap,
                    );
                    assert(self.items@ =~= before.skip(1));
                }
            }
            let ghost mid = self.items@;
            self.items.push(item);
            proof {
                assert(self.items@ =~= mid + seq![items@[i as int]]);
                assert(self@ =~= ring_evolve(old(self)@, items@.subrange(start as int, i + 1), cap));
            }
            i = i + 1;
        }
        proof {
            assert(items@.subrange(start as int, n as int) == items@.skip(start as int));
        }
    }
}

} // verus!
