//! A bounded, page-mapped buffer of records.

use crate::record::Record;
use crate::storage::OffHeapStorage;
use crate::storage::Storage;
use vstd::prelude::*;
use vstd::slice::slice_subrange;

verus! {

/// A bounded, contiguous buffer of records over anonymous page-mapped
/// memory.
///
/// Records are appended at the back, rejected once the buffer is at
/// capacity, and reclaimed only from the front by trimming; the capacity is
/// fixed at construction.
pub struct Ring<T> {
    storage: OffHeapStorage<T>,
}

impl<T: Record> Ring<T> {
    /// Well-formedness of the buffer's internal state.
    pub closed spec fn wf(&self) -> bool {
        self.storage.wf()
    }

    /// The records currently in the buffer, in order.
    pub closed spec fn recs(&self) -> Seq<T> {
        self.storage.recs()
    }

    /// Maximum number of records the buffer can hold.
    pub closed spec fn cap(&self) -> nat {
        self.storage.cap()
    }

    /// A well-formed buffer never holds more records than its capacity.
    pub proof fn lemma_wf(&self)
        requires
            self.wf(),
        ensures
            self.recs().len() <= self.cap(),
    {
        self.storage.lemma_wf();
    }

    /// Create a new buffer holding at most `capacity` records.
    pub fn with_capacity(capacity: usize) -> (ring: Self)
        requires
            capacity > 0,
            capacity * T::spec_size() <= usize::MAX,
        ensures
            ring.wf(),
            ring.recs() == Seq::<T>::empty(),
            ring.cap() == capacity,
    {
        Ring { storage: OffHeapStorage::new(capacity) }
    }

    /// Number of records currently in the buffer.
    pub fn len(&self) -> (n: usize)
        requires
            self.wf(),
        ensures
            n == self.recs().len(),
    {
        self.storage.length()
    }

    /// Maximum number of records the buffer can hold.
    pub fn capacity(&self) -> (n: usize)
        requires
            self.wf(),
        ensures
            n == self.cap(),
    {
        self.storage.capacity()
    }

    /// Number of records that can be appended without overflow.
    pub fn remaining(&self) -> (n: usize)
        requires
            self.wf(),
        ensures
            n == self.cap() - self.recs().len(),
    {
        self.storage.remaining()
    }

    /// True if the buffer has no records.
    pub fn is_empty(&self) -> (b: bool)
        requires
            self.wf(),
        ensures
            b == (self.recs().len() == 0),
    {
        self.len() == 0
    }

    /// True if the buffer is at capacity.
    pub fn is_full(&self) -> (b: bool)
        requires
            self.wf(),
        ensures
            b == (self.recs().len() == self.cap()),
    {
        self.capacity() == self.len()
    }

    /// Trim the first `len` records from the buffer.
    ///
    /// Trimming more records than the buffer holds clears it.
    pub fn trim(&mut self, len: usize)
        requires
            old(self).wf(),
        ensures
            final(self).wf(),
            final(self).cap() == old(self).cap(),
            final(self).recs() == if len <= old(self).recs().len() {
                old(self).recs().skip(len as int)
            } else {
                Seq::<T>::empty()
            },
    {
        if len == 0 {
            proof {
                assert(old(self).recs().skip(0) =~= old(self).recs());
            }
            return ;
        }
        if len >= self.len() {
            self.clear();
            proof {
                if len <= old(self).recs().len() {
                    assert(old(self).recs().skip(len as int) =~= Seq::<T>::empty());
                }
            }
            return ;
        }
        self.storage.trim(len);
    }

    /// Append one record, unless the buffer is at capacity.
    ///
    /// Returns whether the record was accepted.
    pub fn push(&mut self, record: T) -> (accepted: bool)
        requires
            old(self).wf(),
        ensures
            final(self).wf(),
            final(self).cap() == old(self).cap(),
            if old(self).recs().len() < old(self).cap() {
                accepted && final(self).recs() == old(self).recs().push(record)
            } else {
                !accepted && final(self).recs() == old(self).recs()
            },
    {
        proof {
            self.lemma_wf();
        }
        if self.remaining() == 0 {
            return false;
        }
        let mut one: Vec<T> = Vec::new();
        one.push(record);
        self.storage.extend(one.as_slice());
        proof {
            assert(old(self).recs() + one@ =~= old(self).recs().push(record));
        }
        true
    }

    /// Append a slice of records; the suffix that does not fit is returned
    /// as rejected.
    pub fn extend_from_slice<'a>(&mut self, records: &'a [T]) -> (rejected: &'a [T])
        requires
            old(self).wf(),
        ensures
            final(self).wf(),
            final(self).cap() == old(self).cap(),
            ({
                let k = if records@.len() <= old(self).cap() - old(self).recs().len() {
                    records@.len() as int
                } else {
                    old(self).cap() - old(self).recs().len()
                };
                final(self).recs() == old(self).recs() + records@.take(k) && rejected@
                    == records@.skip(k)
            }),
    {
        proof {
            self.lemma_wf();
        }
        let rem = self.remaining();
        let k = if records.len() <= rem {
            records.len()
        } else {
            rem
        };
        let to_append = slice_subrange(records, 0, k);
        let to_reject = slice_subrange(records, k, records.len());
        if to_append.len() == 0 {
            proof {
                assert(old(self).recs() + records@.take(0) =~= old(self).recs());
            }
            return to_reject;
        }
        self.storage.extend(to_append);
        to_reject
    }

    /// Remove all records from the buffer.
    pub fn clear(&mut self)
        requires
            old(self).wf(),
        ensures
            final(self).wf(),
            final(self).cap() == old(self).cap(),
            final(self).recs() == Seq::<T>::empty(),
    {
        self.storage.clear();
    }

    /// The records currently in the buffer, in order.
    pub fn records(&self) -> (out: Vec<T>)
        requires
            self.wf(),
        ensures
            out@ == self.recs(),
    {
        self.storage.records()
    }
}

} // verus!
