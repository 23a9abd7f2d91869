//! A bounded container of contiguous records with a trimming strategy.

use crate::record::Record;
use crate::storage::OffHeapStorage;
use crate::storage::OnHeapStorage;
use crate::storage::Storage;
use crate::storage::VecStorage;
use vstd::prelude::*;
use vstd::slice::slice_subrange;

verus! {

/// Type alias for a [`Segment`] backed by [`VecStorage`].
pub type VecSegment<T> = Segment<VecStorage<T>>;

/// Type alias for a [`Segment`] backed by [`OffHeapStorage`].
pub type OffHeapSegment<T> = Segment<OffHeapStorage<T>>;

/// Type alias for a [`Segment`] backed by [`OnHeapStorage`].
pub type OnHeapSegment<T> = Segment<OnHeapStorage<T>>;

/// Strategy used to reclaim space during appends into a [`Segment`].
#[derive(Clone, Copy, Debug, PartialEq, Eq, Structural)]
pub enum Trimmer {
    /// Reclaim nothing; appends that do not fit are rejected.
    Nothing,
    /// Remove the first `n` records from the segment when an append does not
    /// fit. Records are still rejected if that frees too little space.
    Trim(usize),
}

/// What a trimming pass leaves of the records `v`.
pub open spec fn spec_run_trimmer<T>(v: Seq<T>, trimmer: Trimmer) -> Seq<T> {
    match trimmer {
        Trimmer::Nothing => v,
        Trimmer::Trim(n) => if n <= v.len() {
            v.skip(n as int)
        } else {
            Seq::<T>::empty()
        },
    }
}

/// A bounded, contiguous container of records.
///
/// Records can be appended at the back and removed only from the front; the
/// capacity is fixed at construction. When an append does not fit, the
/// segment's [`Trimmer`] decides how much space to reclaim first.
pub struct Segment<S: Storage> {
    storage: S,
    trimmer: Trimmer,
}

impl<T: Record + Copy> VecSegment<T> {
    /// Create a new segment using a `Vec` for memory.
    pub fn with_capacity(capacity: usize, trimmer: Trimmer) -> (s: Self)
        ensures
            s.wf(),
            s.recs() == Seq::<T>::empty(),
            s.cap() == capacity,
            s.spec_trimmer() == trimmer,
    {
        Segment { trimmer, storage: VecStorage::new(capacity) }
    }
}

impl<T: Record> OffHeapSegment<T> {
    /// Create a new segment using page-mapped memory.
    pub fn with_capacity(capacity: usize, trimmer: Trimmer) -> (s: Self)
        requires
            capacity > 0,
            capacity * T::spec_size() <= usize::MAX,
        ensures
            s.wf(),
            s.recs() == Seq::<T>::empty(),
            s.cap() == capacity,
            s.spec_trimmer() == trimmer,
    {
        Segment { trimmer, storage: OffHeapStorage::new(capacity) }
    }
}

impl<T: Record> OnHeapSegment<T> {
    /// Create a new segment using heap memory.
    pub fn with_capacity(capacity: usize, trimmer: Trimmer) -> (s: Self)
        requires
            capacity * T::spec_size() <= usize::MAX,
        ensures
            s.wf(),
            s.recs() == Seq::<T>::empty(),
            s.cap() == capacity,
            s.spec_trimmer() == trimmer,
    {
        Segment { trimmer, storage: OnHeapStorage::new(capacity) }
    }
}

impl<S: Storage> Segment<S> {
    /// Well-formedness of the segment's internal state.
    pub closed spec fn wf(&self) -> bool {
        self.storage.wf()
    }

    /// The records currently in the segment, in order.
    pub closed spec fn recs(&self) -> Seq<S::Record> {
        self.storage.recs()
    }

    /// Maximum number of records the segment can hold.
    pub closed spec fn cap(&self) -> nat {
        self.storage.cap()
    }

    /// The trimming strategy this segment was created with.
    pub closed spec fn spec_trimmer(&self) -> Trimmer {
        self.trimmer
    }

    /// A well-formed segment never holds more records than its capacity.
    pub proof fn lemma_wf(&self)
        requires
            self.wf(),
        ensures
            self.recs().len() <= self.cap(),
    {
        self.storage.lemma_wf();
    }

    /// Number of records currently stored in the segment.
    pub fn len(&self) -> (n: usize)
        requires
            self.wf(),
        ensures
            n == self.recs().len(),
    {
        self.storage.length()
    }

    /// Maximum number of records that can be stored in the segment.
    pub fn capacity(&self) -> (n: usize)
        requires
            self.wf(),
        ensures
            n == self.cap(),
    {
        self.storage.capacity()
    }

    /// Number of records that can be appended without overflow.
    pub fn remaining(&self) -> (n: usize)
        requires
            self.wf(),
        ensures
            n == self.cap() - self.recs().len(),
    {
        self.storage.remaining()
    }

    /// True if the segment has no records.
    pub fn is_empty(&self) -> (b: bool)
        requires
            self.wf(),
        ensures
            b == (self.recs().len() == 0),
    {
        self.len() == 0
    }

    /// True if the segment is at capacity.
    pub fn is_full(&self) -> (b: bool)
        requires
            self.wf(),
        ensures
            b == (self.recs().len() == self.cap()),
    {
        self.capacity() == self.len()
    }

    /// Trim the first `len` records from the segment.
    ///
    /// Trimming more records than the segment holds clears it.
    pub fn trim(&mut self, len: usize)
        requires
            old(self).wf(),
        ensures
            final(self).wf(),
            final(self).cap() == old(self).cap(),
            final(self).spec_trimmer() == old(self).spec_trimmer(),
            final(self).recs() == if len <= old(self).recs().len() {
                old(self).recs().skip(len as int)
            } else {
                Seq::<S::Record>::empty()
            },
    {
        if len == 0 {
            proof {
                assert(old(self).recs().skip(0) =~= old(self).recs());
            }
            return ;
        }
        if len >= self.len() {
            self.clear();
            proof {
                if len <= old(self).recs().len() {
                    assert(old(self).recs().skip(len as int) =~= Seq::<S::Record>::empty());
                }
            }
            return ;
        }
        self.storage.trim(len);
    }

    /// Append one record into the segment.
    ///
    /// Runs the trimmer first when the segment is full; returns the record
    /// back when there is still no room for it.
    pub fn push(&mut self, record: S::Record) -> (rejected: Option<S::Record>)
        requires
            old(self).wf(),
        ensures
            final(self).wf(),
            final(self).cap() == old(self).cap(),
            final(self).spec_trimmer() == old(self).spec_trimmer(),
            ({
                let v1 = if old(self).recs().len() == old(self).cap() {
                    spec_run_trimmer(old(self).recs(), old(self).spec_trimmer())
                } else {
                    old(self).recs()
                };
                if v1.len() < old(self).cap() {
                    rejected is None && final(self).recs() == v1.push(record)
                } else {
                    rejected == Some(record) && final(self).recs() == v1
                }
            }),
    {
        proof {
            self.lemma_wf();
        }
        if self.remaining() == 0 {
            self.run_trimmer();
        }
        if self.remaining() == 0 {
            return Some(record);
        }
        let mut one: Vec<S::Record> = Vec::new();
        one.push(record);
        self.storage.extend(one.as_slice());
        proof {
            let v1 = if old(self).recs().len() == old(self).cap() {
                spec_run_trimmer(old(self).recs(), old(self).spec_trimmer())
            } else {
                old(self).recs()
            };
            assert(v1 + one@ =~= v1.push(record));
        }
        None
    }

    /// Append a slice of records into the segment.
    ///
    /// Runs the trimmer first when the records do not all fit; the suffix
    /// that still does not fit is returned as rejected.
    pub fn extend_from_slice<'a>(&mut self, records: &'a [S::Record]) -> (rejected: &'a [S::Record])
        requires
            old(self).wf(),
        ensures
            final(self).wf(),
            final(self).cap() == old(self).cap(),
            final(self).spec_trimmer() == old(self).spec_trimmer(),
            ({
                let v1 = if old(self).cap() - old(self).recs().len() < records@.len() {
                    spec_run_trimmer(old(self).recs(), old(self).spec_trimmer())
                } else {
                    old(self).recs()
                };
                let k = if records@.len() <= old(self).cap() - v1.len() {
                    records@.len() as int
                } else {
                    old(self).cap() - v1.len()
                };
                final(self).recs() == v1 + records@.take(k) && rejected@ == records@.skip(k)
            }),
    {
        proof {
            self.lemma_wf();
        }
        if self.remaining() < records.len() {
            self.run_trimmer();
        }
        let rem = self.remaining();
        let k = if records.len() <= rem {
            records.len()
        } else {
            rem
        };
        let to_append = slice_subrange(records, 0, k);
        let to_reject = slice_subrange(records, k, records.len());
        if to_append.len() == 0 {
            proof {
                let v1 = self.recs();
                assert(v1 + records@.take(0) =~= v1);
            }
            return to_reject;
        }
        self.storage.extend(to_append);
        to_reject
    }

    /// Remove all records from the segment.
    pub fn clear(&mut self)
        requires
            old(self).wf(),
        ensures
            final(self).wf(),
            final(self).cap() == old(self).cap(),
            final(self).spec_trimmer() == old(self).spec_trimmer(),
            final(self).recs() == Seq::<S::Record>::empty(),
    {
        self.storage.clear();
    }

    /// The records currently in the segment, in order.
    pub fn records(&self) -> (out: Vec<S::Record>)
        requires
            self.wf(),
        ensures
            out@ == self.recs(),
    {
        self.storage.records()
    }

    /// Run this segment's trimming strategy once.
    fn run_trimmer(&mut self)
        requires
            old(self).wf(),
        ensures
            final(self).wf(),
            final(self).cap() == old(self).cap(),
            final(self).spec_trimmer() == old(self).spec_trimmer(),
            final(self).recs() == spec_run_trimmer(old(self).recs(), old(self).spec_trimmer()),
    {
        let trim_len = match self.trimmer {
            Trimmer::Nothing => 0,
            Trimmer::Trim(len) => len,
        };
        if trim_len > 0 {
            self.trim(trim_len);
        } else {
            proof {
                if self.spec_trimmer() is Trim {
                    assert(self.recs().skip(0) =~= self.recs());
                }
            }
        }
    }
}

} // verus!
