//! Reusable buffer that holds the results of ring-buffer queries.

use crate::record::Record;
use crate::storage::OnHeapStorage;
use crate::storage::Storage;
use vstd::prelude::*;

verus! {

/// A reusable, preallocated buffer that ring queries copy records into.
///
/// All storage is allocated at construction; queries only fill the buffer up
/// to its fixed capacity.
pub struct QueryBuf<T>(OnHeapStorage<T>);

impl<T: Record> View for QueryBuf<T> {
    type V = Seq<T>;

    closed spec fn view(&self) -> Seq<T> {
        self.0.recs()
    }
}

impl<T: Record> QueryBuf<T> {
    /// Well-formedness of the buffer's internal state.
    pub closed spec fn wf(&self) -> bool {
        self.0.wf() && self.0.cap() > 0
    }

    /// Maximum number of records the buffer can hold.
    pub closed spec fn spec_capacity(&self) -> nat {
        self.0.cap()
    }

    /// A well-formed buffer never holds more records than its capacity.
    pub proof fn lemma_wf(&self)
        requires
            self.wf(),
        ensures
            self@.len() <= self.spec_capacity(),
            self.spec_capacity() > 0,
    {
        self.0.lemma_wf();
    }

    /// Create a new [`QueryBuf`] that can hold `capacity` records.
    pub fn new(capacity: usize) -> (buf: Self)
        requires
            capacity > 0,
            capacity * T::spec_size() <= usize::MAX,
        ensures
            buf.wf(),
            buf@ == Seq::<T>::empty(),
            buf.spec_capacity() == capacity,
    {
        QueryBuf(OnHeapStorage::new(capacity))
    }

    /// Number of records currently held in the buffer.
    pub fn length(&self) -> (n: usize)
        requires
            self.wf(),
        ensures
            n == self@.len(),
    {
        self.0.length()
    }

    /// Maximum number of records the buffer can hold.
    pub fn capacity(&self) -> (n: usize)
        requires
            self.wf(),
        ensures
            n == self.spec_capacity(),
    {
        self.0.capacity()
    }

    /// The records held in the buffer, in order.
    pub fn records(&self) -> (out: Vec<T>)
        requires
            self.wf(),
        ensures
            out@ == self@,
    {
        self.0.records()
    }

    /// Number of records that can be appended without overflow.
    pub fn remaining(&self) -> (n: usize)
        requires
            self.wf(),
        ensures
            n == self.spec_capacity() - self@.len(),
    {
        self.0.remaining()
    }

    /// Append records into the buffer.
    pub fn extend(&mut self, records: &[T])
        requires
            old(self).wf(),
            records@.len() <= old(self).spec_capacity() - old(self)@.len(),
        ensures
            final(self).wf(),
            final(self)@ == old(self)@ + records@,
            final(self).spec_capacity() == old(self).spec_capacity(),
    {
        self.0.extend(records);
    }

    /// Clear all records from the buffer.
    pub fn clear(&mut self)
        requires
            old(self).wf(),
        ensures
            final(self).wf(),
            final(self)@ == Seq::<T>::empty(),
            final(self).spec_capacity() == old(self).spec_capacity(),
    {
        self.0.clear();
    }
}

} // verus!
