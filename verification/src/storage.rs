//! Storage engines that hold a contiguous sequence of records.
//!
//! A [`Storage`] is a bounded container of records supporting append at the
//! back and trim at the front. [`VecStorage`] keeps records in a `Vec`;
//! [`MemStorage`] lays them out, encoded, in a flat byte arena provided by a
//! [`Memory`] backing, either [`OnHeap`] or [`OffHeap`].

use crate::memory::Memory;
use crate::memory::OffHeap;
use crate::memory::OnHeap;
use crate::record::from_bytes_slice;
use crate::record::lemma_encode_app;
use crate::record::lemma_encode_len;
use crate::record::lemma_encode_skip;
use crate::record::lemma_slice_round_trip;
use crate::record::spec_encode;
use crate::record::to_bytes_slice;
use crate::record::Record;
use vstd::prelude::*;

verus! {

/// Type alias for [`MemStorage`] backed by [`OnHeap`] memory.
pub type OnHeapStorage<T> = MemStorage<T, OnHeap>;

/// Type alias for [`MemStorage`] backed by [`OffHeap`] memory.
pub type OffHeapStorage<T> = MemStorage<T, OffHeap>;

/// Storage engine that holds a contiguous sequence of records.
///
/// A storage has a fixed capacity `cap()` and holds the record sequence
/// `recs()`, with `recs().len() <= cap()` whenever the storage is
/// well-formed.
pub trait Storage: Sized {
    /// Associated type for records stored.
    type Record;

    /// Well-formedness of the storage's internal state.
    spec fn wf(&self) -> bool;

    /// The records currently in storage, in order.
    spec fn recs(&self) -> Seq<Self::Record>;

    /// Total number of records that the storage can accommodate.
    spec fn cap(&self) -> nat;

    /// A well-formed storage never holds more records than its capacity.
    proof fn lemma_wf(&self)
        requires
            self.wf(),
        ensures
            self.recs().len() <= self.cap(),
    ;

    /// Total number of records that the storage can accommodate.
    fn capacity(&self) -> (n: usize)
        requires
            self.wf(),
        ensures
            n == self.cap(),
    ;

    /// Number of records currently in storage.
    fn length(&self) -> (n: usize)
        requires
            self.wf(),
        ensures
            n == self.recs().len(),
    ;

    /// Number of records that can be appended without overflow.
    fn remaining(&self) -> (n: usize)
        requires
            self.wf(),
        ensures
            n == self.cap() - self.recs().len(),
    ;

    /// Remove the first `len` records, shifting the survivors down.
    fn trim(&mut self, len: usize)
        requires
            old(self).wf(),
            len <= old(self).recs().len(),
        ensures
            final(self).wf(),
            final(self).recs() == old(self).recs().skip(len as int),
            final(self).cap() == old(self).cap(),
    ;

    /// Append records at the back of the storage.
    fn extend(&mut self, records: &[Self::Record])
        requires
            old(self).wf(),
            records@.len() <= old(self).cap() - old(self).recs().len(),
        ensures
            final(self).wf(),
            final(self).recs() == old(self).recs() + records@,
            final(self).cap() == old(self).cap(),
    ;

    /// Remove all records from storage.
    fn clear(&mut self)
        requires
            old(self).wf(),
        ensures
            final(self).wf(),
            final(self).recs() == Seq::<Self::Record>::empty(),
            final(self).cap() == old(self).cap(),
    ;

    /// The records currently in storage, in order.
    fn records(&self) -> (out: Vec<Self::Record>)
        requires
            self.wf(),
        ensures
            out@ == self.recs(),
    ;
}

/// Storage engine that keeps its records in a [`Vec`].
///
/// The capacity bound is tracked alongside the vector, which is preallocated
/// to that bound and never grows past it.
pub struct VecStorage<T> {
    items: Vec<T>,
    capacity: usize,
}

impl<T: Record + Copy> VecStorage<T> {
    /// Create a new [`Vec`]-backed storage engine.
    pub fn new(capacity: usize) -> (s: Self)
        ensures
            s.wf(),
            s.cap() == capacity,
            s.recs() == Seq::<T>::empty(),
    {
        let s = VecStorage { items: Vec::with_capacity(capacity), capacity };
        proof {
            assert(s.recs() =~= Seq::<T>::empty());
        }
        s
    }
}

impl<T: Copy> Storage for VecStorage<T> {
    type Record = T;

    closed spec fn wf(&self) -> bool {
        self.items@.len() <= self.capacity
    }

    closed spec fn recs(&self) -> Seq<T> {
        self.items@
    }

    closed spec fn cap(&self) -> nat {
        self.capacity as nat
    }

    proof fn lemma_wf(&self) {
    }

    fn capacity(&self) -> (n: usize) {
        self.capacity
    }

    fn length(&self) -> (n: usize) {
        self.items.len()
    }

    fn remaining(&self) -> (n: usize) {
        self.capacity - self.items.len()
    }

    fn trim(&mut self, len: usize) {
        let mut i: usize = 0;
        while i < len
            invariant
                i <= len,
                len <= old(self).items@.len(),
                self.capacity == old(self).capacity,
                self.items@ == old(self).items@.skip(i as int),
            decreases len - i,
        {
            self.items.remove(0);
            proof {
                assert(old(self).items@.skip(i as int).remove(0) =~= old(self).items@.skip(i + 1));
            }
            i = i + 1;
        }
    }

    fn extend(&mut self, records: &[T]) {
        let k: usize = records.len();
        let mut i: usize = 0;
        while i < k
            invariant
                i <= k,
                k == records@.len(),
                self.capacity == old(self).capacity,
                self.items@ == old(self).items@ + records@.take(i as int),
            decreases k - i,
        {
            let r = *vstd::slice::slice_index_get(records, i);
            self.items.push(r);
            proof {
                assert(old(self).items@ + records@.take(i + 1) =~= (old(self).items@
                    + records@.take(i as int)).push(records@[i as int]));
            }
            i = i + 1;
        }
        proof {
            assert(records@.take(k as int) =~= records@);
        }
    }

    fn clear(&mut self) {
        self.items.clear();
        proof {
            assert(self.items@ =~= Seq::<T>::empty());
        }
    }

    fn records(&self) -> (out: Vec<T>) {
        let mut out: Vec<T> = Vec::new();
        let n: usize = self.items.len();
        let mut i: usize = 0;
        while i < n
            invariant
                i <= n,
                n == self.items@.len(),
                out@ == self.items@.take(i as int),
            decreases n - i,
        {
            let r = self.items[i];
            out.push(r);
            proof {
                assert(out@ =~= self.items@.take(i + 1));
            }
            i = i + 1;
        }
        proof {
            assert(self.items@.take(n as int) =~= self.items@);
        }
        out
    }
}

/// Storage engine that lays records out, encoded, in a flat byte arena.
///
/// Record `i` occupies the bytes `i * size..(i + 1) * size` of the backing
/// region; the region itself is `capacity * size` bytes and never moves or
/// grows. The record sequence is carried alongside as ghost state, tied to
/// the arena bytes by the storage invariant.
pub struct MemStorage<T, M> {
    mem: M,
    length: usize,
    capacity: usize,
    records: Ghost<Seq<T>>,
}

impl<T: Record> OnHeapStorage<T> {
    /// Create a new storage engine backed by heap memory.
    pub fn new(capacity: usize) -> (s: Self)
        requires
            capacity * T::spec_size() <= usize::MAX,
        ensures
            s.wf(),
            s.cap() == capacity,
            s.recs() == Seq::<T>::empty(),
    {
        let size = T::size();
        let mem = OnHeap::allocate(capacity * size);
        let s = MemStorage { mem, length: 0usize, capacity, records: Ghost(Seq::<T>::empty()) };
        proof {
            assert(spec_encode(Seq::<T>::empty()) =~= Seq::<u8>::empty());
            assert(s.mem.contents().subrange(0, 0) =~= Seq::<u8>::empty());
        }
        s
    }
}

impl<T: Record> OffHeapStorage<T> {
    /// Create a new storage engine backed by page-mapped memory.
    pub fn new(capacity: usize) -> (s: Self)
        requires
            capacity > 0,
            capacity * T::spec_size() <= usize::MAX,
        ensures
            s.wf(),
            s.cap() == capacity,
            s.recs() == Seq::<T>::empty(),
    {
        let size = T::size();
        proof {
            T::lemma_size_pos();
            assert(capacity > 0 && T::spec_size() > 0 ==> capacity * T::spec_size() > 0)
                by (nonlinear_arith);
        }
        let mem = OffHeap::allocate(capacity * size);
        let s = MemStorage { mem, length: 0usize, capacity, records: Ghost(Seq::<T>::empty()) };
        proof {
            assert(spec_encode(Seq::<T>::empty()) =~= Seq::<u8>::empty());
            assert(s.mem.contents().subrange(0, 0) =~= Seq::<u8>::empty());
        }
        s
    }
}

impl<T: Record, M: Memory> Storage for MemStorage<T, M> {
    type Record = T;

    closed spec fn wf(&self) -> bool {
        &&& self.length == self.records@.len()
        &&& self.length <= self.capacity
        &&& self.capacity * T::spec_size() <= usize::MAX
        &&& self.mem.contents().len() == self.capacity * T::spec_size()
        &&& self.mem.contents().subrange(0, self.length * T::spec_size()) == spec_encode(
            self.records@,
        )
    }

    closed spec fn recs(&self) -> Seq<T> {
        self.records@
    }

    closed spec fn cap(&self) -> nat {
        self.capacity as nat
    }

    proof fn lemma_wf(&self) {
    }

    fn capacity(&self) -> (n: usize) {
        self.capacity
    }

    fn length(&self) -> (n: usize) {
        self.length
    }

    fn remaining(&self) -> (n: usize) {
        self.capacity - self.length
    }

    fn trim(&mut self, len: usize) {
        let size = T::size();
        proof {
            lemma_mul_le(len as nat, old(self).length as nat, size as nat);
            lemma_mul_le(old(self).length as nat, old(self).capacity as nat, size as nat);
        }
        let start = len * size;
        let end = self.length * size;
        self.mem.copy_to_front(start, end);
        self.length = self.length - len;
        proof {
            let ghost old_recs = self.records@;
            self.records@ = self.records@.skip(len as int);
            let s = T::spec_size() as int;
            lemma_encode_len(old_recs);
            lemma_encode_skip(old_recs, len as int);
            let old_len = old(self).length as int;
            assert((old_len - len) * s == old_len * s - len * s) by (nonlinear_arith);
            assert(self.mem.contents().subrange(0, self.length * s) =~= spec_encode(
                self.records@,
            ));
        }
    }

    fn extend(&mut self, records: &[T]) {
        let size = T::size();
        let k = records.len();
        proof {
            lemma_mul_le(old(self).length as nat, old(self).capacity as nat, size as nat);
            lemma_mul_le((old(self).length + k) as nat, old(self).capacity as nat, size as nat);
        }
        let offset = self.length * size;
        let bytes = to_bytes_slice(records);
        proof {
            lemma_encode_len(records@);
            let old_len = old(self).length as int;
            assert((old_len + k) * size == old_len * size + k * size) by (nonlinear_arith);
        }
        self.mem.write(offset, bytes.as_slice());
        self.length = self.length + k;
        proof {
            let ghost old_recs = self.records@;
            self.records@ = self.records@ + records@;
            let s = T::spec_size() as int;
            lemma_encode_len(old_recs);
            lemma_encode_app(old_recs, records@);
            assert(self.mem.contents().subrange(0, self.length * s) =~= spec_encode(
                self.records@,
            ));
        }
    }

    fn clear(&mut self) {
        self.length = 0;
        proof {
            self.records@ = Seq::<T>::empty();
            assert(spec_encode(Seq::<T>::empty()) =~= Seq::<u8>::empty());
            assert(self.mem.contents().subrange(0, 0) =~= Seq::<u8>::empty());
        }
    }

    fn records(&self) -> (out: Vec<T>) {
        let size = T::size();
        proof {
            lemma_mul_le(self.length as nat, self.capacity as nat, size as nat);
        }
        let end = self.length * size;
        let bytes = self.mem.read_range(0, end);
        proof {
            lemma_slice_round_trip(self.records@);
            lemma_encode_len(self.records@);
            assert(bytes@ =~= spec_encode(self.records@));
        }
        let out = from_bytes_slice::<T>(bytes.as_slice());
        proof {
            let s = T::spec_size() as int;
            T::lemma_size_pos();
            assert(out@.len() == self.records@.len()) by (nonlinear_arith)
                requires
                    out@.len() * s == self.records@.len() * s,
                    s > 0,
            ;
            let decoded = Seq::new(self.records@.len(), |i: int| T::spec_from_bytes(
                spec_encode(self.records@).subrange(i * s, (i + 1) * s),
            ));
            assert forall|i: int| 0 <= i < out@.len() implies out@[i] == self.records@[i] by {
                assert(out@[i] == T::spec_from_bytes(bytes@.subrange(i * s, (i + 1) * s)));
                assert(decoded[i] == self.records@[i]);
            }
            assert(out@ =~= self.records@);
        }
        out
    }
}

proof fn lemma_mul_le(a: nat, b: nat, s: nat)
    requires
        a <= b,
    ensures
        a * s <= b * s,
{
    assert(a <= b ==> a * s <= b * s) by (nonlinear_arith);
}

} // verus!
