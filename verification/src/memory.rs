//! Bounded byte arenas that back the record storage engines.
//!
//! A [`Memory`] is a preallocated, fixed-size byte region. Two backings are
//! provided: [`OnHeap`] allocates through the global allocator, and
//! [`OffHeap`] reserves an anonymous, prefaulted page mapping, intended for
//! very large regions. Neither region is ever resized after construction.

use vstd::prelude::*;
use vstd::slice::slice_index_get;

verus! {

/// A fixed-size, byte-addressed memory region.
///
/// The length of the region is fixed at construction: every operation
/// preserves `contents().len()`.
pub trait Memory: Sized {
    /// The bytes currently held in the region.
    spec fn contents(&self) -> Seq<u8>;

    /// Number of bytes in the region.
    fn len(&self) -> (n: usize)
        ensures
            n == self.contents().len(),
    ;

    /// Overwrite the bytes at `offset..offset + src.len()` with `src`.
    fn write(&mut self, offset: usize, src: &[u8])
        requires
            offset + src@.len() <= old(self).contents().len(),
        ensures
            final(self).contents() == old(self).contents().subrange(0, offset as int) + src@
                + old(self).contents().skip(offset + src@.len()),
    ;

    /// Copy the byte range `start..end` to the front of the region, leaving
    /// the bytes from `end - start` onward unchanged.
    fn copy_to_front(&mut self, start: usize, end: usize)
        requires
            start <= end <= old(self).contents().len(),
        ensures
            final(self).contents() == old(self).contents().subrange(start as int, end as int)
                + old(self).contents().skip(end - start),
    ;

    /// Read the byte range `start..end` out of the region.
    fn read_range(&self, start: usize, end: usize) -> (out: Vec<u8>)
        requires
            start <= end <= self.contents().len(),
        ensures
            out@ == self.contents().subrange(start as int, end as int),
    ;
}

/// Memory allocated from the process's global allocator.
pub struct OnHeap {
    bytes: Vec<u8>,
}

impl OnHeap {
    /// Allocate a zero-filled region of `capacity` bytes on the heap.
    pub fn allocate(capacity: usize) -> (m: OnHeap)
        ensures
            m.contents() == Seq::new(capacity as nat, |i: int| 0u8),
    {
        let mut bytes: Vec<u8> = Vec::new();
        let mut i: usize = 0;
        while i < capacity
            invariant
                i <= capacity,
                bytes@.len() == i,
                forall|j: int| 0 <= j < i ==> bytes@[j] == 0u8,
            decreases capacity - i,
        {
            bytes.push(0u8);
            i = i + 1;
        }
        proof {
            assert(bytes@ =~= Seq::new(capacity as nat, |i: int| 0u8));
        }
        OnHeap { bytes }
    }
}

impl Memory for OnHeap {
    closed spec fn contents(&self) -> Seq<u8> {
        self.bytes@
    }

    fn len(&self) -> (n: usize) {
        self.bytes.len()
    }

    fn write(&mut self, offset: usize, src: &[u8]) {
        let count: usize = src.len();
        let total: usize = self.bytes.len();
        let mut i: usize = 0;
        while i < count
            invariant
                i <= count,
                count == src@.len(),
                offset + count <= total,
                total == self.bytes@.len(),
                self.bytes@.len() == old(self).bytes@.len(),
                forall|j: int| 0 <= j < i ==> self.bytes@[offset + j] == src@[j],
                forall|j: int|
                    0 <= j < self.bytes@.len() && !(offset <= j < offset + i)
                        ==> self.bytes@[j] == old(self).bytes@[j],
            decreases count - i,
        {
            let b = *slice_index_get(src, i);
            self.bytes.set(offset + i, b);
            i = i + 1;
        }
        proof {
            assert(self.contents() =~= old(self).contents().subrange(0, offset as int) + src@
                + old(self).contents().skip(offset + src@.len()));
        }
    }

    fn copy_to_front(&mut self, start: usize, end: usize) {
        let count: usize = end - start;
        let total: usize = self.bytes.len();
        let mut i: usize = 0;
        while i < count
            invariant
                i <= count,
                count == end - start,
                start <= end <= total,
                total == self.bytes@.len(),
                self.bytes@.len() == old(self).bytes@.len(),
                forall|j: int| 0 <= j < i ==> self.bytes@[j] == old(self).bytes@[start + j],
                forall|j: int| i <= j < self.bytes@.len() ==> self.bytes@[j] == old(self).bytes@[j],
            decreases count - i,
        {
            let b = self.bytes[start + i];
            self.bytes.set(i, b);
            i = i + 1;
        }
        proof {
            assert(self.contents() =~= old(self).contents().subrange(start as int, end as int)
                + old(self).contents().skip(end - start));
        }
    }

    fn read_range(&self, start: usize, end: usize) -> (out: Vec<u8>) {
        let mut out: Vec<u8> = Vec::new();
        let mut i: usize = start;
        while i < end
            invariant
                start <= i <= end,
                end <= self.bytes@.len(),
                out@ == self.bytes@.subrange(start as int, i as int),
            decreases end - i,
        {
            let b = self.bytes[i];
            out.push(b);
            proof {
                assert(out@ =~= self.bytes@.subrange(start as int, i + 1));
            }
            i = i + 1;
        }
        out
    }
}

#[verifier::external_type_specification]
#[verifier::external_body]
pub struct ExMmapMut(memmap2::MmapMut);

/// The bytes held in an anonymous memory mapping.
pub uninterp spec fn mmap_contents(map: memmap2::MmapMut) -> Seq<u8>;

/// Relies on memmap2::MmapOptions: `map_anon` on options configured with
/// `len(len)` and `populate()` yields an anonymous, prefaulted, private
/// mapping of exactly `len` bytes. Aborts if the mapping cannot be created.
#[verifier::external_body]
fn mmap_alloc(len: usize) -> (map: memmap2::MmapMut)
    requires
        len > 0,
    ensures
        mmap_contents(map).len() == len,
{
    memmap2::MmapOptions::new()
        .len(len)
        .populate()
        .map_anon()
        .expect("Cannot allocate anonymous mmap")
}

/// Relies on memmap2::MmapMut's `DerefMut` to `[u8]`: overwrites the bytes at
/// `offset..offset + src.len()` with `src` and changes nothing else.
#[verifier::external_body]
fn mmap_write(map: &mut memmap2::MmapMut, offset: usize, src: &[u8])
    requires
        offset + src@.len() <= mmap_contents(*old(map)).len(),
    ensures
        mmap_contents(*final(map)) == mmap_contents(*old(map)).subrange(0, offset as int) + src@
            + mmap_contents(*old(map)).skip(offset + src@.len()),
{
    map[offset..offset + src.len()].copy_from_slice(src);
}

/// Relies on memmap2::MmapMut's `DerefMut` to `[u8]` and
/// `slice::copy_within`: moves the bytes at `start..end` to the front of the
/// mapping and changes nothing else.
#[verifier::external_body]
fn mmap_copy_to_front(map: &mut memmap2::MmapMut, start: usize, end: usize)
    requires
        start <= end <= mmap_contents(*old(map)).len(),
    ensures
        mmap_contents(*final(map)) == mmap_contents(*old(map)).subrange(start as int, end as int)
            + mmap_contents(*old(map)).skip(end - start),
{
    map.copy_within(start..end, 0);
}

/// Relies on memmap2::MmapMut's `Deref` to `[u8]`: reads the bytes at
/// `start..end` out of the mapping.
#[verifier::external_body]
fn mmap_read_range(map: &memmap2::MmapMut, start: usize, end: usize) -> (out: Vec<u8>)
    requires
        start <= end <= mmap_contents(*map).len(),
    ensures
        out@ == mmap_contents(*map).subrange(start as int, end as int),
{
    map[start..end].to_vec()
}

/// Relies on memmap2::MmapMut::len: the length of the mapping in bytes.
#[verifier::external_body]
fn mmap_len(map: &memmap2::MmapMut) -> (n: usize)
    ensures
        n == mmap_contents(*map).len(),
{
    map.len()
}

/// Memory reserved through an anonymous, private page mapping.
///
/// Pages are prefaulted at construction so that writes do not incur page
/// faults afterwards. The mapping is released when the value is dropped.
pub struct OffHeap {
    map: memmap2::MmapMut,
}

impl OffHeap {
    /// Reserve a page-aligned region of `capacity` bytes.
    pub fn allocate(capacity: usize) -> (m: OffHeap)
        requires
            capacity > 0,
        ensures
            m.contents().len() == capacity,
    {
        OffHeap { map: mmap_alloc(capacity) }
    }
}

impl Memory for OffHeap {
    closed spec fn contents(&self) -> Seq<u8> {
        mmap_contents(self.map)
    }

    fn len(&self) -> (n: usize) {
        mmap_len(&self.map)
    }

    fn write(&mut self, offset: usize, src: &[u8]) {
        mmap_write(&mut self.map, offset, src);
    }

    fn copy_to_front(&mut self, start: usize, end: usize) {
        mmap_copy_to_front(&mut self.map, start, end);
    }

    fn read_range(&self, start: usize, end: usize) -> (out: Vec<u8>) {
        mmap_read_range(&self.map, start, end)
    }
}

} // verus!
