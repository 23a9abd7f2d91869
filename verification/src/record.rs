//! Fixed-size records with a verified byte encoding.
//!
//! A [`Record`] is a fixed-size, trivially-copyable value with a compile-time
//! known byte footprint. Every record encodes to exactly `spec_size()` bytes,
//! and decoding inverts encoding. The byte-addressed storage engines use this
//! contract to lay records out in flat byte arenas.

use vstd::bytes::lemma_auto_spec_u16_to_from_le_bytes;
use vstd::bytes::lemma_auto_spec_u32_to_from_le_bytes;
use vstd::bytes::lemma_auto_spec_u64_to_from_le_bytes;
use vstd::bytes::spec_u16_from_le_bytes;
use vstd::bytes::spec_u16_to_le_bytes;
use vstd::bytes::spec_u32_from_le_bytes;
use vstd::bytes::spec_u32_to_le_bytes;
use vstd::bytes::spec_u64_from_le_bytes;
use vstd::bytes::spec_u64_to_le_bytes;
use vstd::bytes::u16_from_le_bytes;
use vstd::bytes::u16_to_le_bytes;
use vstd::bytes::u32_from_le_bytes;
use vstd::bytes::u32_to_le_bytes;
use vstd::bytes::u64_from_le_bytes;
use vstd::bytes::u64_to_le_bytes;
use vstd::prelude::*;
use vstd::slice::slice_index_get;
use vstd::slice::slice_subrange;

verus! {

/// Fixed-size type with a compile-time known size and byte encoding.
///
/// Encoding one record always yields exactly `Self::spec_size()` bytes, and
/// decoding those bytes yields the record back. Encodings of slices are the
/// concatenation of the encodings of the elements, with no gaps.
pub trait Record: Sized + Copy {
    /// Size of one encoded record, in bytes.
    spec fn spec_size() -> nat;

    /// The byte encoding of this record.
    spec fn spec_to_bytes(self) -> Seq<u8>;

    /// The record denoted by a span of `spec_size()` bytes.
    spec fn spec_from_bytes(bytes: Seq<u8>) -> Self;

    /// A record occupies at least one byte.
    proof fn lemma_size_pos()
        ensures
            Self::spec_size() > 0,
    ;

    /// An encoded record is exactly `spec_size()` bytes long.
    proof fn lemma_to_bytes_len(r: Self)
        ensures
            r.spec_to_bytes().len() == Self::spec_size(),
    ;

    /// Decoding inverts encoding.
    proof fn lemma_round_trip(r: Self)
        ensures
            Self::spec_from_bytes(r.spec_to_bytes()) == r,
    ;

    /// Size of the record.
    fn size() -> (n: usize)
        ensures
            n == Self::spec_size(),
            n > 0,
    ;

    /// Encode a record to bytes.
    fn to_bytes(record: &Self) -> (bytes: Vec<u8>)
        ensures
            bytes@ == record.spec_to_bytes(),
            bytes@.len() == Self::spec_size(),
    ;

    /// Decode a record from exactly `spec_size()` bytes.
    fn from_bytes(bytes: &[u8]) -> (r: Self)
        requires
            bytes@.len() == Self::spec_size(),
        ensures
            r == Self::spec_from_bytes(bytes@),
    ;

}

/// Encode a slice of records to the concatenation of their encodings.
pub fn to_bytes_slice<T: Record>(records: &[T]) -> (bytes: Vec<u8>)
    ensures
        bytes@ == spec_encode(records@),
{
    let n: usize = records.len();
    let mut out: Vec<u8> = Vec::new();
    let mut i: usize = 0;
    while i < n
        invariant
            i <= n,
            n == records@.len(),
            out@ == spec_encode(records@.take(i as int)),
        decreases n - i,
    {
        let mut piece = T::to_bytes(slice_index_get(records, i));
        out.append(&mut piece);
        proof {
            assert(records@.take(i + 1) =~= records@.take(i as int) + seq![records@[i as int]]);
            lemma_encode_app(records@.take(i as int), seq![records@[i as int]]);
            lemma_encode_singleton(records@[i as int]);
        }
        i = i + 1;
    }
    proof {
        assert(records@.take(n as int) =~= records@);
    }
    out
}

/// Decode a slice of `bytes.len() / spec_size()` records from bytes.
pub fn from_bytes_slice<T: Record>(bytes: &[u8]) -> (records: Vec<T>)
    requires
        bytes@.len() % T::spec_size() == 0,
    ensures
        records@.len() * T::spec_size() == bytes@.len(),
        forall|i: int|
            0 <= i < records@.len() ==> records@[i] == T::spec_from_bytes(
                #[trigger] bytes@.subrange(i * T::spec_size(), (i + 1) * T::spec_size()),
            ),
{
    let size: usize = T::size();
    let total: usize = bytes.len();
    let n: usize = total / size;
    proof {
        lemma_div_exact(total as nat, size as nat);
    }
    let mut out: Vec<T> = Vec::new();
    let mut i: usize = 0;
    while i < n
        invariant
            i <= n,
            size == T::spec_size(),
            total == bytes@.len(),
            n * size == total,
            out@.len() == i,
            forall|j: int|
                0 <= j < i ==> out@[j] == T::spec_from_bytes(
                    #[trigger] bytes@.subrange(j * size, (j + 1) * size),
                ),
        decreases n - i,
    {
        proof {
            lemma_chunk_in_bounds(n as nat, size as nat, i as nat);
        }
        let chunk = slice_subrange(bytes, i * size, i * size + size);
        let r = T::from_bytes(chunk);
        out.push(r);
        proof {
            assert(i * size + size == (i + 1) * size) by (nonlinear_arith);
        }
        i = i + 1;
    }
    out
}

/// The concatenation of the encodings of a sequence of records.
pub open spec fn spec_encode<T: Record>(records: Seq<T>) -> Seq<u8>
    decreases records.len(),
{
    if records.len() == 0 {
        Seq::empty()
    } else {
        records[0].spec_to_bytes() + spec_encode(records.skip(1))
    }
}

/// The encoding of a single record is that record's bytes.
pub proof fn lemma_encode_singleton<T: Record>(r: T)
    ensures
        spec_encode(seq![r]) == r.spec_to_bytes(),
{
    let s = seq![r];
    assert(s.skip(1) =~= Seq::<T>::empty());
    assert(spec_encode(s.skip(1)) =~= Seq::<u8>::empty());
    assert(spec_encode(s) =~= r.spec_to_bytes());
}

/// An encoded sequence is `len * spec_size()` bytes long.
pub proof fn lemma_encode_len<T: Record>(records: Seq<T>)
    ensures
        spec_encode(records).len() == records.len() * T::spec_size(),
    decreases records.len(),
{
    if records.len() == 0 {
    } else {
        T::lemma_to_bytes_len(records[0]);
        lemma_encode_len::<T>(records.skip(1));
        assert(T::spec_size() + (records.len() - 1) * T::spec_size() == records.len()
            * T::spec_size()) by (nonlinear_arith);
    }
}

/// Encoding distributes over concatenation.
pub proof fn lemma_encode_app<T: Record>(a: Seq<T>, b: Seq<T>)
    ensures
        spec_encode(a + b) == spec_encode(a) + spec_encode(b),
    decreases a.len(),
{
    if a.len() == 0 {
        assert(a + b =~= b);
        assert(spec_encode(a) + spec_encode(b) =~= spec_encode(b));
    } else {
        assert((a + b).skip(1) =~= a.skip(1) + b);
        lemma_encode_app(a.skip(1), b);
        assert(a[0].spec_to_bytes() + (spec_encode(a.skip(1)) + spec_encode(b)) =~= (
        a[0].spec_to_bytes() + spec_encode(a.skip(1))) + spec_encode(b));
        assert((a + b)[0] == a[0]);
    }
}

/// The bytes of record `i` sit at offset `i * spec_size()` in the encoding.
pub proof fn lemma_encode_chunk<T: Record>(records: Seq<T>, i: int)
    requires
        0 <= i < records.len(),
    ensures
        spec_encode(records).subrange(i * T::spec_size(), (i + 1) * T::spec_size())
            == records[i].spec_to_bytes(),
{
    let size = T::spec_size() as int;
    let front = records.take(i);
    let mid = seq![records[i]];
    let back = records.skip(i + 1);
    assert(records =~= front + mid + back);
    lemma_encode_app(front + mid, back);
    lemma_encode_app(front, mid);
    lemma_encode_len(front);
    lemma_encode_len(mid);
    T::lemma_to_bytes_len(records[i]);
    lemma_encode_singleton(records[i]);
    assert(i * size + size == (i + 1) * size) by (nonlinear_arith);
    assert(spec_encode(records).subrange(i * size, (i + 1) * size) =~= records[i].spec_to_bytes());
}

/// Encoding a suffix of records is the matching suffix of the encoding.
pub proof fn lemma_encode_skip<T: Record>(records: Seq<T>, k: int)
    requires
        0 <= k <= records.len(),
    ensures
        spec_encode(records.skip(k)) == spec_encode(records).skip(k * T::spec_size()),
{
    let front = records.take(k);
    let back = records.skip(k);
    assert(records =~= front + back);
    lemma_encode_app(front, back);
    lemma_encode_len(front);
    assert(spec_encode(records).skip(k * T::spec_size()) =~= spec_encode(back));
}

proof fn lemma_div_exact(total: nat, size: nat)
    requires
        size > 0,
        total % size == 0,
    ensures
        (total / size) * size == total,
{
    assert(size > 0 && total % size == 0 ==> (total / size) * size == total) by (nonlinear_arith);
}

proof fn lemma_chunk_in_bounds(n: nat, size: nat, i: nat)
    requires
        i < n,
    ensures
        i * size + size <= n * size,
        i * size <= i * size + size,
{
    assert(i < n ==> i * size + size <= n * size) by (nonlinear_arith);
}

impl Record for u64 {
    open spec fn spec_size() -> nat {
        8
    }

    open spec fn spec_to_bytes(self) -> Seq<u8> {
        spec_u64_to_le_bytes(self)
    }

    open spec fn spec_from_bytes(bytes: Seq<u8>) -> Self {
        spec_u64_from_le_bytes(bytes)
    }

    proof fn lemma_size_pos() {
    }

    proof fn lemma_to_bytes_len(r: Self) {
        lemma_auto_spec_u64_to_from_le_bytes();
    }

    proof fn lemma_round_trip(r: Self) {
        lemma_auto_spec_u64_to_from_le_bytes();
    }

    fn size() -> (n: usize) {
        proof {
            lemma_auto_spec_u64_to_from_le_bytes();
        }
        8
    }

    fn to_bytes(record: &Self) -> (bytes: Vec<u8>) {
        u64_to_le_bytes(*record)
    }

    fn from_bytes(bytes: &[u8]) -> (r: Self) {
        u64_from_le_bytes(bytes)
    }
}

impl Record for u32 {
    open spec fn spec_size() -> nat {
        4
    }

    open spec fn spec_to_bytes(self) -> Seq<u8> {
        spec_u32_to_le_bytes(self)
    }

    open spec fn spec_from_bytes(bytes: Seq<u8>) -> Self {
        spec_u32_from_le_bytes(bytes)
    }

    proof fn lemma_size_pos() {
    }

    proof fn lemma_to_bytes_len(r: Self) {
        lemma_auto_spec_u32_to_from_le_bytes();
    }

    proof fn lemma_round_trip(r: Self) {
        lemma_auto_spec_u32_to_from_le_bytes();
        assert(spec_u32_to_le_bytes(r).len() == 4);
    }

    fn size() -> (n: usize) {
        proof {
            lemma_auto_spec_u32_to_from_le_bytes();
        }
        4
    }

    fn to_bytes(record: &Self) -> (bytes: Vec<u8>) {
        u32_to_le_bytes(*record)
    }

    fn from_bytes(bytes: &[u8]) -> (r: Self) {
        u32_from_le_bytes(bytes)
    }
}

impl Record for u16 {
    open spec fn spec_size() -> nat {
        2
    }

    open spec fn spec_to_bytes(self) -> Seq<u8> {
        spec_u16_to_le_bytes(self)
    }

    open spec fn spec_from_bytes(bytes: Seq<u8>) -> Self {
        spec_u16_from_le_bytes(bytes)
    }

    proof fn lemma_size_pos() {
    }

    proof fn lemma_to_bytes_len(r: Self) {
        lemma_auto_spec_u16_to_from_le_bytes();
    }

    proof fn lemma_round_trip(r: Self) {
        lemma_auto_spec_u16_to_from_le_bytes();
        assert(spec_u16_to_le_bytes(r).len() == 2);
    }

    fn size() -> (n: usize) {
        proof {
            lemma_auto_spec_u16_to_from_le_bytes();
        }
        2
    }

    fn to_bytes(record: &Self) -> (bytes: Vec<u8>) {
        u16_to_le_bytes(*record)
    }

    fn from_bytes(bytes: &[u8]) -> (r: Self) {
        u16_from_le_bytes(bytes)
    }
}

impl Record for u8 {
    open spec fn spec_size() -> nat {
        1
    }

    open spec fn spec_to_bytes(self) -> Seq<u8> {
        seq![self]
    }

    open spec fn spec_from_bytes(bytes: Seq<u8>) -> Self {
        bytes[0]
    }

    proof fn lemma_size_pos() {
    }

    proof fn lemma_to_bytes_len(r: Self) {
    }

    proof fn lemma_round_trip(r: Self) {
    }

    fn size() -> (n: usize) {
        1
    }

    fn to_bytes(record: &Self) -> (bytes: Vec<u8>) {
        let mut bytes: Vec<u8> = Vec::new();
        bytes.push(*record);
        proof {
            assert(bytes@ =~= record.spec_to_bytes());
        }
        bytes
    }

    fn from_bytes(bytes: &[u8]) -> (r: Self) {
        *slice_index_get(bytes, 0)
    }
}

impl Record for i64 {
    open spec fn spec_size() -> nat {
        8
    }

    open spec fn spec_to_bytes(self) -> Seq<u8> {
        spec_u64_to_le_bytes(self as u64)
    }

    open spec fn spec_from_bytes(bytes: Seq<u8>) -> Self {
        spec_u64_from_le_bytes(bytes) as i64
    }

    proof fn lemma_size_pos() {
    }

    proof fn lemma_to_bytes_len(r: Self) {
        lemma_auto_spec_u64_to_from_le_bytes();
        assert(spec_u64_to_le_bytes(r as u64).len() == 8);
    }

    proof fn lemma_round_trip(r: Self) {
        lemma_auto_spec_u64_to_from_le_bytes();
        assert(spec_u64_to_le_bytes(r as u64).len() == 8);
        assert(((r as u64) as i64) == r) by (bit_vector);
    }

    fn size() -> (n: usize) {
        proof {
            lemma_auto_spec_u64_to_from_le_bytes();
        }
        8
    }

    fn to_bytes(record: &Self) -> (bytes: Vec<u8>) {
        u64_to_le_bytes(*record as u64)
    }

    fn from_bytes(bytes: &[u8]) -> (r: Self) {
        u64_from_le_bytes(bytes) as i64
    }
}

impl Record for i32 {
    open spec fn spec_size() -> nat {
        4
    }

    open spec fn spec_to_bytes(self) -> Seq<u8> {
        spec_u32_to_le_bytes(self as u32)
    }

    open spec fn spec_from_bytes(bytes: Seq<u8>) -> Self {
        spec_u32_from_le_bytes(bytes) as i32
    }

    proof fn lemma_size_pos() {
    }

    proof fn lemma_to_bytes_len(r: Self) {
        lemma_auto_spec_u32_to_from_le_bytes();
        assert(spec_u32_to_le_bytes(r as u32).len() == 4);
    }

    proof fn lemma_round_trip(r: Self) {
        lemma_auto_spec_u32_to_from_le_bytes();
        assert(spec_u32_to_le_bytes(r as u32).len() == 4);
        assert(((r as u32) as i32) == r) by (bit_vector);
    }

    fn size() -> (n: usize) {
        proof {
            lemma_auto_spec_u32_to_from_le_bytes();
        }
        4
    }

    fn to_bytes(record: &Self) -> (bytes: Vec<u8>) {
        u32_to_le_bytes(*record as u32)
    }

    fn from_bytes(bytes: &[u8]) -> (r: Self) {
        u32_from_le_bytes(bytes) as i32
    }
}

/// A record that carries a 64-bit sequence number used to order it.
pub trait SeqRecord: Sized {
    /// The sequence number of this record.
    spec fn spec_seq_no(self) -> u64;

    /// Sequence number of the record.
    fn seq_no(&self) -> (n: u64)
        ensures
            n == self.spec_seq_no(),
    ;
}

impl SeqRecord for u64 {
    open spec fn spec_seq_no(self) -> u64 {
        self
    }

    fn seq_no(&self) -> (n: u64) {
        *self
    }
}

/// Round trip over record slices: decoding an encoded slice yields the
/// records that were encoded.
pub proof fn lemma_slice_round_trip<T: Record>(records: Seq<T>)
    ensures
        spec_encode(records).len() % T::spec_size() == 0,
        ({
            let bytes = spec_encode(records);
            Seq::new(records.len(), |i: int| T::spec_from_bytes(
                bytes.subrange(i * T::spec_size(), (i + 1) * T::spec_size()),
            )) == records
        }),
{
    let size = T::spec_size();
    let bytes = spec_encode(records);
    T::lemma_size_pos();
    lemma_encode_len(records);
    assert(records.len() * size % size == 0) by (nonlinear_arith)
        requires size > 0,
    ;
    let decoded = Seq::new(records.len(), |i: int| T::spec_from_bytes(
        bytes.subrange(i * size, (i + 1) * size),
    ));
    assert forall|i: int| 0 <= i < records.len() implies decoded[i] == records[i] by {
        lemma_encode_chunk(records, i);
        T::lemma_round_trip(records[i]);
    }
    assert(decoded =~= records);
}

} // verus!
