//! A fixed-capacity ring buffer that stores its records in a byte arena.
//!
//! Unlike the record-typed ring, this variant writes encoded records straight
//! into a flat [`Memory`] region: a bulk append is two contiguous byte
//! writes, one from the write cursor to the physical end of the arena and one
//! for the wrap-around.

use crate::hadron::lemma_ring_evolve_drop;
use crate::hadron::ring_evolve;
use crate::memory::Memory;
use crate::memory::OnHeap;
use crate::record::from_bytes_slice;
use crate::record::lemma_encode_chunk;
use crate::record::lemma_encode_len;
use crate::record::spec_encode;
use crate::record::to_bytes_slice;
use crate::record::Record;
use vstd::prelude::*;
use vstd::slice::slice_subrange;

verus! {

/// A record that can be stored in the byte-addressed ring.
///
/// The byte contract itself lives on [`Record`]; every record is an item.
pub trait Item: Record {
}

impl<T: Record> Item for T {
}

/// `phys` with the cells `pos..pos + vals.len()` replaced by `vals`.
pub open spec fn store_range<T>(phys: Seq<T>, pos: int, vals: Seq<T>) -> Seq<T> {
    Seq::new(
        phys.len(),
        |i: int|
            if pos <= i < pos + vals.len() {
                vals[i - pos]
            } else {
                phys[i]
            },
    )
}

/// Writing the encoding of `vals` at cell `pos` of a chunked byte region
/// updates exactly the chunks `pos..pos + vals.len()`.
proof fn lemma_write_chunks<T: Record>(
    old_bytes: Seq<u8>,
    new_bytes: Seq<u8>,
    pos: int,
    vals: Seq<T>,
    cap: int,
)
    requires
        old_bytes.len() == cap * T::spec_size(),
        0 <= pos,
        pos + vals.len() <= cap,
        new_bytes == old_bytes.subrange(0, pos * T::spec_size()) + spec_encode(vals)
            + old_bytes.skip(pos * T::spec_size() + vals.len() * T::spec_size()),
    ensures
        new_bytes.len() == old_bytes.len(),
        forall|i: int|
            pos <= i < pos + vals.len() ==> #[trigger] new_bytes.subrange(
                i * T::spec_size(),
                (i + 1) * T::spec_size(),
            ) == vals[i - pos].spec_to_bytes(),
        forall|i: int|
            0 <= i < cap && !(pos <= i < pos + vals.len()) ==> #[trigger] new_bytes.subrange(
                i * T::spec_size(),
                (i + 1) * T::spec_size(),
            ) == old_bytes.subrange(i * T::spec_size(), (i + 1) * T::spec_size()),
{
    let s = T::spec_size() as int;
    T::lemma_size_pos();
    lemma_encode_len(vals);
    assert(pos * s + vals.len() * s <= cap * s) by (nonlinear_arith)
        requires
            pos + vals.len() <= cap,
            s >= 0,
    ;
    assert(new_bytes.len() == old_bytes.len());
    assert forall|i: int| pos <= i < pos + vals.len() implies #[trigger] new_bytes.subrange(
        i * s,
        (i + 1) * s,
    ) == vals[i - pos].spec_to_bytes() by {
        lemma_encode_chunk(vals, i - pos);
        assert((i - pos) * s == i * s - pos * s) by (nonlinear_arith);
        assert((i - pos + 1) * s == (i + 1) * s - pos * s) by (nonlinear_arith);
        assert(pos * s <= i * s && (i + 1) * s <= pos * s + vals.len() * s) by (nonlinear_arith)
            requires
                pos <= i < pos + vals.len(),
                s >= 0,
        ;
        assert(i * s <= (i + 1) * s) by (nonlinear_arith)
            requires
                s >= 0,
        ;
        let chunk = spec_encode(vals).subrange(i * s - pos * s, (i + 1) * s - pos * s);
        assert(new_bytes.subrange(i * s, (i + 1) * s) =~= chunk);
    }
    assert forall|i: int|
        0 <= i < cap && !(pos <= i < pos + vals.len()) implies #[trigger] new_bytes.subrange(
        i * s,
        (i + 1) * s,
    ) == old_bytes.subrange(i * s, (i + 1) * s) by {
        assert(i * s <= (i + 1) * s && 0 <= i * s && (i + 1) * s <= cap * s) by (nonlinear_arith)
            requires
                0 <= i < cap,
                s >= 0,
        ;
        if i < pos {
            assert((i + 1) * s <= pos * s) by (nonlinear_arith)
                requires
                    i + 1 <= pos,
                    s >= 0,
            ;
            assert(new_bytes.subrange(i * s, (i + 1) * s) =~= old_bytes.subrange(
                i * s,
                (i + 1) * s,
            ));
        } else {
            assert(pos * s + vals.len() * s <= i * s) by (nonlinear_arith)
                requires
                    pos + vals.len() <= i,
                    s >= 0,
            ;
            assert(new_bytes.subrange(i * s, (i + 1) * s) =~= old_bytes.subrange(
                i * s,
                (i + 1) * s,
            ));
        }
    }
}

/// A fixed-capacity ring buffer over a byte arena.
///
/// Cell `i` of the arena holds one encoded record at bytes
/// `i * size..(i + 1) * size`. Appends overwrite the oldest cells once the
/// ring is full.
pub struct Hadron<T, M = OnHeap> {
    // Cell index where the next append will begin writing.
    next: usize,
    // Number of records currently held in the ring buffer.
    length: usize,
    // Maximum number of records the ring buffer can hold.
    capacity: usize,
    // Preallocated memory for the ring buffer records.
    memory: M,
    // The record each live cell holds, as ghost state tied to the arena
    // bytes by the ring invariant.
    records: Ghost<Seq<T>>,
}

impl<T: Item, M: Memory> Hadron<T, M> {
    /// Whether cell `i` currently holds a live record.
    pub closed spec fn cell_live(&self, i: int) -> bool {
        if self.length < self.capacity {
            i < self.length
        } else {
            true
        }
    }

    /// Well-formedness of the ring's internal state.
    pub closed spec fn wf(&self) -> bool {
        &&& self.capacity > 0
        &&& self.records@.len() == self.capacity
        &&& self.length <= self.capacity
        &&& self.next < self.capacity
        &&& self.length < self.capacity ==> self.next == self.length
        &&& self.capacity * T::spec_size() <= usize::MAX
        &&& self.memory.contents().len() == self.capacity * T::spec_size()
        &&& forall|i: int|
            0 <= i < self.capacity && self.cell_live(i) ==> #[trigger] self.memory.contents().subrange(
                i * T::spec_size(),
                (i + 1) * T::spec_size(),
            ) == self.records@[i].spec_to_bytes()
    }

    /// Maximum number of records the ring can hold.
    pub closed spec fn spec_capacity(&self) -> nat {
        self.capacity as nat
    }

    /// Offset of the wrap point from the end of the live records.
    pub closed spec fn spec_next(&self) -> nat {
        self.next as nat
    }

    /// A well-formed ring holds at most `spec_capacity()` records.
    pub proof fn lemma_wf(&self)
        requires
            self.wf(),
        ensures
            self@.len() <= self.spec_capacity(),
            self.spec_capacity() > 0,
    {
    }

    /// Decode the records held in cells `from..to`.
    fn decode_cells(&self, from: usize, to: usize) -> (out: Vec<T>)
        requires
            self.wf(),
            from <= to <= self.capacity,
            forall|i: int| from <= i < to ==> self.cell_live(i),
        ensures
            out@ == self.records@.subrange(from as int, to as int),
    {
        let size = T::size();
        proof {
            lemma_cell_mul_bounds(from as nat, to as nat, self.capacity as nat, size as nat);
        }
        let bytes = self.memory.read_range(from * size, to * size);
        proof {
            let s = size as int;
            let count = to - from;
            T::lemma_size_pos();
            assert(bytes@.len() == count * s) by (nonlinear_arith)
                requires
                    bytes@.len() == to * s - from * s,
                    count == to - from,
            ;
            assert(count * s % s == 0) by (nonlinear_arith)
                requires
                    s > 0,
            ;
        }
        let out = from_bytes_slice::<T>(bytes.as_slice());
        proof {
            let s = size as int;
            let count = to - from;
            assert(out@.len() == count) by (nonlinear_arith)
                requires
                    out@.len() * s == count * s,
                    s > 0,
            ;
            assert forall|j: int| 0 <= j < count implies out@[j] == self.records@[from + j] by {
                let i = from + j;
                assert(self.memory.contents().subrange(i * s, (i + 1) * s)
                    == self.records@[i].spec_to_bytes());
                assert(j * s == i * s - from * s && (j + 1) * s == (i + 1) * s - from * s)
                    by (nonlinear_arith)
                    requires
                        i == from + j,
                ;
                assert(from * s <= i * s && (i + 1) * s <= to * s) by (nonlinear_arith)
                    requires
                        from <= i,
                        i + 1 <= to,
                        s >= 0,
                ;
                assert(i * s <= (i + 1) * s) by (nonlinear_arith)
                    requires
                        s >= 0,
                ;
                assert(bytes@.subrange(j * s, (j + 1) * s) =~= self.memory.contents().subrange(
                    i * s,
                    (i + 1) * s,
                ));
                T::lemma_round_trip(self.records@[i]);
            }
            assert(out@ =~= self.records@.subrange(from as int, to as int));
        }
        out
    }

    /// The records currently stored in the ring, as a head and a tail batch.
    ///
    /// The live records are the concatenation of the two batches; while the
    /// ring has not wrapped around, the tail batch is empty.
    fn item_slices(&self) -> (r: (Vec<T>, Vec<T>))
        requires
            self.wf(),
        ensures
            r.0@ + r.1@ == self@,
            self@.len() < self.spec_capacity() ==> r.0@ == self@ && r.1@.len() == 0,
            self@.len() == self.spec_capacity() ==> r.0@ == self@.take(
                self.spec_capacity() - self.spec_next(),
            ) && r.1@ == self@.skip(self.spec_capacity() - self.spec_next()),
    {
        if self.length < self.capacity {
            let head = self.decode_cells(0, self.length);
            let tail: Vec<T> = Vec::new();
            proof {
                assert(head@ + tail@ =~= self@);
                assert(head@ =~= self@);
            }
            (head, tail)
        } else {
            let head = self.decode_cells(self.next, self.capacity);
            let tail = self.decode_cells(0, self.next);
            proof {
                assert(head@ + tail@ =~= self@);
                assert(head@ =~= self@.take(self.spec_capacity() - self.spec_next()));
                assert(tail@ =~= self@.skip(self.spec_capacity() - self.spec_next()));
            }
            (head, tail)
        }
    }

    /// Query records from the beginning of the ring buffer, copying at most
    /// `limit` of them into `buf`.
    ///
    /// `buf` is cleared first; records arrive in the order they were
    /// appended. No record is copied beyond the given limit.
    pub fn query_from_trim(&self, buf: &mut Vec<T>, limit: usize)
        requires
            self.wf(),
        ensures
            final(buf)@ == self@.take(if limit <= self@.len() {
                limit as int
            } else {
                self@.len() as int
            }),
    {
        buf.clear();
        let (head, tail) = self.item_slices();
        let take_head = if head.len() <= limit {
            head.len()
        } else {
            limit
        };
        let mut i: usize = 0;
        while i < take_head
            invariant
                i <= take_head,
                take_head <= head@.len(),
                buf@ == head@.take(i as int),
            decreases take_head - i,
        {
            buf.push(head[i]);
            proof {
                assert(buf@ =~= head@.take(i + 1));
            }
            i = i + 1;
        }
        let rem = limit - take_head;
        let take_tail = if tail.len() <= rem {
            tail.len()
        } else {
            rem
        };
        let mut j: usize = 0;
        while j < take_tail
            invariant
                j <= take_tail,
                take_tail <= tail@.len(),
                buf@ == head@.take(take_head as int) + tail@.take(j as int),
            decreases take_tail - j,
        {
            buf.push(tail[j]);
            proof {
                assert(buf@ =~= head@.take(take_head as int) + tail@.take(j + 1));
            }
            j = j + 1;
        }
        proof {
            let view = head@ + tail@;
            let want = if limit <= view.len() {
                limit as int
            } else {
                view.len() as int
            };
            assert(buf@ =~= view.take(want));
        }
    }
}

impl<T: Item, M: Memory> Hadron<T, M> {
    /// Append items into the ring buffer, overwriting the oldest records
    /// when the buffer is full.
    ///
    /// The append is two contiguous byte writes into the arena: one from the
    /// write cursor to the physical end, one for the wrap-around.
    #[verifier::rlimit(60)]
    pub fn append_from_slice(&mut self, items: &[T])
        requires
            old(self).wf(),
        ensures
            final(self).wf(),
            final(self).spec_capacity() == old(self).spec_capacity(),
            final(self)@ == ring_evolve(old(self)@, items@, old(self).spec_capacity()),
    {
        let size = T::size();
        let ghost cap = old(self).spec_capacity();
        let ghost s = size as int;
        let n = items.len();
        let items2: &[T] = if n > self.capacity {
            let dropped = slice_subrange(items, n - self.capacity, n);
            proof {
                lemma_ring_evolve_drop(old(self)@, items@, cap);
                assert(dropped@ =~= items@.skip(n - cap));
            }
            dropped
        } else {
            items
        };
        let k = items2.len();
        let ghost target = ring_evolve(old(self)@, items@, cap);
        proof {
            assert(target == ring_evolve(old(self)@, items2@, cap));
        }
        let remaining = self.capacity - self.next;
        let c1 = if k <= remaining {
            k
        } else {
            remaining
        };
        let first = slice_subrange(items2, 0, c1);
        let second = slice_subrange(items2, c1, k);
        let ghost phys0 = self.records@;
        let ghost bytes0 = self.memory.contents();
        let ghost pos = self.next as int;
        let first_bytes = to_bytes_slice(first);
        proof {
            lemma_encode_len(first@);
            assert(pos * s + c1 * s == (pos + c1) * s) by (nonlinear_arith);
            lemma_cell_mul_bounds((pos + c1) as nat, cap, cap, size as nat);
            lemma_cell_mul_bounds(pos as nat, cap, cap, size as nat);
        }
        self.memory.write(self.next * size, first_bytes.as_slice());
        proof {
            lemma_write_chunks::<T>(bytes0, self.memory.contents(), pos, first@, cap as int);
            self.records@ = store_range(phys0, pos, first@);
        }
        let ghost phys1 = self.records@;
        let ghost bytes1 = self.memory.contents();
        let c2 = k - c1;
        let second_bytes = to_bytes_slice(second);
        proof {
            lemma_encode_len(second@);
            lemma_cell_mul_bounds(c2 as nat, cap, cap, size as nat);
        }
        self.memory.write(0, second_bytes.as_slice());
        proof {
            lemma_write_chunks::<T>(bytes1, self.memory.contents(), 0, second@, cap as int);
            self.records@ = store_range(phys1, 0, second@);
        }
        let ghost phys2 = self.records@;
        self.length = if k <= self.capacity - self.length {
            self.length + k
        } else {
            self.capacity
        };
        self.next = if k < remaining {
            self.next + k
        } else {
            k - remaining
        };
        proof {
            let old_len = old(self).length as int;
            let cap_i = cap as int;
            // Every cell that is live afterwards matches its arena chunk.
            assert forall|i: int|
                0 <= i < cap_i && self.cell_live(i) implies #[trigger] self.memory.contents().subrange(
                i * T::spec_size(),
                (i + 1) * T::spec_size(),
            ) == phys2[i].spec_to_bytes() by {
                if 0 <= i < c2 {
                } else if pos <= i < pos + c1 {
                } else {
                    assert(old(self).cell_live(i));
                }
            }
            // The live records afterwards are exactly the evolved sequence.
            if old_len < cap_i {
                if old_len + k <= cap_i {
                    assert(c1 == k && c2 == 0);
                    assert(self@ =~= target);
                } else {
                    assert(c1 == cap_i - old_len && c2 == k - c1);
                    assert(self@ =~= target);
                }
            } else {
                if k as int <= cap_i - pos {
                    assert(c1 == k && c2 == 0);
                    assert(self@ =~= target);
                } else {
                    assert(c1 == cap_i - pos && c2 == k - c1);
                    assert(self@ =~= target);
                }
            }
        }
    }
}

impl<T: Item> Hadron<T, OnHeap> {
    /// Create a new ring buffer holding at most `capacity` records.
    ///
    /// All required memory is allocated during initialization.
    pub fn with_capacity(capacity: usize) -> (ring: Self)
        requires
            capacity > 0,
            capacity * T::spec_size() <= usize::MAX,
        ensures
            ring.wf(),
            ring@ == Seq::<T>::empty(),
            ring.spec_capacity() == capacity,
    {
        let size = T::size();
        let memory = OnHeap::allocate(capacity * size);
        let ring = Hadron {
            next: 0usize,
            length: 0usize,
            capacity,
            memory,
            records: Ghost(Seq::new(capacity as nat, |i: int| arbitrary())),
        };
        proof {
            assert(ring@ =~= Seq::<T>::empty());
        }
        ring
    }
}

impl<T: Item, M: Memory> View for Hadron<T, M> {
    type V = Seq<T>;

    closed spec fn view(&self) -> Seq<T> {
        if self.length < self.capacity {
            self.records@.take(self.length as int)
        } else {
            self.records@.skip(self.next as int) + self.records@.take(self.next as int)
        }
    }
}

proof fn lemma_cell_mul_bounds(from: nat, to: nat, cap: nat, s: nat)
    requires
        from <= to <= cap,
    ensures
        from * s <= to * s <= cap * s,
{
    assert(from <= to && to <= cap ==> from * s <= to * s && to * s <= cap * s)
        by (nonlinear_arith);
}

} // verus!
