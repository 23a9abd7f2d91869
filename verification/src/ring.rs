//! A segmented ring buffer keyed by record sequence numbers.

use crate::buf::QueryBuf;
use crate::record::Record;
use crate::record::SeqRecord;
use crate::storage::OffHeapStorage;
use crate::storage::OnHeapStorage;
use crate::storage::Storage;
use crate::storage::VecStorage;
use vstd::prelude::*;
use vstd::slice::slice_index_get;
use vstd::slice::slice_subrange;
use vstd::string::StringExecFns;

verus! {

/// Type alias for a [`SeqRing`] backed by [`VecStorage`].
pub type VecSeqRing<T> = SeqRing<VecStorage<T>>;

/// Type alias for a [`SeqRing`] backed by [`OnHeapStorage`].
pub type OnHeapSeqRing<T> = SeqRing<OnHeapStorage<T>>;

/// Type alias for a [`SeqRing`] backed by [`OffHeapStorage`].
pub type OffHeapSeqRing<T> = SeqRing<OffHeapStorage<T>>;

/// Errors that can happen when records are appended to a [`SeqRing`].
#[derive(Clone, Copy, Debug, PartialEq, Eq, Structural)]
pub enum AppendError {
    /// Records were appended out of sequence: the first field is the
    /// sequence number that the ring had already observed, the second the
    /// offending sequence number that failed to exceed it.
    Sequence(u64, u64),
}

/// The character for a single decimal digit.
pub open spec fn spec_digit(d: nat) -> char {
    if d == 0 {
        '0'
    } else if d == 1 {
        '1'
    } else if d == 2 {
        '2'
    } else if d == 3 {
        '3'
    } else if d == 4 {
        '4'
    } else if d == 5 {
        '5'
    } else if d == 6 {
        '6'
    } else if d == 7 {
        '7'
    } else if d == 8 {
        '8'
    } else {
        '9'
    }
}

/// The decimal rendering of a number, most significant digit first.
pub open spec fn spec_decimal(n: nat) -> Seq<char>
    decreases n,
{
    if n < 10 {
        seq![spec_digit(n)]
    } else {
        spec_decimal(n / 10) + seq![spec_digit(n % 10)]
    }
}

/// Append the character of one decimal digit to a string.
fn push_digit(s: &mut String, d: u64)
    requires
        d < 10,
    ensures
        final(s)@ == old(s)@ + seq![spec_digit(d as nat)],
{
    let piece: &str = if d == 0 {
        "0"
    } else if d == 1 {
        "1"
    } else if d == 2 {
        "2"
    } else if d == 3 {
        "3"
    } else if d == 4 {
        "4"
    } else if d == 5 {
        "5"
    } else if d == 6 {
        "6"
    } else if d == 7 {
        "7"
    } else if d == 8 {
        "8"
    } else {
        "9"
    };
    proof {
        reveal_strlit("0");
        reveal_strlit("1");
        reveal_strlit("2");
        reveal_strlit("3");
        reveal_strlit("4");
        reveal_strlit("5");
        reveal_strlit("6");
        reveal_strlit("7");
        reveal_strlit("8");
        reveal_strlit("9");
        assert(piece@ =~= seq![spec_digit(d as nat)]);
    }
    s.append(piece);
}

/// Append the decimal rendering of `x` to a string.
fn append_decimal(s: &mut String, x: u64)
    ensures
        final(s)@ == old(s)@ + spec_decimal(x as nat),
    decreases x,
{
    if x >= 10 {
        append_decimal(s, x / 10);
        push_digit(s, x % 10);
        proof {
            assert((old(s)@ + spec_decimal((x / 10) as nat)) + seq![spec_digit((x % 10) as nat)]
                =~= old(s)@ + (spec_decimal((x / 10) as nat) + seq![spec_digit((x % 10) as nat)]));
        }
    } else {
        push_digit(s, x);
    }
}

impl AppendError {
    /// The rendering of this error, as a character sequence.
    pub open spec fn spec_message(&self) -> Seq<char> {
        match self {
            AppendError::Sequence(prev, record) => "Records appended out of sequence. Prev: "@
                + spec_decimal(*prev as nat) + ", Record: "@ + spec_decimal(*record as nat),
        }
    }

    /// The human-readable rendering of this error.
    pub fn message(&self) -> (s: String)
        ensures
            s@ == self.spec_message(),
    {
        match self {
            AppendError::Sequence(prev, record) => {
                let mut s = String::from_str("Records appended out of sequence. Prev: ");
                append_decimal(&mut s, *prev);
                s.append(", Record: ");
                append_decimal(&mut s, *record);
                s
            },
        }
    }
}

/// The abstract state of a [`SeqRing`]: the watermark, the slab keys, the
/// records of each slab in key order, the free-slab count, and the records
/// per slab.
#[verifier::ext_equal]
pub struct RingModel<R> {
    /// Greatest sequence number observed so far.
    pub prev: u64,
    /// Watermark key of each slab, in ascending order.
    pub keys: Seq<u64>,
    /// Records of each slab, parallel to `keys`.
    pub fills: Seq<Seq<R>>,
    /// Number of slabs in the free pool.
    pub free: nat,
    /// Capacity of every slab.
    pub cap: nat,
}

/// All records of the slab sequence `fills`, concatenated in key order.
pub open spec fn concat_slabs<R>(fills: Seq<Seq<R>>) -> Seq<R>
    decreases fills.len(),
{
    if fills.len() == 0 {
        Seq::<R>::empty()
    } else {
        fills[0] + concat_slabs(fills.skip(1))
    }
}

/// Concatenation of slabs distributes over appending a slab sequence.
pub proof fn lemma_concat_slabs_app<R>(a: Seq<Seq<R>>, b: Seq<Seq<R>>)
    ensures
        concat_slabs(a + b) == concat_slabs(a) + concat_slabs(b),
    decreases a.len(),
{
    if a.len() == 0 {
        assert(a + b =~= b);
        assert(concat_slabs(a) + concat_slabs(b) =~= concat_slabs(b));
    } else {
        assert((a + b).skip(1) =~= a.skip(1) + b);
        lemma_concat_slabs_app(a.skip(1), b);
        assert((a + b)[0] == a[0]);
        assert(a[0] + (concat_slabs(a.skip(1)) + concat_slabs(b)) =~= (a[0] + concat_slabs(
            a.skip(1),
        )) + concat_slabs(b));
    }
}

/// The concatenation of a single slab is that slab.
pub proof fn lemma_concat_slabs_one<R>(fill: Seq<R>)
    ensures
        concat_slabs(seq![fill]) == fill,
{
    assert(seq![fill].skip(1) =~= Seq::<Seq<R>>::empty());
    assert(concat_slabs(seq![fill].skip(1)) =~= Seq::<R>::empty());
    assert(concat_slabs(seq![fill]) =~= fill);
}

impl<R: SeqRecord> RingModel<R> {
    /// All live records, in ascending key order.
    pub open spec fn live(self) -> Seq<R> {
        concat_slabs(self.fills)
    }
}

/// The first ordering violation in `rs` against the watermark `prev`: the
/// pair of the preceding sequence number and the offending one, or `None`
/// when every record strictly exceeds its predecessor.
pub open spec fn find_violation<R: SeqRecord>(prev: u64, rs: Seq<R>) -> Option<(u64, u64)>
    decreases rs.len(),
{
    if rs.len() == 0 {
        None
    } else if rs[0].spec_seq_no() <= prev {
        Some((prev, rs[0].spec_seq_no()))
    } else {
        find_violation(rs[0].spec_seq_no(), rs.skip(1))
    }
}

/// A batch with no ordering violation is strictly ascending and entirely
/// above the watermark.
pub proof fn lemma_no_violation_facts<R: SeqRecord>(prev: u64, rs: Seq<R>)
    requires
        find_violation(prev, rs) is None,
    ensures
        forall|i: int| 0 <= i < rs.len() ==> (#[trigger] rs[i]).spec_seq_no() > prev,
        forall|i: int, j: int|
            0 <= i < j < rs.len() ==> (#[trigger] rs[i]).spec_seq_no() < (
            #[trigger] rs[j]).spec_seq_no(),
    decreases rs.len(),
{
    if rs.len() > 0 {
        lemma_no_violation_facts(rs[0].spec_seq_no(), rs.skip(1));
        assert forall|i: int| 0 <= i < rs.len() implies (#[trigger] rs[i]).spec_seq_no()
            > prev by {
            if i > 0 {
                assert(rs.skip(1)[i - 1] == rs[i]);
            }
        }
        assert forall|i: int, j: int| 0 <= i < j < rs.len() implies (#[trigger] rs[i]).spec_seq_no()
            < (#[trigger] rs[j]).spec_seq_no() by {
            assert(rs.skip(1)[j - 1] == rs[j]);
            if i > 0 {
                assert(rs.skip(1)[i - 1] == rs[i]);
            }
        }
    }
}

/// The invariant tying a [`RingModel`] together: keys ascend strictly, every
/// slab's records ascend strictly within the fences set by the neighbouring
/// keys, and the watermark bounds everything from above.
pub open spec fn model_inv<R: SeqRecord>(m: RingModel<R>) -> bool {
    &&& m.keys.len() == m.fills.len()
    &&& m.keys.len() >= 1
    &&& m.keys.len() + m.free >= 2
    &&& m.cap > 0
    &&& forall|i: int| 0 <= i < m.fills.len() ==> (#[trigger] m.fills[i]).len() <= m.cap
    &&& forall|i: int, j: int| 0 <= i < j < m.keys.len() ==> #[trigger] m.keys[i] < #[trigger] m.keys[j]
    &&& forall|i: int| 0 <= i < m.keys.len() ==> #[trigger] m.keys[i] <= m.prev
    &&& forall|i: int, a: int, b: int|
        0 <= i < m.fills.len() && 0 <= a < b < m.fills[i].len() ==> (
        #[trigger] m.fills[i][a]).spec_seq_no() < (#[trigger] m.fills[i][b]).spec_seq_no()
    &&& forall|i: int, a: int|
        0 <= i < m.fills.len() && 0 <= a < m.fills[i].len() ==> (
        #[trigger] m.fills[i][a]).spec_seq_no() > m.keys[i]
    &&& forall|i: int, a: int|
        0 <= i < m.fills.len() - 1 && 0 <= a < m.fills[i].len() ==> (
        #[trigger] m.fills[i][a]).spec_seq_no() <= m.keys[i + 1]
    &&& forall|i: int, a: int|
        0 <= i < m.fills.len() && 0 <= a < m.fills[i].len() ==> (
        #[trigger] m.fills[i][a]).spec_seq_no() <= m.prev
    &&& (m.fills.last().len() > 0 ==> m.prev == m.fills.last().last().spec_seq_no())
    &&& (m.fills.last().len() == 0 ==> m.prev == m.keys.last())
}

/// The ring state after appending the batch `rs`, mirroring one append step
/// per unfolding: fill the most recent slab, then open a new slab (from the
/// free pool, or by recycling the oldest) once it runs out of room.
pub open spec fn spec_append<R: SeqRecord>(m: RingModel<R>, rs: Seq<R>) -> RingModel<R>
    decreases rs.len(), m.fills.last().len(),
    when m.cap > 0 && m.fills.len() > 0 && m.fills.last().len() <= m.cap
{
    if rs.len() == 0 {
        m
    } else {
        let fill = m.fills.last();
        if fill.len() < m.cap {
            let room = m.cap - fill.len();
            let k = if rs.len() <= room {
                rs.len() as int
            } else {
                room as int
            };
            let m2 = RingModel {
                prev: rs[k - 1].spec_seq_no(),
                fills: m.fills.update(m.fills.len() - 1, fill + rs.take(k)),
                ..m
            };
            spec_append(m2, rs.skip(k))
        } else {
            let m2 = if m.free > 0 {
                RingModel {
                    keys: m.keys.push(m.prev),
                    fills: m.fills.push(Seq::<R>::empty()),
                    free: (m.free - 1) as nat,
                    ..m
                }
            } else {
                RingModel {
                    keys: m.keys.skip(1).push(m.prev),
                    fills: m.fills.skip(1).push(Seq::<R>::empty()),
                    ..m
                }
            };
            spec_append(m2, rs)
        }
    }
}

/// The model after extending the most recent slab with the next `k` records
/// of `rs`, where `k` is bounded by the slab's room.
pub open spec fn extend_step<R: SeqRecord>(m: RingModel<R>, rs: Seq<R>) -> RingModel<R> {
    let fill = m.fills.last();
    let room = m.cap - fill.len();
    let k = if rs.len() <= room {
        rs.len() as int
    } else {
        room as int
    };
    RingModel {
        prev: rs[k - 1].spec_seq_no(),
        fills: m.fills.update(m.fills.len() - 1, fill + rs.take(k)),
        ..m
    }
}

/// The model after opening a fresh active slab keyed by the watermark,
/// taking it from the free pool when one is available and recycling the
/// oldest slab otherwise.
pub open spec fn open_step<R: SeqRecord>(m: RingModel<R>) -> RingModel<R> {
    if m.free > 0 {
        RingModel {
            keys: m.keys.push(m.prev),
            fills: m.fills.push(Seq::<R>::empty()),
            free: (m.free - 1) as nat,
            ..m
        }
    } else {
        RingModel { keys: m.keys.skip(1).push(m.prev), fills: m.fills.skip(1).push(Seq::<R>::empty()), ..m }
    }
}

/// Extending the most recent slab with in-order records above the watermark
/// preserves the model invariant.
proof fn lemma_step_extend<R: SeqRecord>(m: RingModel<R>, rs: Seq<R>)
    requires
        model_inv(m),
        rs.len() > 0,
        m.fills.last().len() < m.cap,
        forall|i: int| 0 <= i < rs.len() ==> (#[trigger] rs[i]).spec_seq_no() > m.prev,
        forall|i: int, j: int|
            0 <= i < j < rs.len() ==> (#[trigger] rs[i]).spec_seq_no() < (
            #[trigger] rs[j]).spec_seq_no(),
    ensures
        ({
            let m2 = extend_step(m, rs);
            let room = m.cap - m.fills.last().len();
            let k = if rs.len() <= room {
                rs.len() as int
            } else {
                room as int
            };
            &&& model_inv(m2)
            &&& m2.keys == m.keys
            &&& m2.free == m.free
            &&& m2.cap == m.cap
            &&& m2.prev == rs[k - 1].spec_seq_no()
            &&& spec_append(m, rs) == spec_append(m2, rs.skip(k))
            &&& forall|i: int|
                k <= i < rs.len() ==> (#[trigger] rs[i]).spec_seq_no() > m2.prev
        }),
{
    let m2 = extend_step(m, rs);
    let fill = m.fills.last();
    let room = m.cap - fill.len();
    let k = if rs.len() <= room {
        rs.len() as int
    } else {
        room as int
    };
    let last = m.fills.len() - 1;
    let newfill = fill + rs.take(k);
    assert(m2.fills[last] == newfill);
    assert(m2.fills.last() == newfill);
    assert(newfill.len() > 0);
    assert(newfill.last() == rs[k - 1]);
    assert forall|i: int, a: int, b: int|
        0 <= i < m2.fills.len() && 0 <= a < b < m2.fills[i].len() implies (
    #[trigger] m2.fills[i][a]).spec_seq_no() < (#[trigger] m2.fills[i][b]).spec_seq_no() by {
        if i == last {
            if b < fill.len() {
                assert(m2.fills[i][a] == fill[a] && m2.fills[i][b] == fill[b]);
            } else if a < fill.len() {
                assert(m2.fills[i][a] == fill[a]);
                assert(m2.fills[i][b] == rs[b - fill.len()]);
                assert(fill[a].spec_seq_no() <= m.prev);
            } else {
                assert(m2.fills[i][a] == rs[a - fill.len()]);
                assert(m2.fills[i][b] == rs[b - fill.len()]);
            }
        }
    }
    assert forall|i: int, a: int|
        0 <= i < m2.fills.len() && 0 <= a < m2.fills[i].len() implies (
    #[trigger] m2.fills[i][a]).spec_seq_no() > m2.keys[i] by {
        if i == last && a >= fill.len() {
            assert(m2.fills[i][a] == rs[a - fill.len()]);
            assert(m.keys[i] <= m.prev);
        }
    }
    assert forall|i: int, a: int|
        0 <= i < m2.fills.len() - 1 && 0 <= a < m2.fills[i].len() implies (
    #[trigger] m2.fills[i][a]).spec_seq_no() <= m2.keys[i + 1] by {
        assert(i != last);
        assert(m2.fills[i] == m.fills[i]);
    }
    assert forall|i: int, a: int|
        0 <= i < m2.fills.len() && 0 <= a < m2.fills[i].len() implies (
    #[trigger] m2.fills[i][a]).spec_seq_no() <= m2.prev by {
        if i == last {
            if a < fill.len() {
                assert(m2.fills[i][a] == fill[a]);
                assert(fill[a].spec_seq_no() <= m.prev);
                assert(m.prev < rs[k - 1].spec_seq_no());
            } else {
                assert(m2.fills[i][a] == rs[a - fill.len()]);
            }
        } else {
            assert(m2.fills[i] == m.fills[i]);
            assert(m.fills[i][a].spec_seq_no() <= m.prev);
        }
    }
    assert(model_inv(m2));
    assert(spec_append(m, rs) == spec_append(m2, rs.skip(k)));
}

/// Opening a fresh slab once the active slab is full preserves the model
/// invariant.
proof fn lemma_step_open<R: SeqRecord>(m: RingModel<R>)
    requires
        model_inv(m),
        m.fills.last().len() == m.cap,
    ensures
        ({
            let m2 = open_step(m);
            &&& model_inv(m2)
            &&& m2.prev == m.prev
            &&& m2.cap == m.cap
            &&& m2.fills.last() == Seq::<R>::empty()
            &&& m2.keys.len() + m2.free == m.keys.len() + m.free
            &&& forall|rs: Seq<R>| rs.len() > 0 ==> spec_append(m, rs) == spec_append(m2, rs)
        }),
{
    let m2 = open_step(m);
    let last = m.fills.len() - 1;
    assert(m.fills.last().len() > 0);
    assert(m.prev == m.fills.last().last().spec_seq_no());
    assert(m.fills.last().last().spec_seq_no() > m.keys[last]);
    if m.free > 0 {
        assert forall|i: int, j: int| 0 <= i < j < m2.keys.len() implies #[trigger] m2.keys[i]
            < #[trigger] m2.keys[j] by {
            if j == m2.keys.len() - 1 {
                assert(m2.keys[i] == m.keys[i]);
                assert(m.keys[i] <= m.keys[last]);
                assert(m.keys[last] < m.prev);
            }
        }
        assert forall|i: int, a: int|
            0 <= i < m2.fills.len() - 1 && 0 <= a < m2.fills[i].len() implies (
        #[trigger] m2.fills[i][a]).spec_seq_no() <= m2.keys[i + 1] by {
            if i == m2.fills.len() - 2 {
                assert(m2.fills[i] == m.fills[i]);
                assert(m.fills[i][a].spec_seq_no() <= m.prev);
            } else {
                assert(m2.fills[i] == m.fills[i]);
            }
        }
        assert(model_inv(m2));
    } else {
        assert(m.keys.len() >= 2);
        assert forall|i: int, j: int| 0 <= i < j < m2.keys.len() implies #[trigger] m2.keys[i]
            < #[trigger] m2.keys[j] by {
            if j == m2.keys.len() - 1 {
                assert(m2.keys[i] == m.keys[i + 1]);
                assert(m.keys[i + 1] <= m.keys[last]);
                assert(m.keys[last] < m.prev);
            } else {
                assert(m2.keys[i] == m.keys[i + 1] && m2.keys[j] == m.keys[j + 1]);
            }
        }
        assert forall|i: int, a: int|
            0 <= i < m2.fills.len() && 0 <= a < m2.fills[i].len() implies (
        #[trigger] m2.fills[i][a]).spec_seq_no() > m2.keys[i] by {
            if i < m2.fills.len() - 1 {
                assert(m2.fills[i] == m.fills[i + 1] && m2.keys[i] == m.keys[i + 1]);
            }
        }
        assert forall|i: int, a: int|
            0 <= i < m2.fills.len() - 1 && 0 <= a < m2.fills[i].len() implies (
        #[trigger] m2.fills[i][a]).spec_seq_no() <= m2.keys[i + 1] by {
            if i == m2.fills.len() - 2 {
                assert(m2.fills[i] == m.fills[last]);
                assert(m.fills[last][a].spec_seq_no() <= m.prev);
            } else {
                assert(m2.fills[i] == m.fills[i + 1] && m2.keys[i + 1] == m.keys[i + 2]);
            }
        }
        assert forall|i: int, a: int|
            0 <= i < m2.fills.len() && 0 <= a < m2.fills[i].len() implies (
        #[trigger] m2.fills[i][a]).spec_seq_no() <= m2.prev by {
            if i < m2.fills.len() - 1 {
                assert(m2.fills[i] == m.fills[i + 1]);
            }
        }
        assert forall|i: int, a: int, b: int|
            0 <= i < m2.fills.len() && 0 <= a < b < m2.fills[i].len() implies (
        #[trigger] m2.fills[i][a]).spec_seq_no() < (#[trigger] m2.fills[i][b]).spec_seq_no() by {
            if i < m2.fills.len() - 1 {
                assert(m2.fills[i] == m.fills[i + 1]);
            }
        }
        assert(model_inv(m2));
    }
}

/// An in-memory ring buffer that holds sequenced records.
///
/// Works much like any other ring buffer, with two differences: appended
/// records are validated against the sequence watermark, and records can be
/// queried by sequence number.
///
/// The slabs live in `slots`, keyed by the sequence number of the last
/// record appended before each slab was opened, in ascending key order; the
/// last slab is the active write target. `free_slots` holds the slabs not
/// yet in use.
pub struct SeqRing<S> {
    prev_seq_no: u64,
    free_slots: Vec<S>,
    slots: Vec<(u64, S)>,
}

impl<R: SeqRecord, S: Storage<Record = R>> SeqRing<S> {
    /// Capacity of each slab.
    pub closed spec fn slot_cap(&self) -> nat {
        self.slots@[0].1.cap()
    }

    /// The greatest sequence number observed so far.
    pub open spec fn spec_prev(&self) -> u64 {
        self.model().prev
    }

    /// The abstract state of the ring.
    pub closed spec fn model(&self) -> RingModel<R> {
        RingModel {
            prev: self.prev_seq_no,
            keys: Seq::new(self.slots@.len(), |i: int| self.slots@[i].0),
            fills: Seq::new(self.slots@.len(), |i: int| self.slots@[i].1.recs()),
            free: self.free_slots@.len(),
            cap: self.slot_cap(),
        }
    }

    /// All live records, in ascending sequence order.
    pub open spec fn live(&self) -> Seq<R> {
        self.model().live()
    }

    /// Well-formedness of the ring's internal state.
    pub closed spec fn wf(&self) -> bool {
        &&& self.slots@.len() >= 1
        &&& forall|i: int|
            0 <= i < self.slots@.len() ==> (#[trigger] self.slots@[i].1).wf()
                && self.slots@[i].1.cap() == self.slot_cap()
        &&& forall|i: int|
            0 <= i < self.free_slots@.len() ==> (#[trigger] self.free_slots@[i]).wf()
                && self.free_slots@[i].cap() == self.slot_cap()
        &&& model_inv(self.model())
    }

    /// A well-formed ring has a valid abstract state.
    pub proof fn lemma_wf(&self)
        requires
            self.wf(),
        ensures
            model_inv(self.model()),
    {
    }

    /// Construct a ring buffer from preallocated, empty slabs.
    fn from_parts(free_slots: Vec<S>, prev_seq_no: u64) -> (ring: Self)
        requires
            free_slots@.len() >= 2,
            forall|i: int|
                0 <= i < free_slots@.len() ==> (#[trigger] free_slots@[i]).wf()
                    && free_slots@[i].cap() == free_slots@[0].cap() && free_slots@[i].recs()
                    == Seq::<R>::empty(),
            free_slots@[0].cap() > 0,
        ensures
            ring.wf(),
            ring.model() == (RingModel {
                prev: prev_seq_no,
                keys: seq![prev_seq_no],
                fills: seq![Seq::<R>::empty()],
                free: (free_slots@.len() - 1) as nat,
                cap: free_slots@[0].cap(),
            }),
    {
        let mut free_slots = free_slots;
        let storage = free_slots.pop().unwrap();
        let mut slots: Vec<(u64, S)> = Vec::new();
        slots.push((prev_seq_no, storage));
        let ring = SeqRing { slots, free_slots, prev_seq_no };
        proof {
            assert(ring.model().keys =~= seq![prev_seq_no]);
            assert(ring.model().fills =~= seq![Seq::<R>::empty()]);
            assert(ring.model() =~= (RingModel {
                prev: prev_seq_no,
                keys: seq![prev_seq_no],
                fills: seq![Seq::<R>::empty()],
                free: (free_slots@.len()) as nat,
                cap: free_slots@[0].cap(),
            }));
        }
        ring
    }
}

impl<R: SeqRecord + Copy, S: Storage<Record = R>> SeqRing<S> {
    /// Append new records into the ring buffer.
    ///
    /// The whole batch is validated upfront: every record must strictly
    /// exceed its predecessor, and the first must strictly exceed the
    /// ring's watermark. A batch with a violation is rejected as a whole
    /// with [`AppendError::Sequence`] and the ring is left unchanged.
    #[verifier::rlimit(100)]
    pub fn append(&mut self, records: &[R]) -> (result: Result<(), AppendError>)
        requires
            old(self).wf(),
        ensures
            final(self).wf(),
            match result {
                Ok(_) => find_violation(old(self).spec_prev(), records@) is None
                    && final(self).model() == spec_append(old(self).model(), records@),
                Err(AppendError::Sequence(p, r)) => find_violation(old(self).spec_prev(), records@)
                    == Some((p, r)) && *final(self) == *old(self),
            },
    {
        let n = records.len();
        if n == 0 {
            proof {
                assert(spec_append(self.model(), records@) == self.model());
            }
            return Ok(());
        }
        // Validate the whole batch against the watermark before any write.
        let prev0 = self.prev_seq_no;
        let mut prev = prev0;
        let mut i: usize = 0;
        proof {
            assert(records@.skip(0) =~= records@);
        }
        while i < n
            invariant
                0 <= i <= n,
                n == records@.len(),
                self == old(self),
                self.wf(),
                prev0 == old(self).spec_prev(),
                find_violation(prev0, records@) == find_violation(prev, records@.skip(i as int)),
                prev == if i == 0 {
                    prev0
                } else {
                    records@[i - 1].spec_seq_no()
                },
            decreases n - i,
        {
            let s = slice_index_get(records, i).seq_no();
            if s <= prev {
                return Err(AppendError::Sequence(prev, s));
            }
            proof {
                assert(records@.skip(i as int)[0] == records@[i as int]);
                assert(records@.skip(i as int).skip(1) =~= records@.skip(i + 1));
            }
            prev = s;
            i = i + 1;
        }
        proof {
            assert(records@.skip(n as int).len() == 0);
            lemma_no_violation_facts(prev0, records@);
        }
        // Append records into slabs until the batch is consumed.
        let ghost m0 = old(self).model();
        let mut idx: usize = 0;
        proof {
            assert(records@.skip(0) =~= records@);
        }
        while idx < n
            invariant
                0 <= idx <= n,
                n == records@.len(),
                self.wf(),
                spec_append(m0, records@) == spec_append(self.model(), records@.skip(idx as int)),
                forall|i: int|
                    idx <= i < n ==> (#[trigger] records@[i]).spec_seq_no() > self.spec_prev(),
                forall|i: int, j: int|
                    0 <= i < j < n ==> (#[trigger] records@[i]).spec_seq_no() < (
                    #[trigger] records@[j]).spec_seq_no(),
            decreases n - idx, self.model().fills.last().len(),
        {
            let ghost m_before = self.model();
            let ghost rs_left = records@.skip(idx as int);
            // Fill the most recent slab as far as it has room.
            let (key, mut slot) = self.slots.pop().unwrap();
            proof {
                slot.lemma_wf();
            }
            let rem = slot.capacity() - slot.length();
            let take = if rem <= n - idx {
                rem
            } else {
                n - idx
            };
            if take > 0 {
                let chunk = slice_subrange(records, idx, idx + take);
                slot.extend(chunk);
                self.prev_seq_no = slice_index_get(records, idx + take - 1).seq_no();
                self.slots.push((key, slot));
                proof {
                    lemma_step_extend(m_before, rs_left);
                    let m2 = extend_step(m_before, rs_left);
                    assert(chunk@ =~= rs_left.take(take as int));
                    assert(self.model().fills =~~= m2.fills);
                    assert(self.model().keys =~~= m2.keys);
                    assert(self.model() =~~= m2);
                    assert(rs_left.skip(take as int) =~= records@.skip(idx + take));
                }
                idx = idx + take;
            } else {
                self.slots.push((key, slot));
                proof {
                    assert(self.model().fills =~~= m_before.fills);
                    assert(self.model().keys =~~= m_before.keys);
                    assert(self.model() =~~= m_before);
                }
            }
            let ghost m_mid = self.model();
            // Open a fresh slab when records remain.
            if idx < n {
                proof {
                    self.lemma_wf();
                    assert(m_mid.fills.last().len() == m_mid.cap);
                    lemma_step_open(m_mid);
                }
                let ghost slots_mid = self.slots@;
                let mut fresh: S;
                if self.free_slots.len() > 0 {
                    fresh = self.free_slots.pop().unwrap();
                } else {
                    fresh = self.slots.remove(0).1;
                    proof {
                        assert(self.slots@ =~= slots_mid.skip(1));
                    }
                }
                fresh.clear();
                self.slots.push((self.prev_seq_no, fresh));
                proof {
                    let m2 = open_step(m_mid);
                    assert(self.model().fills =~~= m2.fills);
                    assert(self.model().keys =~~= m2.keys);
                    assert(self.model() =~~= m2);
                }
            }
        }
        proof {
            assert(records@.skip(n as int).len() == 0);
            assert(spec_append(self.model(), records@.skip(n as int)) == self.model());
        }
        Ok(())
    }
}

impl<R: SeqRecord + Record + Copy, S: Storage<Record = R>> SeqRing<S> {
    /// Query for records from the beginning of the ring.
    ///
    /// `buf` is cleared and then filled, to its capacity, with the oldest
    /// live records in ascending sequence order.
    pub fn query_from_trim(&self, buf: &mut QueryBuf<R>)
        requires
            self.wf(),
            old(buf).wf(),
        ensures
            final(buf).wf(),
            final(buf).spec_capacity() == old(buf).spec_capacity(),
            final(buf)@ == ({
                let live = self.live();
                let c = old(buf).spec_capacity() as int;
                live.take(
                    if c <= live.len() {
                        c
                    } else {
                        live.len() as int
                    },
                )
            }),
    {
        buf.clear();
        let count = self.slots.len();
        let ghost fills = self.model().fills;
        let ghost c = old(buf).spec_capacity() as int;
        proof {
            assert(fills.take(0) =~= Seq::<Seq<R>>::empty());
            assert(concat_slabs(fills.take(0)) =~= Seq::<R>::empty());
        }
        let mut i: usize = 0;
        while i < count
            invariant
                i <= count,
                count == self.slots@.len(),
                self.wf(),
                fills == self.model().fills,
                c == old(buf).spec_capacity() as int,
                buf.wf(),
                buf.spec_capacity() == old(buf).spec_capacity(),
                buf@ == ({
                    let li = concat_slabs(fills.take(i as int));
                    li.take(
                        if c <= li.len() {
                            c
                        } else {
                            li.len() as int
                        },
                    )
                }),
            decreases count - i,
        {
            let recs = self.slots[i].1.records();
            let rem = buf.remaining();
            let k = if rem <= recs.len() {
                rem
            } else {
                recs.len()
            };
            buf.extend(slice_subrange(recs.as_slice(), 0, k));
            proof {
                let li = concat_slabs(fills.take(i as int));
                let li1 = concat_slabs(fills.take(i + 1));
                assert(fills.take(i + 1) =~= fills.take(i as int) + seq![fills[i as int]]);
                lemma_concat_slabs_app(fills.take(i as int), seq![fills[i as int]]);
                lemma_concat_slabs_one(fills[i as int]);
                assert(li1 == li + fills[i as int]);
                assert(recs@ == fills[i as int]);
                if c <= li.len() {
                    assert(k == 0);
                    assert(recs@.take(0) =~= Seq::<R>::empty());
                    assert(li.take(c) =~= li1.take(c));
                    assert(buf@ =~= li1.take(c));
                } else {
                    assert(buf@ == li + recs@.take(k as int));
                    if c <= li1.len() {
                        assert(buf@ =~= li1.take(c));
                    } else {
                        assert(buf@ =~= li1.take(li1.len() as int));
                    }
                }
            }
            i = i + 1;
        }
        proof {
            assert(fills.take(count as int) =~= fills);
        }
    }

    /// Query for the records that come after a given sequence number.
    ///
    /// `buf` is cleared and then filled, to its capacity, with the records
    /// whose sequence numbers strictly exceed `seq_no`, in ascending order.
    /// A query at or beyond the watermark yields nothing.
    #[verifier::rlimit(100)]
    pub fn query_after(&self, seq_no: u64, buf: &mut QueryBuf<R>)
        requires
            self.wf(),
            old(buf).wf(),
        ensures
            final(buf).wf(),
            final(buf).spec_capacity() == old(buf).spec_capacity(),
            final(buf)@ == ({
                let matching = self.live().filter(above(seq_no));
                let c = old(buf).spec_capacity() as int;
                matching.take(
                    if c <= matching.len() {
                        c
                    } else {
                        matching.len() as int
                    },
                )
            }),
    {
        buf.clear();
        let ghost m = self.model();
        let ghost fills = m.fills;
        let ghost c = old(buf).spec_capacity() as int;
        // A query at or beyond the watermark matches nothing.
        if self.prev_seq_no <= seq_no {
            proof {
                assert forall|i: int, a: int|
                    0 <= i < fills.len() && 0 <= a < fills[i].len() implies !(above::<R>(seq_no)(
                    #[trigger] fills[i][a],
                )) by {
                    assert(fills[i][a].spec_seq_no() <= m.prev);
                }
                lemma_concat_filter_none(fills, above(seq_no));
                assert(self.live().filter(above(seq_no)).take(0) =~= Seq::<R>::empty());
            }
            return ;
        }
        // Find the slab whose key is the greatest key at or below `seq_no`,
        // defaulting to the oldest slab.
        let count = self.slots.len();
        let mut start: usize = 0;
        let mut i: usize = 1;
        while i < count
            invariant
                1 <= i <= count,
                count == self.slots@.len(),
                self.wf(),
                m == self.model(),
                start < i,
                start > 0 ==> m.keys[start as int] <= seq_no,
                forall|j: int| start < j < i ==> #[trigger] m.keys[j] > seq_no,
            decreases count - i,
        {
            if self.slots[i].0 <= seq_no {
                start = i;
            }
            i = i + 1;
        }
        // Within the start slab, find the first record above `seq_no`.
        let srecs = self.slots[start].1.records();
        let slen = srecs.len();
        let mut lo: usize = 0;
        let mut hi: usize = slen;
        while lo < hi
            invariant
                lo <= hi <= slen,
                slen == srecs@.len(),
                self.wf(),
                m == self.model(),
                start < count == self.slots@.len(),
                srecs@ == m.fills[start as int],
                forall|j: int| 0 <= j < lo ==> (#[trigger] srecs@[j]).spec_seq_no() <= seq_no,
                forall|j: int| hi <= j < slen ==> (#[trigger] srecs@[j]).spec_seq_no() > seq_no,
            decreases hi - lo,
        {
            let mid = lo + (hi - lo) / 2;
            if srecs[mid].seq_no() <= seq_no {
                proof {
                    assert forall|j: int| 0 <= j < mid + 1 implies (
                    #[trigger] srecs@[j]).spec_seq_no() <= seq_no by {
                        if lo <= j < mid {
                            assert(m.fills[start as int][j].spec_seq_no()
                                < m.fills[start as int][mid as int].spec_seq_no());
                        }
                    }
                }
                lo = mid + 1;
            } else {
                proof {
                    assert forall|j: int| mid <= j < slen implies (
                    #[trigger] srecs@[j]).spec_seq_no() > seq_no by {
                        if mid < j {
                            assert(m.fills[start as int][mid as int].spec_seq_no()
                                < m.fills[start as int][j].spec_seq_no());
                        }
                    }
                }
                hi = mid;
            }
        }
        let begin = lo;
        // The records above `seq_no` are the tail of the start slab from
        // `begin` on, followed by all records of the later slabs.
        let ghost front = fills.take(start as int);
        let ghost mid_fill = fills[start as int];
        let ghost back = fills.skip(start as int + 1);
        let ghost matching = self.live().filter(above(seq_no));
        proof {
            assert(fills =~= (front + seq![mid_fill]) + back);
            lemma_concat_slabs_app(front + seq![mid_fill], back);
            lemma_concat_slabs_app(front, seq![mid_fill]);
            lemma_concat_slabs_one(mid_fill);
            Seq::filter_distributes_over_add(
                concat_slabs(front + seq![mid_fill]),
                concat_slabs(back),
                above(seq_no),
            );
            Seq::filter_distributes_over_add(concat_slabs(front), mid_fill, above(seq_no));
            assert forall|i2: int, a: int|
                0 <= i2 < front.len() && 0 <= a < front[i2].len() implies !(above::<R>(seq_no)(
                #[trigger] front[i2][a],
            )) by {
                assert(front[i2] == fills[i2]);
                assert(fills[i2][a].spec_seq_no() <= m.keys[i2 + 1]);
                if i2 + 1 < start {
                    assert(m.keys[i2 + 1] < m.keys[start as int]);
                }
            }
            lemma_concat_filter_none(front, above(seq_no));
            lemma_filter_split(mid_fill, above(seq_no), begin as int);
            assert forall|i2: int, a: int|
                0 <= i2 < back.len() && 0 <= a < back[i2].len() implies above::<R>(seq_no)(
                #[trigger] back[i2][a],
            ) by {
                assert(back[i2] == fills[start + 1 + i2]);
                assert(fills[start + 1 + i2][a].spec_seq_no() > m.keys[start + 1 + i2]);
                assert(m.keys[start + 1 + i2] > seq_no);
            }
            lemma_concat_filter_all(back, above(seq_no));
            assert(matching =~= mid_fill.skip(begin as int) + concat_slabs(back));
        }
        // Copy the tail of the start slab.
        let rem0 = buf.remaining();
        let avail0 = slen - begin;
        let k0 = if rem0 <= avail0 {
            rem0
        } else {
            avail0
        };
        buf.extend(slice_subrange(srecs.as_slice(), begin, begin + k0));
        proof {
            let m0 = mid_fill.skip(begin as int);
            assert(srecs@.subrange(begin as int, begin + k0) =~= m0.take(k0 as int));
            assert(buf@ =~= m0.take(
                if c <= m0.len() {
                    c
                } else {
                    m0.len() as int
                },
            ));
        }
        // Copy whole slabs after the start slab until the buffer is full.
        let mut i: usize = start + 1;
        while i < count
            invariant
                start + 1 <= i <= count,
                count == self.slots@.len(),
                self.wf(),
                m == self.model(),
                fills == m.fills,
                mid_fill == fills[start as int],
                begin <= mid_fill.len(),
                c == old(buf).spec_capacity() as int,
                buf.wf(),
                buf.spec_capacity() == old(buf).spec_capacity(),
                buf@ == ({
                    let mi = mid_fill.skip(begin as int) + concat_slabs(
                        fills.subrange(start as int + 1, i as int),
                    );
                    mi.take(
                        if c <= mi.len() {
                            c
                        } else {
                            mi.len() as int
                        },
                    )
                }),
            decreases count - i,
        {
            let recs = self.slots[i].1.records();
            let rem = buf.remaining();
            let k = if rem <= recs.len() {
                rem
            } else {
                recs.len()
            };
            buf.extend(slice_subrange(recs.as_slice(), 0, k));
            proof {
                let base = mid_fill.skip(begin as int);
                let mi = base + concat_slabs(fills.subrange(start as int + 1, i as int));
                let mi1 = base + concat_slabs(fills.subrange(start as int + 1, i + 1));
                assert(fills.subrange(start as int + 1, i + 1) =~= fills.subrange(
                    start as int + 1,
                    i as int,
                ) + seq![fills[i as int]]);
                lemma_concat_slabs_app(
                    fills.subrange(start as int + 1, i as int),
                    seq![fills[i as int]],
                );
                lemma_concat_slabs_one(fills[i as int]);
                assert(mi1 =~= mi + fills[i as int]);
                assert(recs@ == fills[i as int]);
                if c <= mi.len() {
                    assert(k == 0);
                    assert(recs@.take(0) =~= Seq::<R>::empty());
                    assert(mi.take(c) =~= mi1.take(c));
                    assert(buf@ =~= mi1.take(c));
                } else {
                    assert(buf@ == mi + recs@.take(k as int));
                    if c <= mi1.len() {
                        assert(buf@ =~= mi1.take(c));
                    } else {
                        assert(buf@ =~= mi1.take(mi1.len() as int));
                    }
                }
            }
            i = i + 1;
        }
        proof {
            assert(fills.subrange(start as int + 1, count as int) =~= fills.skip(start as int + 1));
            assert(matching == mid_fill.skip(begin as int) + concat_slabs(
                fills.skip(start as int + 1),
            ));
        }
    }
}

/// The predicate selecting records with a sequence number above `seq_no`.
pub open spec fn above<R: SeqRecord>(seq_no: u64) -> spec_fn(R) -> bool {
    |r: R| r.spec_seq_no() > seq_no
}

/// Whether the sequence numbers of `s` ascend strictly.
pub open spec fn seq_ascending<R: SeqRecord>(s: Seq<R>) -> bool {
    forall|i: int, j: int|
        0 <= i < j < s.len() ==> (#[trigger] s[i]).spec_seq_no() < (#[trigger] s[j]).spec_seq_no()
}

/// Every record of a slab concatenation satisfies what every slab record
/// satisfies.
proof fn lemma_concat_all<R>(fills: Seq<Seq<R>>, pred: spec_fn(R) -> bool)
    requires
        forall|i: int, a: int|
            0 <= i < fills.len() && 0 <= a < fills[i].len() ==> pred(#[trigger] fills[i][a]),
    ensures
        forall|x: int|
            0 <= x < concat_slabs(fills).len() ==> pred(#[trigger] concat_slabs(fills)[x]),
    decreases fills.len(),
{
    if fills.len() > 0 {
        assert forall|i: int, a: int|
            0 <= i < fills.skip(1).len() && 0 <= a < fills.skip(1)[i].len() implies pred(
            #[trigger] fills.skip(1)[i][a],
        ) by {
            assert(fills.skip(1)[i] == fills[i + 1]);
        }
        lemma_concat_all(fills.skip(1), pred);
        let head = fills[0];
        let rest = concat_slabs(fills.skip(1));
        let whole = concat_slabs(fills);
        assert forall|x: int| 0 <= x < whole.len() implies pred(#[trigger] whole[x]) by {
            if x < head.len() {
                assert(whole[x] == fills[0][x]);
            } else {
                assert(whole[x] == rest[x - head.len()]);
            }
        }
    }
}

/// Concatenating slab fills that ascend within and across slabs yields an
/// ascending sequence.
proof fn lemma_concat_ascending<R: SeqRecord>(fills: Seq<Seq<R>>)
    requires
        forall|i: int| 0 <= i < fills.len() ==> seq_ascending(#[trigger] fills[i]),
        forall|i: int, j: int, a: int, b: int|
            0 <= i < j < fills.len() && 0 <= a < fills[i].len() && 0 <= b < fills[j].len() ==> (
            #[trigger] fills[i][a]).spec_seq_no() < (#[trigger] fills[j][b]).spec_seq_no(),
    ensures
        seq_ascending(concat_slabs(fills)),
    decreases fills.len(),
{
    if fills.len() > 0 {
        assert forall|i: int| 0 <= i < fills.skip(1).len() implies seq_ascending(
            #[trigger] fills.skip(1)[i],
        ) by {
            assert(fills.skip(1)[i] == fills[i + 1]);
        }
        assert forall|i: int, j: int, a: int, b: int|
            0 <= i < j < fills.skip(1).len() && 0 <= a < fills.skip(1)[i].len() && 0 <= b
                < fills.skip(1)[j].len() implies (#[trigger] fills.skip(1)[i][a]).spec_seq_no() < (
        #[trigger] fills.skip(1)[j][b]).spec_seq_no() by {
            assert(fills.skip(1)[i] == fills[i + 1]);
            assert(fills.skip(1)[j] == fills[j + 1]);
        }
        lemma_concat_ascending(fills.skip(1));
        let head = fills[0];
        let rest = concat_slabs(fills.skip(1));
        let whole = concat_slabs(fills);
        assert forall|x: int, y: int| 0 <= x < y < whole.len() implies (
        #[trigger] whole[x]).spec_seq_no() < (#[trigger] whole[y]).spec_seq_no() by {
            if y < head.len() {
                assert(whole[x] == fills[0][x] && whole[y] == fills[0][y]);
                assert(seq_ascending(fills[0]));
            } else if x >= head.len() {
                assert(whole[x] == rest[x - head.len()] && whole[y] == rest[y - head.len()]);
                assert(seq_ascending(rest));
            } else {
                assert(whole[x] == fills[0][x]);
                assert(whole[y] == rest[y - head.len()]);
                let bound = fills[0][x].spec_seq_no();
                assert forall|i: int, a: int|
                    0 <= i < fills.skip(1).len() && 0 <= a < fills.skip(1)[i].len() implies (
                #[trigger] fills.skip(1)[i][a]).spec_seq_no() > bound by {
                    assert(fills.skip(1)[i] == fills[i + 1]);
                    assert(fills[0][x].spec_seq_no() < fills[i + 1][a].spec_seq_no());
                }
                lemma_concat_all(fills.skip(1), |r: R| r.spec_seq_no() > bound);
            }
        }
    }
}

/// The live records of a well-formed ring ascend strictly: every record a
/// query returns has a strictly greater sequence number than the one before
/// it, since every query result is a prefix of a suffix of the live records.
pub proof fn lemma_live_ascending<R: SeqRecord>(m: RingModel<R>)
    requires
        model_inv(m),
    ensures
        seq_ascending(m.live()),
{
    assert forall|i: int| 0 <= i < m.fills.len() implies seq_ascending(#[trigger] m.fills[i]) by {
    }
    assert forall|i: int, j: int, a: int, b: int|
        0 <= i < j < m.fills.len() && 0 <= a < m.fills[i].len() && 0 <= b
            < m.fills[j].len() implies (#[trigger] m.fills[i][a]).spec_seq_no() < (
    #[trigger] m.fills[j][b]).spec_seq_no() by {
        assert(m.fills[i][a].spec_seq_no() <= m.keys[i + 1]);
        if i + 1 < j {
            assert(m.keys[i + 1] < m.keys[j]);
        }
        assert(m.fills[j][b].spec_seq_no() > m.keys[j]);
    }
    lemma_concat_ascending(m.fills);
}

/// A prefix of an ascending sequence ascends, and its records all have
/// smaller sequence numbers than every record that follows: what
/// `query_from_trim` returns are the smallest live records, in order.
pub proof fn lemma_prefix_smallest<R: SeqRecord>(s: Seq<R>, k: int)
    requires
        seq_ascending(s),
        0 <= k <= s.len(),
    ensures
        seq_ascending(s.take(k)),
        forall|i: int, j: int|
            0 <= i < k <= j < s.len() ==> (#[trigger] s.take(k)[i]).spec_seq_no() < (
            #[trigger] s[j]).spec_seq_no(),
{
}

/// Filtering preserves strict ascent.
pub proof fn lemma_filter_ascending<R: SeqRecord>(s: Seq<R>, pred: spec_fn(R) -> bool)
    requires
        seq_ascending(s),
    ensures
        seq_ascending(s.filter(pred)),
        s.filter(pred).len() > 0 ==> s.len() > 0 && s.filter(pred).last().spec_seq_no()
            <= s.last().spec_seq_no(),
    decreases s.len(),
{
    reveal(Seq::filter);
    if s.len() > 0 {
        let shorter = s.drop_last();
        assert(seq_ascending(shorter));
        lemma_filter_ascending(shorter, pred);
        let f1 = shorter.filter(pred);
        let f = s.filter(pred);
        if pred(s.last()) {
            assert(f == f1.push(s.last()));
            assert forall|i: int, j: int| 0 <= i < j < f.len() implies (
            #[trigger] f[i]).spec_seq_no() < (#[trigger] f[j]).spec_seq_no() by {
                if j == f.len() - 1 {
                    assert(f[i] == f1[i]);
                    assert(f[j] == s.last());
                    if i < f1.len() - 1 {
                        assert(f1[i].spec_seq_no() < f1.last().spec_seq_no());
                    }
                    assert(shorter.last().spec_seq_no() < s.last().spec_seq_no());
                } else {
                    assert(f[i] == f1[i] && f[j] == f1[j]);
                }
            }
        } else {
            assert(f == f1);
            if f.len() > 0 {
                assert(shorter.last().spec_seq_no() < s.last().spec_seq_no());
            }
        }
    }
}

/// The records that match a cursor query ascend strictly: what
/// `query_after` returns comes in strictly increasing sequence order.
pub proof fn lemma_matching_ascending<R: SeqRecord>(m: RingModel<R>, seq_no: u64)
    requires
        model_inv(m),
    ensures
        seq_ascending(m.live().filter(above(seq_no))),
{
    lemma_live_ascending(m);
    lemma_filter_ascending(m.live(), above(seq_no));
}

/// A filter keeps none of a sequence none of whose elements satisfy it.
proof fn lemma_filter_none<A>(s: Seq<A>, pred: spec_fn(A) -> bool)
    requires
        forall|i: int| 0 <= i < s.len() ==> !pred(#[trigger] s[i]),
    ensures
        s.filter(pred) == Seq::<A>::empty(),
    decreases s.len(),
{
    reveal(Seq::filter);
    if s.len() > 0 {
        lemma_filter_none(s.drop_last(), pred);
    }
}

/// A filter keeps all of a sequence all of whose elements satisfy it.
proof fn lemma_filter_all<A>(s: Seq<A>, pred: spec_fn(A) -> bool)
    requires
        forall|i: int| 0 <= i < s.len() ==> pred(#[trigger] s[i]),
    ensures
        s.filter(pred) == s,
    decreases s.len(),
{
    reveal(Seq::filter);
    if s.len() > 0 {
        lemma_filter_all(s.drop_last(), pred);
        assert(s.drop_last().push(s.last()) =~= s);
    }
}

/// A filter that rejects exactly a prefix keeps exactly the suffix.
proof fn lemma_filter_split<A>(s: Seq<A>, pred: spec_fn(A) -> bool, b: int)
    requires
        0 <= b <= s.len(),
        forall|i: int| 0 <= i < b ==> !pred(#[trigger] s[i]),
        forall|i: int| b <= i < s.len() ==> pred(#[trigger] s[i]),
    ensures
        s.filter(pred) == s.skip(b),
{
    assert(s =~= s.take(b) + s.skip(b));
    Seq::filter_distributes_over_add(s.take(b), s.skip(b), pred);
    lemma_filter_none(s.take(b), pred);
    lemma_filter_all(s.skip(b), pred);
    assert(Seq::<A>::empty() + s.skip(b) =~= s.skip(b));
}

/// Filtering the concatenation of slabs none of whose records match keeps
/// nothing.
proof fn lemma_concat_filter_none<R>(fills: Seq<Seq<R>>, pred: spec_fn(R) -> bool)
    requires
        forall|i: int, a: int|
            0 <= i < fills.len() && 0 <= a < fills[i].len() ==> !pred(#[trigger] fills[i][a]),
    ensures
        concat_slabs(fills).filter(pred) == Seq::<R>::empty(),
    decreases fills.len(),
{
    if fills.len() == 0 {
        lemma_filter_none(concat_slabs(fills), pred);
    } else {
        lemma_concat_filter_none(fills.skip(1), pred);
        Seq::filter_distributes_over_add(fills[0], concat_slabs(fills.skip(1)), pred);
        assert forall|a: int| 0 <= a < fills[0].len() implies !pred(#[trigger] fills[0][a]) by {
        }
        lemma_filter_none(fills[0], pred);
        assert(concat_slabs(fills).filter(pred) =~= Seq::<R>::empty());
    }
}

/// Filtering the concatenation of slabs all of whose records match keeps
/// everything.
proof fn lemma_concat_filter_all<R>(fills: Seq<Seq<R>>, pred: spec_fn(R) -> bool)
    requires
        forall|i: int, a: int|
            0 <= i < fills.len() && 0 <= a < fills[i].len() ==> pred(#[trigger] fills[i][a]),
    ensures
        concat_slabs(fills).filter(pred) == concat_slabs(fills),
    decreases fills.len(),
{
    if fills.len() == 0 {
        lemma_filter_all(concat_slabs(fills), pred);
    } else {
        lemma_concat_filter_all(fills.skip(1), pred);
        Seq::filter_distributes_over_add(fills[0], concat_slabs(fills.skip(1)), pred);
        lemma_filter_all(fills[0], pred);
    }
}

/// The abstract state of a freshly constructed ring.
pub open spec fn init_model<R: SeqRecord>(slot_capacity: nat, slots: nat, prev_seq_no: u64) -> RingModel<R> {
    RingModel {
        prev: prev_seq_no,
        keys: seq![prev_seq_no],
        fills: seq![Seq::<R>::empty()],
        free: (slots - 1) as nat,
        cap: slot_capacity,
    }
}

impl<R: SeqRecord + Record + Copy> VecSeqRing<R> {
    /// Create a new ring buffer using a `Vec` for each slab.
    pub fn new(slot_capacity: usize, slots: usize, prev_seq_no: u64) -> (ring: Self)
        requires
            slots > 1,
            slot_capacity > 0,
        ensures
            ring.wf(),
            ring.model() == init_model::<R>(slot_capacity as nat, slots as nat, prev_seq_no),
    {
        let mut free_slots: Vec<VecStorage<R>> = Vec::new();
        let mut i: usize = 0;
        while i < slots
            invariant
                i <= slots,
                free_slots@.len() == i,
                forall|j: int|
                    0 <= j < i ==> (#[trigger] free_slots@[j]).wf() && free_slots@[j].cap()
                        == slot_capacity && free_slots@[j].recs() == Seq::<R>::empty(),
            decreases slots - i,
        {
            free_slots.push(VecStorage::new(slot_capacity));
            i = i + 1;
        }
        SeqRing::from_parts(free_slots, prev_seq_no)
    }
}

impl<R: SeqRecord + Record + Copy> OnHeapSeqRing<R> {
    /// Create a new ring buffer using heap memory for each slab.
    pub fn new(slot_capacity: usize, slots: usize, prev_seq_no: u64) -> (ring: Self)
        requires
            slots > 1,
            slot_capacity > 0,
            slot_capacity * R::spec_size() <= usize::MAX,
        ensures
            ring.wf(),
            ring.model() == init_model::<R>(slot_capacity as nat, slots as nat, prev_seq_no),
    {
        let mut free_slots: Vec<OnHeapStorage<R>> = Vec::new();
        let mut i: usize = 0;
        while i < slots
            invariant
                i <= slots,
                slot_capacity * R::spec_size() <= usize::MAX,
                free_slots@.len() == i,
                forall|j: int|
                    0 <= j < i ==> (#[trigger] free_slots@[j]).wf() && free_slots@[j].cap()
                        == slot_capacity && free_slots@[j].recs() == Seq::<R>::empty(),
            decreases slots - i,
        {
            free_slots.push(OnHeapStorage::new(slot_capacity));
            i = i + 1;
        }
        SeqRing::from_parts(free_slots, prev_seq_no)
    }
}

impl<R: SeqRecord + Record + Copy> OffHeapSeqRing<R> {
    /// Create a new ring buffer using page-mapped memory for each slab.
    pub fn new(slot_capacity: usize, slots: usize, prev_seq_no: u64) -> (ring: Self)
        requires
            slots > 1,
            slot_capacity > 0,
            slot_capacity * R::spec_size() <= usize::MAX,
        ensures
            ring.wf(),
            ring.model() == init_model::<R>(slot_capacity as nat, slots as nat, prev_seq_no),
    {
        let mut free_slots: Vec<OffHeapStorage<R>> = Vec::new();
        let mut i: usize = 0;
        while i < slots
            invariant
                i <= slots,
                slot_capacity > 0,
                slot_capacity * R::spec_size() <= usize::MAX,
                free_slots@.len() == i,
                forall|j: int|
                    0 <= j < i ==> (#[trigger] free_slots@[j]).wf() && free_slots@[j].cap()
                        == slot_capacity && free_slots@[j].recs() == Seq::<R>::empty(),
            decreases slots - i,
        {
            free_slots.push(OffHeapStorage::new(slot_capacity));
            i = i + 1;
        }
        SeqRing::from_parts(free_slots, prev_seq_no)
    }
}

} // verus!
