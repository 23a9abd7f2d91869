//! # Crosstream
//!
//! In-memory ring buffers for fixed-size, trivially-copyable records, with
//! verified contracts over their live contents.
//!
//! * [`Hadron`] is a single fixed-capacity circular buffer: appends overwrite
//!   the oldest records once the buffer is full, and reads expose the live
//!   records as two contiguous batches. [`Oracle`] is the simple reference
//!   ring it is measured against, and [`experiment::hadron::Hadron`] a
//!   byte-addressed variant whose bulk append is two contiguous byte writes.
//! * [`SeqRing`] is a segmented ring of slabs keyed by sequence-number
//!   watermarks. Appends validate ordering against the watermark; queries
//!   stream records from a sequence-number cursor into a reusable
//!   [`QueryBuf`].
//! * The storage layer provides the slabs: [`Segment`] over a [`Storage`]
//!   engine, either record-typed ([`VecStorage`]) or a flat byte arena
//!   ([`MemStorage`]) on heap or page-mapped memory.

pub mod bounded;
pub mod buf;
pub mod experiment;
pub mod hadron;
pub mod memory;
pub mod oracle;
pub mod record;
pub mod ring;
pub mod segment;
pub mod storage;

pub use bounded::Ring;
pub use buf::QueryBuf;
pub use hadron::Hadron;
pub use memory::Memory;
pub use memory::OffHeap;
pub use memory::OnHeap;
pub use oracle::Oracle;
pub use record::Record;
pub use record::SeqRecord;
pub use ring::AppendError;
pub use ring::OffHeapSeqRing;
pub use ring::OnHeapSeqRing;
pub use ring::SeqRing;
pub use ring::VecSeqRing;
pub use segment::OffHeapSegment;
pub use segment::OnHeapSegment;
pub use segment::Segment;
pub use segment::Trimmer;
pub use segment::VecSegment;
pub use storage::MemStorage;
pub use storage::OffHeapStorage;
pub use storage::OnHeapStorage;
pub use storage::Storage;
pub use storage::VecStorage;
