use crosstream::AppendError;
use crosstream::OffHeapSeqRing;
use crosstream::OnHeapSeqRing;
use crosstream::QueryBuf;
use crosstream::SeqRing;
use crosstream::Storage;
use crosstream::VecSeqRing;

fn query_prefix<S: Storage<Record = u64>>(ring: &SeqRing<S>, capacity: usize) -> Vec<u64> {
    let mut buf: QueryBuf<u64> = QueryBuf::new(capacity);
    ring.query_from_trim(&mut buf);
    buf.records()
}

fn query_after<S: Storage<Record = u64>>(
    ring: &SeqRing<S>,
    seq_no: u64,
    capacity: usize,
) -> Vec<u64> {
    let mut buf: QueryBuf<u64> = QueryBuf::new(capacity);
    ring.query_after(seq_no, &mut buf);
    buf.records()
}

fn prefix_query_scenario<S: Storage<Record = u64>>(mut ring: SeqRing<S>) {
    let records: Vec<u64> = (1..=12).collect();
    assert!(ring.append(&records).is_ok());
    assert_eq!(query_prefix(&ring, 6), vec![1, 2, 3, 4, 5, 6]);
}

#[test]
fn seq_ring_prefix_query() {
    prefix_query_scenario(VecSeqRing::new(4, 3, 0));
    prefix_query_scenario(OnHeapSeqRing::new(4, 3, 0));
    prefix_query_scenario(OffHeapSeqRing::new(4, 3, 0));
}

fn eviction_scenario<S: Storage<Record = u64>>(mut ring: SeqRing<S>) {
    let records: Vec<u64> = (1..=12).collect();
    assert!(ring.append(&records).is_ok());
    // The three slabs hold 12 records; the next append opens a new slab by
    // evicting the oldest one.
    assert!(ring.append(&[13, 14]).is_ok());
    assert_eq!(query_prefix(&ring, 20), vec![5, 6, 7, 8, 9, 10, 11, 12, 13, 14]);
}

#[test]
fn seq_ring_eviction() {
    eviction_scenario(VecSeqRing::new(4, 3, 0));
    eviction_scenario(OnHeapSeqRing::new(4, 3, 0));
    eviction_scenario(OffHeapSeqRing::new(4, 3, 0));
}

fn after_scenario<S: Storage<Record = u64>>(mut ring: SeqRing<S>) {
    let records: Vec<u64> = (1..=12).collect();
    assert!(ring.append(&records).is_ok());
    assert!(ring.append(&[13, 14]).is_ok());
    assert_eq!(query_after(&ring, 8, 4), vec![9, 10, 11, 12]);
    assert_eq!(query_after(&ring, 100, 4), Vec::<u64>::new());
    assert_eq!(query_after(&ring, 0, 3), vec![5, 6, 7]);
}

#[test]
fn seq_ring_after() {
    after_scenario(VecSeqRing::new(4, 3, 0));
    after_scenario(OnHeapSeqRing::new(4, 3, 0));
    after_scenario(OffHeapSeqRing::new(4, 3, 0));
}

fn sparse_keys_scenario<S: Storage<Record = u64>>(mut ring: SeqRing<S>) {
    assert!(ring.append(&[10, 20, 30, 40, 50, 60]).is_ok());
    assert_eq!(query_after(&ring, 25, 10), vec![30, 40, 50, 60]);
    assert_eq!(query_after(&ring, 30, 10), vec![40, 50, 60]);
}

#[test]
fn seq_ring_sparse_keys() {
    sparse_keys_scenario(VecSeqRing::new(4, 3, 0));
    sparse_keys_scenario(OnHeapSeqRing::new(4, 3, 0));
    sparse_keys_scenario(OffHeapSeqRing::new(4, 3, 0));
}

fn violation_scenario<S: Storage<Record = u64>>(mut ring: SeqRing<S>) {
    match ring.append(&[5, 6, 7]) {
        Ok(_) => panic!("Unexpected success!"),
        Err(AppendError::Sequence(prev, record)) => {
            assert_eq!(prev, 5);
            assert_eq!(record, 5);
        }
    }
    // The rejected batch left the ring untouched.
    assert_eq!(query_prefix(&ring, 8), Vec::<u64>::new());
}

#[test]
fn seq_ring_sequence_violation() {
    violation_scenario(VecSeqRing::new(4, 3, 5));
    violation_scenario(OnHeapSeqRing::new(4, 3, 5));
    violation_scenario(OffHeapSeqRing::new(4, 3, 5));
}

#[test]
fn seq_ring_rejects_mid_batch_violation() {
    let mut ring: VecSeqRing<u64> = VecSeqRing::new(4, 3, 0);
    // The violation is between 8 and 7; the whole batch is rejected.
    match ring.append(&[6, 8, 7]) {
        Ok(_) => panic!("Unexpected success!"),
        Err(AppendError::Sequence(prev, record)) => {
            assert_eq!(prev, 8);
            assert_eq!(record, 7);
        }
    }
    assert_eq!(query_prefix(&ring, 8), Vec::<u64>::new());
    // Equal sequence numbers are out of order too.
    assert!(matches!(ring.append(&[3, 3]), Err(AppendError::Sequence(3, 3))));
}

#[test]
fn sequence_error_message() {
    let mut ring: VecSeqRing<u64> = VecSeqRing::new(4, 3, 5);
    match ring.append(&[5, 6, 7]) {
        Ok(_) => panic!("Unexpected success!"),
        Err(err) => {
            assert_eq!(err.message(), "Records appended out of sequence. Prev: 5, Record: 5");
        }
    }
    let mut ring: VecSeqRing<u64> = VecSeqRing::new(4, 3, 0);
    match ring.append(&[120, 3007]) {
        Ok(_) => {}
        Err(_) => panic!("Unexpected error!"),
    }
    match ring.append(&[3007]) {
        Ok(_) => panic!("Unexpected success!"),
        Err(err) => {
            assert_eq!(
                err.message(),
                "Records appended out of sequence. Prev: 3007, Record: 3007"
            );
        }
    }
}

#[test]
fn seq_ring_empty_append() {
    let mut ring: VecSeqRing<u64> = VecSeqRing::new(4, 3, 9);
    assert!(ring.append(&[]).is_ok());
    assert_eq!(query_prefix(&ring, 4), Vec::<u64>::new());
}

fn chunked_append_scenario<S: Storage<Record = u64>>(mut ring: SeqRing<S>) {
    // Fill far past the total capacity in uneven chunks.
    let records: Vec<u64> = (1..=300).collect();
    for chunk in records.chunks(7) {
        assert!(ring.append(chunk).is_ok());
    }
    // Only the most recent records survive, capped by the slab layout.
    let got = query_prefix(&ring, 300);
    let expect_len = got.len();
    assert!(expect_len >= 16 && expect_len <= 48);
    assert_eq!(got, records[300 - expect_len..].to_vec());
    // Every record returned by a query exceeds its predecessor.
    for pair in got.windows(2) {
        assert!(pair[1] > pair[0]);
    }
    // The cursor query agrees with the prefix query.
    let after = query_after(&ring, got[0], 300);
    assert_eq!(after, got[1..].to_vec());
}

#[test]
fn seq_ring_chunked_append() {
    chunked_append_scenario(VecSeqRing::new(16, 3, 0));
    chunked_append_scenario(OnHeapSeqRing::new(16, 3, 0));
    chunked_append_scenario(OffHeapSeqRing::new(16, 3, 0));
}
