use crosstream::OffHeapSegment;
use crosstream::OnHeapSegment;
use crosstream::Segment;
use crosstream::Storage;
use crosstream::Trimmer;
use crosstream::VecSegment;

const CAPACITY: usize = 64;

fn push_scenario<S: Storage<Record = u64>>(mut segment: Segment<S>) {
    assert!(segment.is_empty());
    assert_eq!(CAPACITY, segment.capacity());
    let records: Vec<u64> = (0..CAPACITY as u64).map(|i| i * 2).collect();

    // Write individual records.
    assert_eq!(0, segment.len());
    for record in &records {
        assert!(segment.remaining() > 0);
        assert!(segment.push(*record).is_none());
        assert_eq!(records[..segment.len()].to_vec(), segment.records());
    }

    // Make sure segment has all the records now.
    assert!(segment.is_full());
    assert_eq!(records, segment.records());

    // More than capacity should be rejected.
    assert_eq!(segment.push(100), Some(100));

    // Trim and get back some space.
    segment.trim(1);
    assert_eq!(segment.push(100), None);
    assert_eq!(segment.records()[..CAPACITY - 1], records[1..]);
    assert_eq!(segment.records()[CAPACITY - 1], 100);
}

#[test]
fn segment_push() {
    push_scenario(VecSegment::with_capacity(CAPACITY, Trimmer::Nothing));
    push_scenario(OnHeapSegment::with_capacity(CAPACITY, Trimmer::Nothing));
    push_scenario(OffHeapSegment::with_capacity(CAPACITY, Trimmer::Nothing));
}

fn push_trimmer_scenario<S: Storage<Record = u64>>(mut segment: Segment<S>, trim: usize) {
    assert!(segment.is_empty());
    assert_eq!(CAPACITY, segment.capacity());

    let records: Vec<u64> = (0..CAPACITY as u64).map(|i| i * 2).collect();
    assert!(segment.extend_from_slice(&records).is_empty());
    assert_eq!(records, segment.records());

    // Write one more; it should automatically create space.
    assert_eq!(segment.push(100), None);

    // Make sure expected state.
    assert_eq!(segment.records()[..CAPACITY - trim], records[trim..]);
    assert_eq!(segment.records()[CAPACITY - trim], 100);
    assert_eq!(trim - 1, segment.remaining());
    assert_eq!(segment.len(), CAPACITY - trim + 1);
}

#[test]
fn segment_push_trimmer() {
    push_trimmer_scenario(VecSegment::with_capacity(CAPACITY, Trimmer::Trim(10)), 10);
    push_trimmer_scenario(OnHeapSegment::with_capacity(CAPACITY, Trimmer::Trim(10)), 10);
    push_trimmer_scenario(OffHeapSegment::with_capacity(CAPACITY, Trimmer::Trim(10)), 10);
}

fn extend_scenario<S: Storage<Record = u64>>(mut segment: Segment<S>) {
    assert!(segment.is_empty());
    assert_eq!(CAPACITY, segment.capacity());
    let records: Vec<u64> = (0..CAPACITY as u64).map(|i| i * 2).collect();

    // Split into multiple chunks and write to segment.
    for chunk in records.chunks(13) {
        assert!(segment.remaining() >= chunk.len());
        assert!(segment.extend_from_slice(chunk).is_empty());
        assert_eq!(records[..segment.len()].to_vec(), segment.records());
    }

    // Make sure segment has all the records now.
    assert!(segment.is_full());
    assert_eq!(records, segment.records());

    // More than capacity should be rejected.
    let more_records = [3u64, 5, 7, 9];
    assert_eq!(segment.extend_from_slice(&more_records), &more_records);

    // Trim and get back some space.
    segment.trim(3);
    assert_eq!(segment.extend_from_slice(&more_records), &more_records[3..]);
    assert_eq!(segment.records()[..CAPACITY - 3], records[3..]);
    assert_eq!(segment.records()[CAPACITY - 3..], more_records[..3]);
}

#[test]
fn segment_extend_from_slice() {
    extend_scenario(VecSegment::with_capacity(CAPACITY, Trimmer::Nothing));
    extend_scenario(OnHeapSegment::with_capacity(CAPACITY, Trimmer::Nothing));
    extend_scenario(OffHeapSegment::with_capacity(CAPACITY, Trimmer::Nothing));
}

fn clear_scenario<S: Storage<Record = u64>>(mut segment: Segment<S>) {
    assert!(segment.extend_from_slice(&[1, 2, 3]).is_empty());
    assert_eq!(segment.len(), 3);
    segment.clear();
    assert!(segment.is_empty());
    assert_eq!(segment.records(), Vec::<u64>::new());
    // Trimming more than the length clears the segment.
    assert!(segment.extend_from_slice(&[4, 5]).is_empty());
    segment.trim(99);
    assert!(segment.is_empty());
}

#[test]
fn segment_clear_and_overtrim() {
    clear_scenario(VecSegment::with_capacity(CAPACITY, Trimmer::Nothing));
    clear_scenario(OnHeapSegment::with_capacity(CAPACITY, Trimmer::Nothing));
    clear_scenario(OffHeapSegment::with_capacity(CAPACITY, Trimmer::Nothing));
}
