use crosstream::experiment::hadron::Hadron as ByteHadron;
use crosstream::Hadron;
use crosstream::Oracle;

/// A fixed collection of append batches that exercises empty, small, exact
/// and oversized appends.
fn batches() -> Vec<Vec<u64>> {
    vec![
        vec![],
        vec![1],
        vec![2, 3],
        vec![4, 5, 6, 7],
        vec![],
        vec![8, 9, 10, 11, 12, 13, 14, 15],
        vec![16],
        (17..=80).collect(),
        vec![81, 82, 83],
        (84..=200).collect(),
    ]
}

#[test]
fn state_machine() {
    for capacity in 1..=34usize {
        let mut hadron = Hadron::with_capacity(capacity);
        let mut oracle = Oracle::with_capacity(capacity);
        for items in batches() {
            hadron.copy_from_slice(&items);
            oracle.copy_from_slice(&items);
            assert_eq!(hadron.iter(), oracle.iter());
        }
    }
}

#[test]
fn hadron_state_machine() {
    let mut hadron = ByteHadron::<u64>::with_capacity(32);
    let mut reference: Vec<u64> = Vec::new();
    for items in batches() {
        hadron.append_from_slice(&items);
        for &item in &items {
            if reference.len() == 32 {
                reference.remove(0);
            }
            reference.push(item);
        }
        let mut buf: Vec<u64> = Vec::new();
        hadron.query_from_trim(&mut buf, 32);
        assert_eq!(buf, reference);
    }
}

#[test]
fn experimental_ring() {
    let mut hadron = ByteHadron::<u64>::with_capacity(1024);

    // Test records to append into the ring buffer.
    let records: Vec<u64> = (0..=2048).collect();

    // Write records in chunks.
    for chunk in records.chunks(64) {
        hadron.append_from_slice(chunk);
    }
}

#[test]
fn query_from_trim() {
    // Initialize the ring buffer.
    let mut hadron = ByteHadron::<u64>::with_capacity(1024);

    // Query for records from the ring buffer while it is still empty.
    let mut buf: Vec<u64> = Vec::with_capacity(1024);
    hadron.query_from_trim(&mut buf, 1024);
    assert_eq!(buf, Vec::<u64>::new());

    // Populate ring buffer with logs.
    let logs: Vec<u64> = (1..=1024).collect();
    hadron.append_from_slice(&logs);

    // Query for records with different batch sizes.
    let mut batch_size: usize = 256;
    while batch_size <= 1024 {
        // Buffer to query for records from the ring.
        let mut buf: Vec<u64> = Vec::with_capacity(batch_size);

        // Query from the very beginning.
        hadron.query_from_trim(&mut buf, batch_size);

        // Make sure expected records were returned.
        assert_eq!(&logs[..batch_size], &buf[..]);
        batch_size += 256;
    }
}

#[test]
fn hadron_wraparound() {
    let mut hadron = Hadron::with_capacity(4);
    hadron.copy_from_slice(&[1u64, 2, 3]);
    assert_eq!(hadron.iter(), vec![1, 2, 3]);
    hadron.copy_from_slice(&[4, 5, 6]);
    assert_eq!(hadron.iter(), vec![3, 4, 5, 6]);
    hadron.copy_from_slice(&[7]);
    assert_eq!(hadron.iter(), vec![4, 5, 6, 7]);
    hadron.copy_from_slice(&[8, 9, 10, 11, 12]);
    assert_eq!(hadron.iter(), vec![9, 10, 11, 12]);
}

#[test]
fn hadron_exact_fill() {
    let mut hadron = Hadron::with_capacity(3);
    hadron.copy_from_slice(&[10u64, 20, 30]);
    let (head, tail) = hadron.as_slices();
    assert_eq!(head, &[10, 20, 30]);
    assert_eq!(tail, &[] as &[u64]);
    hadron.copy_from_slice(&[40]);
    let (head, tail) = hadron.as_slices();
    assert_eq!(head, &[20, 30]);
    assert_eq!(tail, &[40]);
}

#[test]
fn byte_hadron_wraparound() {
    let mut hadron = ByteHadron::<u64>::with_capacity(4);
    let mut buf: Vec<u64> = Vec::new();
    hadron.append_from_slice(&[1u64, 2, 3]);
    hadron.query_from_trim(&mut buf, 4);
    assert_eq!(buf, vec![1, 2, 3]);
    hadron.append_from_slice(&[4, 5, 6]);
    hadron.query_from_trim(&mut buf, 4);
    assert_eq!(buf, vec![3, 4, 5, 6]);
    hadron.append_from_slice(&[7]);
    hadron.query_from_trim(&mut buf, 4);
    assert_eq!(buf, vec![4, 5, 6, 7]);
    hadron.append_from_slice(&[8, 9, 10, 11, 12]);
    hadron.query_from_trim(&mut buf, 4);
    assert_eq!(buf, vec![9, 10, 11, 12]);
}
