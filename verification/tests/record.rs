use crosstream::record::from_bytes_slice;
use crosstream::record::to_bytes_slice;
use crosstream::Record;

fn sample_u64() -> Vec<u64> {
    vec![
        0,
        1,
        2,
        0xff,
        0x100,
        0x0102030405060708,
        0xdeadbeef,
        u64::MAX,
        u64::MAX - 1,
        1 << 63,
    ]
}

#[test]
fn round_trip_record() {
    for record in sample_u64() {
        // Transmute to bytes.
        let bytes = u64::to_bytes(&record);
        assert_eq!(u64::size(), bytes.len());

        // Transmute from bytes.
        let returned = u64::from_bytes(&bytes);
        assert_eq!(record, returned);
    }
    for record in [0u32, 1, 0xffff_ffff, 0x01020304] {
        let bytes = u32::to_bytes(&record);
        assert_eq!(u32::size(), bytes.len());
        assert_eq!(record, u32::from_bytes(&bytes));
    }
    for record in [0u16, 1, 0xffff, 0x0102] {
        let bytes = u16::to_bytes(&record);
        assert_eq!(u16::size(), bytes.len());
        assert_eq!(record, u16::from_bytes(&bytes));
    }
    for record in [0u8, 1, 0xff, 0x7f] {
        let bytes = u8::to_bytes(&record);
        assert_eq!(u8::size(), bytes.len());
        assert_eq!(record, u8::from_bytes(&bytes));
    }
    for record in [0i64, 1, -1, i64::MIN, i64::MAX, -123456789] {
        let bytes = i64::to_bytes(&record);
        assert_eq!(i64::size(), bytes.len());
        assert_eq!(record, i64::from_bytes(&bytes));
    }
    for record in [0i32, 1, -1, i32::MIN, i32::MAX] {
        let bytes = i32::to_bytes(&record);
        assert_eq!(i32::size(), bytes.len());
        assert_eq!(record, i32::from_bytes(&bytes));
    }
}

#[test]
fn round_trip_record_slice() {
    let records = sample_u64();

    // Transmute to bytes.
    let bytes = to_bytes_slice(&records);
    assert_eq!(u64::size() * records.len(), bytes.len());

    // Transmute from bytes.
    let returned: Vec<u64> = from_bytes_slice(&bytes);
    assert_eq!(records, returned);

    // The empty slice round-trips too.
    let empty: Vec<u64> = Vec::new();
    let bytes = to_bytes_slice(&empty);
    assert_eq!(bytes.len(), 0);
    let returned: Vec<u64> = from_bytes_slice(&bytes);
    assert_eq!(returned, empty);
}

#[test]
fn encoding_is_little_endian() {
    let bytes = u64::to_bytes(&0x0102030405060708);
    assert_eq!(bytes, vec![8, 7, 6, 5, 4, 3, 2, 1]);
    let bytes = u32::to_bytes(&0x01020304);
    assert_eq!(bytes, vec![4, 3, 2, 1]);
    let bytes = u16::to_bytes(&0x0102);
    assert_eq!(bytes, vec![2, 1]);
    let bytes = to_bytes_slice(&[0x11u16, 0x2233]);
    assert_eq!(bytes, vec![0x11, 0x00, 0x33, 0x22]);
}
