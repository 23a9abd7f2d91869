use crosstream::QueryBuf;

const CAPACITY: usize = 1024;

#[test]
fn buf_state_machine() {
    let mut buf: QueryBuf<u64> = QueryBuf::new(CAPACITY);
    assert_eq!(buf.capacity(), CAPACITY);

    let records: Vec<u64> = (1..=CAPACITY as u64).collect();
    for batch_size in 1..=CAPACITY {
        // Clear state for new test run.
        buf.clear();

        // Assert starting state.
        assert_eq!(buf.length(), 0);
        assert_eq!(buf.remaining(), CAPACITY);
        assert_eq!(buf.records(), Vec::<u64>::new());

        // Append records till buffer is filled.
        let mut len = 0;
        for chunk in records.chunks(batch_size) {
            assert!(buf.remaining() > 0);
            buf.extend(chunk);
            len += chunk.len();

            // Assert current state.
            assert_eq!(buf.length(), len);
            assert_eq!(buf.remaining(), CAPACITY - len);
            assert_eq!(buf.records(), records[..len].to_vec());
        }

        // Assert final state.
        assert_eq!(buf.remaining(), 0);
        assert_eq!(buf.length(), CAPACITY);
        assert_eq!(buf.records(), records);
    }
}
