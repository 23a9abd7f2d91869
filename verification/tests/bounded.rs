use crosstream::Ring;

const RING_CAPACITY: usize = 128;

enum Operation {
    Clear,
    Trim(usize),
    Push(u64),
    Extend(Vec<u64>),
}

fn operations() -> Vec<Operation> {
    vec![
        Operation::Push(10),
        Operation::Push(11),
        Operation::Extend((12..=90).collect()),
        Operation::Trim(5),
        Operation::Push(91),
        Operation::Extend((92..=300).collect()),
        Operation::Trim(0),
        Operation::Trim(1000),
        Operation::Extend((1..=64).collect()),
        Operation::Clear,
        Operation::Extend((1..=7).collect()),
        Operation::Trim(3),
        Operation::Push(8),
    ]
}

/// Reference implementation over a plain vector: push and extend reject
/// what does not fit, trim drains from the front.
struct RefRing {
    items: Vec<u64>,
}

impl RefRing {
    fn clear(&mut self) {
        self.items.clear();
    }

    fn trim(&mut self, len: usize) {
        let n = len.min(self.items.len());
        self.items.drain(..n);
    }

    fn push(&mut self, record: u64) -> bool {
        if self.items.len() < RING_CAPACITY {
            self.items.push(record);
            true
        } else {
            false
        }
    }

    fn extend(&mut self, records: &[u64]) -> Vec<u64> {
        let room = RING_CAPACITY - self.items.len();
        let k = records.len().min(room);
        self.items.extend_from_slice(&records[..k]);
        records[k..].to_vec()
    }
}

#[test]
fn bounded_ring_state_machine() {
    let mut ring: Ring<u64> = Ring::with_capacity(RING_CAPACITY);
    let mut reference = RefRing { items: Vec::new() };
    assert_eq!(ring.capacity(), RING_CAPACITY);

    for operation in operations() {
        match operation {
            Operation::Clear => {
                ring.clear();
                reference.clear();
            }
            Operation::Trim(len) => {
                ring.trim(len);
                reference.trim(len);
            }
            Operation::Push(record) => {
                let accepted = ring.push(record);
                assert_eq!(accepted, reference.push(record));
            }
            Operation::Extend(records) => {
                let rejected = ring.extend_from_slice(&records);
                assert_eq!(rejected.to_vec(), reference.extend(&records));
            }
        }
        assert_eq!(ring.records(), reference.items);
        assert_eq!(ring.len(), reference.items.len());
        assert_eq!(ring.remaining(), RING_CAPACITY - reference.items.len());
        assert_eq!(ring.is_empty(), reference.items.is_empty());
        assert_eq!(ring.is_full(), reference.items.len() == RING_CAPACITY);
    }
}

#[test]
fn bounded_ring_narrow_records() {
    let mut ring: Ring<u16> = Ring::with_capacity(4);
    assert!(ring.push(0x1122));
    assert!(ring.push(0x3344));
    let rejected = ring.extend_from_slice(&[0x5566, 0x7788, 0x99aa]);
    assert_eq!(rejected, &[0x99aa]);
    assert!(!ring.push(0xbbcc));
    assert_eq!(ring.records(), vec![0x1122, 0x3344, 0x5566, 0x7788]);
    ring.trim(2);
    assert_eq!(ring.records(), vec![0x5566, 0x7788]);
}
