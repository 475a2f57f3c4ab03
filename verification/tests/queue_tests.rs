use lob::queue::MmapQueue;
use lob::queue::QueueError;

#[test]
fn producer_consumer_roundtrip() {
    // capacity 8 slots, payload 128 bytes max
    let mut q = MmapQueue::create(8, 128).unwrap();

    // push some messages
    for i in 0..5u8 {
        let msg = vec![i; (i + 1) as usize];
        q.enqueue(&msg).unwrap();
    }

    // pop messages
    for i in 0..5u8 {
        let got = q.dequeue().unwrap().expect("expected message");
        assert_eq!(got, vec![i; (i + 1) as usize]);
    }

    // empty now
    assert!(q.dequeue().unwrap().is_none());
}

#[test]
fn queue_wrap() {
    // run 20 payloads of varying sizes through an 8-slot ring in lockstep;
    // each dequeue returns the matching payload and nothing overflows.
    let mut q = MmapQueue::create(8, 128).unwrap();
    for i in 0..20u8 {
        let msg = vec![i; 1 + (i as usize * 7) % 128];
        assert!(q.enqueue(&msg).is_ok());
        let got = q.dequeue().unwrap().expect("expected message");
        assert_eq!(got, msg);
    }
    assert!(q.dequeue().unwrap().is_none());
}

#[test]
fn capacity_must_be_power_of_two() {
    assert!(matches!(
        MmapQueue::create(6, 16),
        Err(QueueError::CapacityNotPowerOfTwo)
    ));
    assert!(MmapQueue::create(4, 16).is_ok());
}

#[test]
fn overflow_reported_and_cleared() {
    let mut q = MmapQueue::create(2, 8).unwrap();
    q.enqueue(&[1]).unwrap();
    q.enqueue(&[2]).unwrap();
    assert_eq!(q.enqueue(&[3]), Err(QueueError::Overflow));
    // after a dequeue the next enqueue succeeds again
    assert_eq!(q.dequeue().unwrap(), Some(vec![1]));
    assert!(q.enqueue(&[3]).is_ok());
    assert_eq!(q.dequeue().unwrap(), Some(vec![2]));
    assert_eq!(q.dequeue().unwrap(), Some(vec![3]));
}

#[test]
fn oversize_payload_rejected() {
    let mut q = MmapQueue::create(2, 4).unwrap();
    assert_eq!(q.enqueue(&[0; 5]), Err(QueueError::PayloadTooLarge));
    assert!(q.enqueue(&[0; 4]).is_ok());
}

#[test]
fn header_size_is_fixed() {
    assert_eq!(lob::queue::Header::size(), 48);
}

#[test]
fn open_rejects_invalid_headers() {
    // a zeroed map large enough for a header: wrong magic
    let blank = memmap2::MmapMut::map_anon(256).unwrap();
    assert!(matches!(
        MmapQueue::open(blank),
        Err(QueueError::MagicMismatch)
    ));
    // too small to hold a header at all
    let tiny = memmap2::MmapMut::map_anon(16).unwrap();
    assert!(matches!(MmapQueue::open(tiny), Err(QueueError::TooSmall)));
}

#[test]
fn create_in_validates_capacity_and_size() {
    // capacity 4, max payload 12: the file must be 48 + 4 * 16 bytes
    let right = memmap2::MmapMut::map_anon(48 + 4 * 16).unwrap();
    let q = MmapQueue::create_in(right, 4, 12);
    assert!(q.is_ok());
    let wrong_size = memmap2::MmapMut::map_anon(100).unwrap();
    assert!(matches!(
        MmapQueue::create_in(wrong_size, 4, 12),
        Err(QueueError::SizeMismatch)
    ));
    let not_pow2 = memmap2::MmapMut::map_anon(48 + 3 * 16).unwrap();
    assert!(matches!(
        MmapQueue::create_in(not_pow2, 3, 12),
        Err(QueueError::CapacityNotPowerOfTwo)
    ));
}

#[test]
fn create_in_resets_a_recycled_map() {
    // scribble over the header and slot region of a recycled map; creating
    // a queue in it must zero the slots and reset both counters
    let mut dirty = memmap2::MmapMut::map_anon(48 + 2 * 8).unwrap();
    for b in dirty.iter_mut() {
        *b = 0xAB;
    }
    let mut q = MmapQueue::create_in(dirty, 2, 4).unwrap();
    assert!(q.dequeue().unwrap().is_none());
    q.enqueue(&[9, 9]).unwrap();
    assert_eq!(q.dequeue().unwrap(), Some(vec![9, 9]));
}
