use mixnet_core::fragment::Fragment;
use mixnet_core::fragment::fragment_payload;
use mixnet_core::reassembly::InsertOutcome;
use mixnet_core::reassembly::ReassemblyBuffer;

fn payload_of(len: usize) -> Vec<u8> {
    let mut v = Vec::new();
    for i in 0..len {
        v.push((i % 251) as u8);
    }
    v
}

#[test]
fn fragmentation_cuts_in_order() {
    let payload: Vec<u8> = vec![1, 2, 3, 4, 5, 6, 7, 8, 9, 10];
    let frags = fragment_payload(7, &payload, 4);
    assert_eq!(frags.len(), 3);
    for (i, f) in frags.iter().enumerate() {
        assert_eq!(f.message_id, 7);
        assert_eq!(f.index, i as u32);
        assert_eq!(f.total, 3);
    }
    assert_eq!(frags[0].payload, vec![1, 2, 3, 4]);
    assert_eq!(frags[1].payload, vec![5, 6, 7, 8]);
    assert_eq!(frags[2].payload, vec![9, 10]);
}

#[test]
fn empty_message_still_yields_one_fragment() {
    let payload: Vec<u8> = Vec::new();
    let frags = fragment_payload(3, &payload, 16);
    assert_eq!(frags.len(), 1);
    assert_eq!(frags[0].index, 0);
    assert_eq!(frags[0].total, 1);
    assert!(frags[0].payload.is_empty());
}

#[test]
fn exact_multiple_has_no_ragged_tail() {
    let payload = payload_of(12);
    let frags = fragment_payload(1, &payload, 4);
    assert_eq!(frags.len(), 3);
    for f in &frags {
        assert_eq!(f.payload.len(), 4);
    }
}

#[test]
fn round_trip_in_any_order() {
    // every permutation of three fragments restores the payload exactly
    let payload = payload_of(10);
    let orders: [[usize; 3]; 6] = [
        [0, 1, 2],
        [0, 2, 1],
        [1, 0, 2],
        [1, 2, 0],
        [2, 0, 1],
        [2, 1, 0],
    ];
    for order in orders.iter() {
        let frags = fragment_payload(21, &payload, 4);
        let mut by_index: Vec<Option<Fragment>> = frags.into_iter().map(Some).collect();
        let mut buffer = ReassemblyBuffer::new(1000);
        let mut delivered: Vec<Vec<u8>> = Vec::new();
        for &k in order.iter() {
            let f = by_index[k].take().unwrap();
            match buffer.insert_fragment(f, 50) {
                InsertOutcome::Completed(p) => delivered.push(p),
                InsertOutcome::Pending => {},
                _ => panic!("unexpected outcome"),
            }
        }
        assert_eq!(delivered.len(), 1);
        assert_eq!(delivered[0], payload);
    }
}

#[test]
fn single_fragment_message_completes_immediately() {
    let payload = payload_of(5);
    let frags = fragment_payload(9, &payload, 16);
    assert_eq!(frags.len(), 1);
    let mut buffer = ReassemblyBuffer::new(1000);
    match buffer.insert_fragment(frags.into_iter().next().unwrap(), 0) {
        InsertOutcome::Completed(p) => assert_eq!(p, payload),
        _ => panic!("expected completion"),
    }
}

#[test]
fn duplicate_fragment_is_ignored() {
    let payload = payload_of(8);
    let frags = fragment_payload(4, &payload, 4);
    assert_eq!(frags.len(), 2);
    let dup = Fragment {
        message_id: frags[0].message_id,
        index: frags[0].index,
        total: frags[0].total,
        payload: frags[0].payload.clone(),
    };
    let mut buffer = ReassemblyBuffer::new(1000);
    let mut it = frags.into_iter();
    assert!(matches!(buffer.insert_fragment(it.next().unwrap(), 0), InsertOutcome::Pending));
    assert!(matches!(buffer.insert_fragment(dup, 0), InsertOutcome::Duplicate));
    match buffer.insert_fragment(it.next().unwrap(), 0) {
        InsertOutcome::Completed(p) => assert_eq!(p, payload),
        _ => panic!("expected completion"),
    }
}

#[test]
fn completed_set_fed_twice_delivers_once() {
    // reassembly idempotence: the same fragment set a second time is a no-op
    let payload = payload_of(9);
    let first = fragment_payload(11, &payload, 4);
    let second = fragment_payload(11, &payload, 4);
    let mut buffer = ReassemblyBuffer::new(1000);
    let mut deliveries = 0;
    for f in first {
        if let InsertOutcome::Completed(p) = buffer.insert_fragment(f, 0) {
            assert_eq!(p, payload);
            deliveries += 1;
        }
    }
    assert_eq!(deliveries, 1);
    for f in second {
        assert!(matches!(buffer.insert_fragment(f, 0), InsertOutcome::AlreadyCompleted));
    }
    assert!(buffer.is_completed(11));
}

#[test]
fn mismatched_total_is_rejected_without_damage() {
    let payload = payload_of(8);
    let frags = fragment_payload(5, &payload, 4);
    let mut buffer = ReassemblyBuffer::new(1000);
    let mut it = frags.into_iter();
    assert!(matches!(buffer.insert_fragment(it.next().unwrap(), 0), InsertOutcome::Pending));
    let liar = Fragment { message_id: 5, index: 1, total: 9, payload: vec![0] };
    assert!(matches!(buffer.insert_fragment(liar, 0), InsertOutcome::Rejected));
    // the honest remainder still completes
    match buffer.insert_fragment(it.next().unwrap(), 0) {
        InsertOutcome::Completed(p) => assert_eq!(p, payload),
        _ => panic!("expected completion"),
    }
}

#[test]
fn malformed_header_is_rejected() {
    let mut buffer = ReassemblyBuffer::new(1000);
    let zero_total = Fragment { message_id: 1, index: 0, total: 0, payload: vec![1] };
    assert!(matches!(buffer.insert_fragment(zero_total, 0), InsertOutcome::Rejected));
    let bad_index = Fragment { message_id: 1, index: 5, total: 2, payload: vec![1] };
    assert!(matches!(buffer.insert_fragment(bad_index, 0), InsertOutcome::Rejected));
}

#[test]
fn stale_incomplete_entry_is_evicted() {
    // staleness eviction: an incomplete message is purged after its window
    let payload = payload_of(8);
    let frags = fragment_payload(6, &payload, 4);
    let mut buffer = ReassemblyBuffer::new(100);
    let mut it = frags.into_iter();
    assert!(matches!(buffer.insert_fragment(it.next().unwrap(), 10), InsertOutcome::Pending));
    assert_eq!(buffer.in_flight(), 1);
    // before the deadline the entry survives
    buffer.evict_stale(109);
    assert_eq!(buffer.in_flight(), 1);
    // after it, the entry is gone and memory is released
    buffer.evict_stale(111);
    assert_eq!(buffer.in_flight(), 0);
    // the message was never delivered, so it is not marked completed: a full
    // retransmission could still deliver it later
    assert!(!buffer.is_completed(6));
    assert!(matches!(buffer.insert_fragment(it.next().unwrap(), 200), InsertOutcome::Pending));
}
