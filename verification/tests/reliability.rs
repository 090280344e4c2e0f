use mixnet_core::acks::ExpiryAction;
use mixnet_core::acks::PendingAckTable;
use mixnet_core::acks::ack_key;
use mixnet_core::acks::ack_wait_ms;
use mixnet_core::config::PacketSizeKind;
use mixnet_core::config::TrafficConfig;
use mixnet_core::controller::InputMessage;
use mixnet_core::controller::RealMessagesController;
use mixnet_core::controller::ReplySurb;
use mixnet_core::controller::SubmitError;
use mixnet_core::controller::TimerOutcome;
use mixnet_core::fragment::Fragment;
use mixnet_core::fragment::fragment_payload;
use mixnet_core::reassembly::InsertOutcome;
use mixnet_core::reassembly::ReassemblyBuffer;
use mixnet_core::reply_keys::ReplyKeyStore;
use mixnet_core::sender::MixTrafficSender;
use mixnet_core::sender::PacketKind;
use mixnet_core::topology::Topology;

fn test_config() -> TrafficConfig {
    TrafficConfig {
        average_packet_delay_ms: 50,
        average_ack_delay_ms: 50,
        message_sending_average_delay_ms: 20,
        loop_cover_average_delay_ms: 200,
        ack_wait_multiplier_num: 3,
        ack_wait_multiplier_den: 2,
        ack_wait_addition_ms: 1500,
        max_retries: 2,
        disabled_poisson_rate: false,
        packet_size: PacketSizeKind::Standard,
    }
}

fn test_topology() -> Topology {
    Topology::from_parts(1, vec![vec![11, 12], vec![21], vec![31, 32, 33]], vec![99])
}

fn sample_fragment(message_id: u32) -> Fragment {
    Fragment { message_id, index: 0, total: 1, payload: vec![1, 2, 3] }
}

#[test]
fn ack_wait_formula_is_exact() {
    // 1500 + (100 * 8 * 3) / 2 = 1500 + 1200
    assert_eq!(ack_wait_ms(100, 8, 3, 2, 1500), 2700);
    // truncating division
    assert_eq!(ack_wait_ms(7, 3, 1, 2, 0), 10);
}

#[test]
fn ack_before_deadline_cancels_retransmission() {
    // with a pending record, an arriving ack removes it and a later timer
    // expiry resends nothing
    let mut table = PendingAckTable::new(3);
    let fragment = sample_fragment(1);
    let key = ack_key(&fragment);
    table.register(fragment, 42, 500);
    assert!(table.is_pending(key));
    assert!(table.ack_received(key));
    assert!(!table.is_pending(key));
    assert!(matches!(table.deadline_expired(key, 900), ExpiryAction::NotPending));
    assert_eq!(table.pending_count(), 0);
}

#[test]
fn expiry_without_ack_retransmits_exactly_once() {
    let mut table = PendingAckTable::new(3);
    let fragment = sample_fragment(2);
    let key = ack_key(&fragment);
    table.register(fragment, 42, 500);
    match table.deadline_expired(key, 900) {
        ExpiryAction::Retransmit(f, recipient, fresh) => {
            assert_eq!(f.message_id, 2);
            assert_eq!(f.payload, vec![1, 2, 3]);
            assert_eq!(recipient, 42);
            assert_eq!(fresh, 900);
        },
        _ => panic!("expected retransmission"),
    }
    // still exactly one record, now with the fresh deadline
    assert_eq!(table.pending_count(), 1);
}

#[test]
fn retry_budget_exhaustion_gives_up() {
    // max_retries resends, then the fragment is dropped and no timer fires
    let mut table = PendingAckTable::new(2);
    let fragment = sample_fragment(3);
    let key = ack_key(&fragment);
    table.register(fragment, 42, 100);
    assert!(matches!(table.deadline_expired(key, 200), ExpiryAction::Retransmit(_, _, _)));
    assert!(matches!(table.deadline_expired(key, 300), ExpiryAction::Retransmit(_, _, _)));
    match table.deadline_expired(key, 400) {
        ExpiryAction::GiveUp(f) => assert_eq!(f.message_id, 3),
        _ => panic!("expected the budget to be spent"),
    }
    assert_eq!(table.pending_count(), 0);
    assert!(matches!(table.deadline_expired(key, 500), ExpiryAction::NotPending));
}

#[test]
fn unknown_ack_is_ignored() {
    let mut table = PendingAckTable::new(2);
    assert!(!table.ack_received(777));
    assert_eq!(table.pending_count(), 0);
}

#[test]
fn submission_errors_are_exact() {
    let topology = test_topology();
    let mut store = ReplyKeyStore::new();
    let mut controller = RealMessagesController::new(test_config());
    let key32 = vec![0u8; 32];

    // too few route picks for a 3-fragment message
    let payload = vec![7u8; 3 * 2048 - 100];
    let r = controller.handle_input(
        InputMessage::Fresh { recipient: 42, payload, with_reply_surb: false },
        &topology,
        &vec![vec![0, 0, 0], vec![1, 1, 1]],
        1,
        key32.clone(),
        &mut store,
        0,
    );
    assert!(matches!(r, Err(SubmitError::InsufficientRouteRandomness)));

    // a pick that does not cover every layer
    let r = controller.handle_input(
        InputMessage::Fresh { recipient: 42, payload: vec![1], with_reply_surb: false },
        &topology,
        &vec![vec![0, 0]],
        1,
        key32.clone(),
        &mut store,
        0,
    );
    assert!(matches!(r, Err(SubmitError::InsufficientRouteRandomness)));

    // a reply that cannot fit its single packet
    let r = controller.handle_input(
        InputMessage::Reply {
            surb: ReplySurb { reply_id: 5, route: vec![11, 21, 31, 42] },
            payload: vec![0u8; 2049],
        },
        &topology,
        &Vec::new(),
        1,
        key32.clone(),
        &mut store,
        0,
    );
    assert!(matches!(r, Err(SubmitError::ReplyTooLong)));

    // a reply identifier already in use
    store.insert_key(8, key32.clone());
    let r = controller.handle_input(
        InputMessage::Fresh { recipient: 42, payload: vec![1], with_reply_surb: true },
        &topology,
        &vec![vec![0, 0, 0]],
        8,
        key32.clone(),
        &mut store,
        0,
    );
    assert!(matches!(r, Err(SubmitError::ReplyIdentifierInUse)));
    // nothing was registered by any rejected submission
    assert_eq!(controller.pending_acks(), 0);
}

#[test]
fn reply_travels_its_embedded_path_without_ack_tracking() {
    let topology = test_topology();
    let mut store = ReplyKeyStore::new();
    let mut controller = RealMessagesController::new(test_config());
    let surb_route = vec![12, 21, 33, 4242];
    let r = controller
        .handle_input(
            InputMessage::Reply {
                surb: ReplySurb { reply_id: 5, route: surb_route.clone() },
                payload: vec![9, 9, 9],
            },
            &topology,
            &Vec::new(),
            1,
            vec![0u8; 32],
            &mut store,
            0,
        )
        .unwrap();
    assert_eq!(r.len(), 1);
    assert_eq!(r[0].route, surb_route);
    // the single-use return path cannot be rewrapped, so nothing is tracked
    assert_eq!(controller.pending_acks(), 0);
}

#[test]
fn end_to_end_fresh_message_with_reply() {
    // a 3-fragment fresh message asking for reply capability: three packets
    // handed to the sender, three pending acknowledgements, one reply key
    // record; acking all three clears the table; the later reply delivers
    // and consumes the record
    let topology = test_topology();
    let mut store = ReplyKeyStore::new();
    let mut controller = RealMessagesController::new(test_config());
    let mut sender = MixTrafficSender::new();
    let payload = vec![5u8; 2 * 2048 + 123];
    let reply_key = vec![7u8; 32];
    let picks = vec![vec![0, 0, 0], vec![1, 0, 1], vec![0, 0, 2]];

    let packets = controller
        .handle_input(
            InputMessage::Fresh { recipient: 4242, payload: payload.clone(), with_reply_surb: true },
            &topology,
            &picks,
            77,
            reply_key.clone(),
            &mut store,
            1000,
        )
        .unwrap();
    assert_eq!(packets.len(), 3);
    assert_eq!(controller.pending_acks(), 3);
    assert!(store.holds_key(77));

    let mut acks = Vec::new();
    for p in packets {
        assert_eq!(p.route.len(), 4);
        assert_eq!(*p.route.last().unwrap(), 4242);
        match p.kind {
            PacketKind::Real(f) => {
                assert_eq!(f.total, 3);
                acks.push(ack_key(&f));
            },
            _ => panic!("expected real packets"),
        }
        sender.enqueue(mixnet_core::sender::MixPacket { route: p.route, kind: PacketKind::Cover(PacketSizeKind::Standard) });
    }
    assert_eq!(sender.backlog(), 3);

    // acks loop back through the mix network and cancel all three records
    for key in acks {
        assert!(controller.on_ack(key));
    }
    assert_eq!(controller.pending_acks(), 0);

    // the reply arrives, is reassembled, and its key record is consumed once
    let reply_payload = vec![3u8; 10];
    let mut buffer = ReassemblyBuffer::new(5000);
    let reply_frags = fragment_payload(900, &reply_payload, 2048);
    let mut delivered = None;
    for f in reply_frags {
        if let InsertOutcome::Completed(p) = buffer.insert_fragment(f, 2000) {
            delivered = Some(p);
        }
    }
    assert_eq!(delivered.unwrap(), reply_payload);
    assert_eq!(store.consume_key(77).unwrap(), reply_key);
    assert!(store.consume_key(77).is_none());
    assert!(!store.holds_key(77));
}

#[test]
fn timer_expiry_resends_along_fresh_route() {
    let topology = test_topology();
    let mut store = ReplyKeyStore::new();
    let mut controller = RealMessagesController::new(test_config());
    let packets = controller
        .handle_input(
            InputMessage::Fresh { recipient: 4242, payload: vec![1, 2, 3], with_reply_surb: false },
            &topology,
            &vec![vec![0, 0, 0]],
            1,
            vec![0u8; 32],
            &mut store,
            1000,
        )
        .unwrap();
    assert_eq!(packets.len(), 1);
    let key = match &packets[0].kind {
        PacketKind::Real(f) => ack_key(f),
        _ => panic!("expected a real packet"),
    };
    // no ack arrives: the deadline expires and the fragment is resent once,
    // along the freshly picked route
    match controller.on_timer(key, &topology, &vec![1, 0, 2], 5000) {
        TimerOutcome::Resent(p) => {
            assert_eq!(p.route, vec![12, 21, 33, 4242]);
            match p.kind {
                PacketKind::Real(f) => assert_eq!(f.payload, vec![1, 2, 3]),
                _ => panic!("expected the retained fragment"),
            }
        },
        _ => panic!("expected a retransmission"),
    }
    assert!(controller.is_pending(key));
    // the matching ack arrives before the fresh deadline: the retransmission
    // chain stops here
    assert!(controller.on_ack(key));
    assert!(matches!(
        controller.on_timer(key, &topology, &vec![0, 0, 0], 9000),
        TimerOutcome::NotPending
    ));
}

#[test]
fn exhausted_identifier_space_is_reported() {
    let topology = test_topology();
    let mut store = ReplyKeyStore::new();
    let mut controller = RealMessagesController::resuming(test_config(), u32::MAX);
    let r = controller.handle_input(
        InputMessage::Fresh { recipient: 1, payload: vec![1], with_reply_surb: false },
        &topology,
        &vec![vec![0, 0, 0]],
        1,
        vec![0u8; 32],
        &mut store,
        0,
    );
    assert!(matches!(r, Err(SubmitError::MessageIdsExhausted)));
}

#[test]
fn controller_gives_a_fragment_up_after_its_budget() {
    let topology = test_topology();
    let mut store = ReplyKeyStore::new();
    // a budget of two retransmissions
    let mut controller = RealMessagesController::new(test_config());
    let packets = controller
        .handle_input(
            InputMessage::Fresh { recipient: 9, payload: vec![4, 5], with_reply_surb: false },
            &topology,
            &vec![vec![0, 0, 0]],
            1,
            vec![0u8; 32],
            &mut store,
            0,
        )
        .unwrap();
    let key = match &packets[0].kind {
        PacketKind::Real(f) => ack_key(f),
        _ => panic!("expected a real packet"),
    };
    assert!(matches!(controller.on_timer(key, &topology, &vec![0, 0, 0], 10_000), TimerOutcome::Resent(_)));
    assert!(matches!(controller.on_timer(key, &topology, &vec![1, 0, 0], 20_000), TimerOutcome::Resent(_)));
    match controller.on_timer(key, &topology, &vec![0, 0, 1], 30_000) {
        TimerOutcome::GivenUp(f) => assert_eq!(f.payload, vec![4, 5]),
        _ => panic!("expected the budget to be spent"),
    }
    // no further timer fires for it
    assert!(!controller.is_pending(key));
    assert!(matches!(
        controller.on_timer(key, &topology, &vec![0, 0, 0], 40_000),
        TimerOutcome::NotPending
    ));
}

#[test]
fn message_identifiers_advance_per_submission() {
    let topology = test_topology();
    let mut store = ReplyKeyStore::new();
    let mut controller = RealMessagesController::new(test_config());
    for expected_mid in 0u32..3 {
        let packets = controller
            .handle_input(
                InputMessage::Fresh { recipient: 1, payload: vec![1], with_reply_surb: false },
                &topology,
                &vec![vec![0, 0, 0]],
                1,
                vec![0u8; 32],
                &mut store,
                0,
            )
            .unwrap();
        match &packets[0].kind {
            PacketKind::Real(f) => assert_eq!(f.message_id, expected_mid),
            _ => panic!("expected a real packet"),
        }
    }
}
