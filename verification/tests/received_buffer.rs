use mixnet_core::acks::ack_key;
use mixnet_core::config::PacketSizeKind;
use mixnet_core::config::TrafficConfig;
use mixnet_core::controller::InputMessage;
use mixnet_core::controller::RealMessagesController;
use mixnet_core::fragment::Fragment;
use mixnet_core::fragment::fragment_payload;
use mixnet_core::reassembly::ReassemblyBuffer;
use mixnet_core::received::InboundItem;
use mixnet_core::received::InboundOutcome;
use mixnet_core::received::ReceiverRegistry;
use mixnet_core::received::process_inbound;
use mixnet_core::reply_keys::ReplyKeyStore;
use mixnet_core::sender::PacketKind;
use mixnet_core::topology::Topology;

fn test_config() -> TrafficConfig {
    TrafficConfig {
        average_packet_delay_ms: 50,
        average_ack_delay_ms: 50,
        message_sending_average_delay_ms: 20,
        loop_cover_average_delay_ms: 200,
        ack_wait_multiplier_num: 3,
        ack_wait_multiplier_den: 2,
        ack_wait_addition_ms: 1500,
        max_retries: 2,
        disabled_poisson_rate: false,
        packet_size: PacketSizeKind::Standard,
    }
}

#[test]
fn inbound_items_are_demultiplexed() {
    let topology = Topology::from_parts(1, vec![vec![11], vec![21], vec![31]], vec![99]);
    let mut store = ReplyKeyStore::new();
    let mut controller = RealMessagesController::new(test_config());
    let mut buffer = ReassemblyBuffer::new(5000);

    // one outbound fragment awaits its acknowledgement
    let packets = controller
        .handle_input(
            InputMessage::Fresh { recipient: 7, payload: vec![1, 2], with_reply_surb: false },
            &topology,
            &vec![vec![0, 0, 0]],
            1,
            vec![0u8; 32],
            &mut store,
            0,
        )
        .unwrap();
    let key = match &packets[0].kind {
        PacketKind::Real(f) => ack_key(f),
        _ => panic!("expected a real packet"),
    };
    assert_eq!(controller.pending_acks(), 1);

    // the acknowledgement loops back and cancels the record; the buffer is
    // untouched
    match process_inbound(InboundItem::Ack(key), &mut controller, &mut buffer, 100) {
        InboundOutcome::AckRouted(was_pending) => assert!(was_pending),
        _ => panic!("expected ack routing"),
    }
    assert_eq!(controller.pending_acks(), 0);
    assert_eq!(buffer.in_flight(), 0);

    // an unknown acknowledgement is ignored, not an error
    match process_inbound(InboundItem::Ack(key), &mut controller, &mut buffer, 100) {
        InboundOutcome::AckRouted(was_pending) => assert!(!was_pending),
        _ => panic!("expected ack routing"),
    }

    // inbound fragments flow into reassembly; the controller is untouched
    let inbound = fragment_payload(55, &vec![9u8; 6], 4);
    let mut it = inbound.into_iter();
    assert!(matches!(
        process_inbound(InboundItem::Fragment(it.next().unwrap()), &mut controller, &mut buffer, 100),
        InboundOutcome::Buffered
    ));
    match process_inbound(InboundItem::Fragment(it.next().unwrap()), &mut controller, &mut buffer, 100) {
        InboundOutcome::Delivered(p) => assert_eq!(p, vec![9u8; 6]),
        _ => panic!("expected delivery"),
    }
    assert_eq!(controller.pending_acks(), 0);
}

#[test]
fn bad_inbound_packets_are_isolated() {
    let mut controller = RealMessagesController::new(test_config());
    let mut buffer = ReassemblyBuffer::new(5000);
    let malformed = Fragment { message_id: 1, index: 3, total: 2, payload: vec![1] };
    assert!(matches!(
        process_inbound(InboundItem::Fragment(malformed), &mut controller, &mut buffer, 0),
        InboundOutcome::Discarded
    ));
    // the engine keeps running: a good message still goes through
    let good = fragment_payload(2, &vec![1u8; 3], 4);
    match process_inbound(
        InboundItem::Fragment(good.into_iter().next().unwrap()),
        &mut controller,
        &mut buffer,
        0,
    ) {
        InboundOutcome::Delivered(p) => assert_eq!(p, vec![1u8; 3]),
        _ => panic!("expected delivery"),
    }
}

#[test]
fn one_receiver_at_a_time() {
    let mut registry = ReceiverRegistry::new();
    assert!(registry.active().is_none());
    assert!(registry.register(10).is_none());
    assert_eq!(registry.active(), Some(10));
    // re-registration replaces the previous consumer
    assert_eq!(registry.register(11), Some(10));
    assert_eq!(registry.active(), Some(11));
    assert_eq!(registry.disconnect(), Some(11));
    assert!(registry.active().is_none());
    assert!(registry.disconnect().is_none());
}
