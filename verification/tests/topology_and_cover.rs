use mixnet_core::config::PacketSizeKind;
use mixnet_core::cover::CoverTrafficStream;
use mixnet_core::cover::emitted_count;
use mixnet_core::sender::MixPacket;
use mixnet_core::sender::MixTrafficSender;
use mixnet_core::sender::PacketKind;
use mixnet_core::sender::TransportOutcome;
use mixnet_core::sender::classify_send_result;
use mixnet_core::topology::RefreshOutcome;
use mixnet_core::topology::Topology;
use mixnet_core::topology::TopologyAccessor;
use mixnet_core::topology::select_path;

fn snapshot(epoch: u64) -> Topology {
    Topology::from_parts(epoch, vec![vec![11, 12], vec![21, 22], vec![31]], vec![99, 98])
}

#[test]
fn routability_requires_full_layers_and_the_gateway() {
    let t = snapshot(1);
    assert!(t.is_routable(99));
    assert!(t.is_routable(98));
    assert!(!t.is_routable(97));
    let hollow = Topology::from_parts(1, vec![vec![11], vec![], vec![31]], vec![99]);
    assert!(!hollow.is_routable(99));
    let empty = Topology::from_parts(1, Vec::new(), vec![99]);
    assert!(!empty.is_routable(99));
}

#[test]
fn snapshots_never_mix_refresh_cycles() {
    // topology atomicity: a reader takes the whole installed snapshot, and
    // every node of it carries one refresh cycle
    let mut accessor = TopologyAccessor::new();
    assert!(accessor.snapshot().is_none());
    assert!(matches!(accessor.apply_refresh(Some(snapshot(1)), 99), RefreshOutcome::Installed));
    {
        let first = accessor.snapshot().unwrap();
        for layer in &first.layers {
            for node in layer {
                assert_eq!(node.epoch, first.epoch);
            }
        }
        assert_eq!(first.epoch, 1);
    }
    assert!(matches!(accessor.apply_refresh(Some(snapshot(2)), 99), RefreshOutcome::Installed));
    let second = accessor.snapshot().unwrap();
    assert_eq!(second.epoch, 2);
    for layer in &second.layers {
        for node in layer {
            // nothing of the previous cycle survives in the new snapshot
            assert_eq!(node.epoch, 2);
        }
    }
}

#[test]
fn failed_initial_refresh_is_fatal() {
    let mut accessor = TopologyAccessor::new();
    assert!(matches!(accessor.apply_refresh(None, 99), RefreshOutcome::FatalStartupFailure));
    let hollow = Topology::from_parts(1, vec![vec![11], vec![], vec![31]], vec![99]);
    assert!(matches!(
        accessor.apply_refresh(Some(hollow), 99),
        RefreshOutcome::FatalStartupFailure
    ));
    assert!(accessor.snapshot().is_none());
}

#[test]
fn failed_periodic_refresh_keeps_last_known_good() {
    let mut accessor = TopologyAccessor::new();
    assert!(matches!(accessor.apply_refresh(Some(snapshot(1)), 99), RefreshOutcome::Installed));
    // the next fetch fails: stale topology is preferred over none
    assert!(matches!(accessor.apply_refresh(None, 99), RefreshOutcome::KeptPrevious));
    assert_eq!(accessor.snapshot().unwrap().epoch, 1);
    // an unroutable fetch is not installed either
    let hollow = Topology::from_parts(3, vec![vec![11], vec![], vec![31]], vec![99]);
    assert!(matches!(accessor.apply_refresh(Some(hollow), 99), RefreshOutcome::KeptPrevious));
    assert_eq!(accessor.snapshot().unwrap().epoch, 1);
}

#[test]
fn paths_follow_the_picks() {
    let t = snapshot(1);
    let route = select_path(&t, &vec![1, 2, 5]);
    // picks are reduced modulo each layer's size
    assert_eq!(route, vec![12, 21, 31]);
}

#[test]
fn cover_packets_loop_back_to_self() {
    let t = snapshot(1);
    let stream = CoverTrafficStream {
        average_delay_ms: 200,
        packet_size: PacketSizeKind::Extended,
        self_address: 777,
    };
    let packet = stream.next_cover_packet(&t, &vec![0, 1, 0]);
    assert_eq!(packet.route, vec![11, 22, 31, 777]);
    assert!(matches!(packet.kind, PacketKind::Cover(PacketSizeKind::Extended)));
}

#[test]
fn schedule_counts_whole_intervals_only() {
    assert_eq!(emitted_count(&vec![10, 10, 10], 25), 2);
    assert_eq!(emitted_count(&vec![10, 10, 10], 30), 3);
    assert_eq!(emitted_count(&vec![40], 30), 0);
    assert_eq!(emitted_count(&Vec::new(), 1000), 0);
    assert_eq!(emitted_count(&vec![0, 0, 5], 0), 2);
}

#[test]
fn cover_rate_matches_poisson_intensity() {
    // exponentially distributed draws around an average delay of mu must
    // yield close to duration / mu packets over a long run: no systematic
    // timing bias in the schedule
    let mu_ms = 100.0f64;
    let duration_ms: u64 = 1_000_000;
    let mut state: u64 = 0x2545F4914F6CDD1D;
    let mut delays: Vec<u64> = Vec::new();
    let mut total: u64 = 0;
    while total < 2 * duration_ms {
        // xorshift* uniform draw, mapped through the exponential inverse CDF
        state ^= state >> 12;
        state ^= state << 25;
        state ^= state >> 27;
        let uniform = ((state.wrapping_mul(0x2545F4914F6CDD1D)) >> 11) as f64
            / (1u64 << 53) as f64;
        let u = if uniform <= 0.0 { f64::MIN_POSITIVE } else { uniform };
        let delay = (-mu_ms * u.ln()).round() as u64;
        delays.push(delay);
        total += delay;
    }
    let count = emitted_count(&delays, duration_ms) as f64;
    let expected = duration_ms as f64 / mu_ms;
    // within five standard deviations of the Poisson count
    let tolerance = 5.0 * expected.sqrt();
    assert!(
        (count - expected).abs() < tolerance,
        "count {} outside tolerance around {}",
        count,
        expected
    );
}

#[test]
fn sender_releases_packets_oldest_first_and_drops_none() {
    let mut sender = MixTrafficSender::new();
    assert!(sender.next_packet().is_none());
    for i in 0..5u64 {
        sender.enqueue(MixPacket {
            route: vec![i],
            kind: PacketKind::Cover(PacketSizeKind::Standard),
        });
    }
    assert_eq!(sender.backlog(), 5);
    for i in 0..5u64 {
        let p = sender.next_packet().unwrap();
        assert_eq!(p.route, vec![i]);
    }
    assert_eq!(sender.backlog(), 0);
    assert!(sender.next_packet().is_none());
}

#[test]
fn transport_failure_is_fatal() {
    assert!(matches!(classify_send_result(true), TransportOutcome::Sent));
    assert!(matches!(
        classify_send_result(false),
        TransportOutcome::FatalTransportFailure
    ));
}
