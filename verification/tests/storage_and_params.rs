use mixnet_core::config::GatewayEndpointError;
use mixnet_core::config::PacketSizeKind;
use mixnet_core::config::TrafficConfig;
use mixnet_core::config::validate_gateway_endpoint;
use mixnet_core::reply_keys::ReplyKeyStore;
use mixnet_core::reply_keys::StoreDecodeError;
use mixnet_core::reward::NodeRewardParams;
use mixnet_core::reward::PERCENT_SCALE;
use mixnet_core::reward::Percent;
use mixnet_core::reward::PercentError;
use mixnet_core::vesting::VestingPeriod;
use mixnet_core::vesting::VestingSpecification;
use mixnet_core::vesting::populate_vesting_periods;

fn key_of(byte: u8) -> Vec<u8> {
    vec![byte; 32]
}

#[test]
fn reply_keys_are_single_use() {
    let mut store = ReplyKeyStore::new();
    store.insert_key(1, key_of(0xAA));
    store.insert_key(2, key_of(0xBB));
    assert_eq!(store.len(), 2);
    assert!(store.holds_key(1));
    assert_eq!(store.consume_key(1).unwrap(), key_of(0xAA));
    // consumed atomically with use: a second consumption finds nothing
    assert!(store.consume_key(1).is_none());
    assert!(!store.holds_key(1));
    assert_eq!(store.len(), 1);
}

#[test]
fn store_encoding_survives_a_restart() {
    let mut store = ReplyKeyStore::new();
    store.insert_key(7, key_of(0x01));
    store.insert_key(u64::MAX, key_of(0x02));
    store.insert_key(0, key_of(0x03));
    let bytes = store.encode();
    assert_eq!(bytes.len(), 3 * 40);
    let mut reloaded = ReplyKeyStore::decode(&bytes).unwrap();
    assert_eq!(reloaded.len(), 3);
    assert_eq!(reloaded.consume_key(7).unwrap(), key_of(0x01));
    assert_eq!(reloaded.consume_key(u64::MAX).unwrap(), key_of(0x02));
    assert_eq!(reloaded.consume_key(0).unwrap(), key_of(0x03));
}

#[test]
fn empty_store_encodes_to_nothing() {
    let store = ReplyKeyStore::new();
    let bytes = store.encode();
    assert!(bytes.is_empty());
    let reloaded = ReplyKeyStore::decode(&bytes).unwrap();
    assert_eq!(reloaded.len(), 0);
}

#[test]
fn corrupt_store_images_are_refused() {
    // a truncated image is not whole records
    let mut store = ReplyKeyStore::new();
    store.insert_key(7, key_of(0x01));
    let mut bytes = store.encode();
    bytes.pop();
    assert!(matches!(ReplyKeyStore::decode(&bytes), Err(StoreDecodeError::Malformed)));

    // an image repeating an identifier is refused too
    let mut twice = store.encode();
    let again = store.encode();
    twice.extend(again);
    assert!(matches!(
        ReplyKeyStore::decode(&twice),
        Err(StoreDecodeError::DuplicateIdentifier)
    ));
}

#[test]
fn identifier_bytes_are_little_endian() {
    let mut store = ReplyKeyStore::new();
    store.insert_key(0x0102030405060708, key_of(0));
    let bytes = store.encode();
    assert_eq!(&bytes[0..8], &[8, 7, 6, 5, 4, 3, 2, 1]);
}

#[test]
fn gateway_endpoint_validation_names_the_first_missing_field() {
    assert!(validate_gateway_endpoint("id", "owner", "addr").is_ok());
    assert!(matches!(
        validate_gateway_endpoint("", "owner", "addr"),
        Err(GatewayEndpointError::MissingIdentity)
    ));
    assert!(matches!(
        validate_gateway_endpoint("id", "", "addr"),
        Err(GatewayEndpointError::MissingOwner)
    ));
    assert!(matches!(
        validate_gateway_endpoint("id", "owner", ""),
        Err(GatewayEndpointError::MissingAddress)
    ));
}

#[test]
fn poisson_pacing_can_be_disabled_for_throughput() {
    let mut config = TrafficConfig {
        average_packet_delay_ms: 50,
        average_ack_delay_ms: 50,
        message_sending_average_delay_ms: 20,
        loop_cover_average_delay_ms: 200,
        ack_wait_multiplier_num: 3,
        ack_wait_multiplier_den: 2,
        ack_wait_addition_ms: 1500,
        max_retries: 2,
        disabled_poisson_rate: false,
        packet_size: PacketSizeKind::Standard,
    };
    assert_eq!(config.next_send_delay(37), 37);
    config.disabled_poisson_rate = true;
    assert_eq!(config.next_send_delay(37), 0);
}

#[test]
fn packet_size_variants_have_their_capacities() {
    assert_eq!(PacketSizeKind::Standard.payload_capacity(), 2048);
    assert_eq!(PacketSizeKind::Extended.payload_capacity(), 32768);
}

#[test]
fn percent_accepts_the_unit_range_only() {
    let half = Percent::from_percentage_value(50).unwrap();
    assert_eq!(half.atomics(), PERCENT_SCALE / 2);
    assert_eq!(Percent::from_percentage_value(100).unwrap().atomics(), PERCENT_SCALE);
    assert_eq!(Percent::from_percentage_value(0).unwrap().atomics(), 0);
    assert!(Percent::from_percentage_value(0).unwrap().is_zero());
    assert!(matches!(
        Percent::from_percentage_value(101),
        Err(PercentError::ValueOutOfRange)
    ));
    assert_eq!(Percent::hundred().atomics(), PERCENT_SCALE);
    assert_eq!(Percent::zero().atomics(), 0);
}

#[test]
fn node_reward_params_carry_their_inputs() {
    let performance = Percent::from_percentage_value(90).unwrap();
    let params = NodeRewardParams::new(performance, true);
    assert_eq!(params.performance, performance);
    assert!(params.in_active_set);
    let standby = NodeRewardParams::new(Percent::zero(), false);
    assert!(!standby.in_active_set);
}

#[test]
fn vesting_periods_are_laid_out_back_to_back() {
    let spec = VestingSpecification::new(Some(86400), Some(30));
    assert_eq!(spec.period_seconds(), 86400);
    assert_eq!(spec.num_periods(), 30);
    let periods = populate_vesting_periods(1_000_000, spec);
    assert_eq!(periods.len(), 30);
    for (i, p) in periods.iter().enumerate() {
        assert_eq!(p.start_time, 1_000_000 + i as u64 * 86400);
        assert_eq!(p.period_seconds, 86400);
        assert_eq!(p.end_time(), p.start_time + 86400);
    }
    assert_eq!(periods[0].end_time(), periods[1].start_time);
}

#[test]
fn vesting_defaults_are_two_years_of_quarters() {
    let spec = VestingSpecification::new(None, None);
    assert_eq!(spec.period_seconds(), 3 * 30 * 86400);
    assert_eq!(spec.num_periods(), 8);
    let periods = populate_vesting_periods(0, spec);
    assert_eq!(periods.len(), 8);
    assert_eq!(periods[7].start_time, 7 * 3 * 30 * 86400);
}

#[test]
fn vesting_period_end_time_is_start_plus_length() {
    let period = VestingPeriod { start_time: 500, period_seconds: 86400 };
    assert_eq!(period.end_time(), 86900);
}
