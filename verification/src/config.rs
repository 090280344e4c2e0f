//! Client traffic configuration and startup validation.

use vstd::prelude::*;

verus! {

/// The closed set of packet size variants. Every packet of a stream uses one
/// variant, so cover and real packets are indistinguishable in size.
#[derive(Clone, Copy, PartialEq, Eq, Structural, Debug)]
pub enum PacketSizeKind {
    Standard,
    Extended,
}

impl PacketSizeKind {
    /// How many payload bytes one packet of this variant carries.
    pub open spec fn spec_capacity(&self) -> nat {
        match self {
            PacketSizeKind::Standard => 2048,
            PacketSizeKind::Extended => 32768,
        }
    }

    pub fn payload_capacity(&self) -> (r: usize)
        ensures
            r == self.spec_capacity(),
            r >= 1,
    {
        match self {
            PacketSizeKind::Standard => 2048,
            PacketSizeKind::Extended => 32768,
        }
    }
}

/// The tunable parameters of the traffic engine. Delays are averages of the
/// randomized draws; the acknowledgement wait is scaled by the ratio
/// `ack_wait_multiplier_num / ack_wait_multiplier_den` and stretched by
/// `ack_wait_addition_ms`.
pub struct TrafficConfig {
    /// Average per-hop delay of a packet on its way out.
    pub average_packet_delay_ms: u64,
    /// Average per-hop delay of an acknowledgement on its way back.
    pub average_ack_delay_ms: u64,
    /// Average wait between two real packet emissions (Poisson pacing).
    pub message_sending_average_delay_ms: u64,
    /// Average wait between two cover packets.
    pub loop_cover_average_delay_ms: u64,
    pub ack_wait_multiplier_num: u64,
    pub ack_wait_multiplier_den: u64,
    pub ack_wait_addition_ms: u64,
    /// How often an unacknowledged fragment is resent before it is given up.
    pub max_retries: u32,
    /// Disables the randomized pacing of real traffic: an operator-visible
    /// tradeoff of anonymity for bulk throughput.
    pub disabled_poisson_rate: bool,
    pub packet_size: PacketSizeKind,
}

impl TrafficConfig {
    pub open spec fn wf(&self) -> bool {
        self.ack_wait_multiplier_den >= 1
    }

    /// The wait before the next real packet emission, `drawn_delay_ms` being
    /// the caller's draw from the exponential distribution: the draw as it
    /// stands, or no wait at all when pacing is disabled.
    pub fn next_send_delay(&self, drawn_delay_ms: u64) -> (r: u64)
        ensures
            self.disabled_poisson_rate ==> r == 0,
            !self.disabled_poisson_rate ==> r == drawn_delay_ms,
    {
        if self.disabled_poisson_rate {
            0
        } else {
            drawn_delay_ms
        }
    }
}

/// Why the client cannot talk to its gateway. Any of these at startup is
/// fatal: the client refuses to start rather than run without a gateway.
pub enum GatewayEndpointError {
    MissingIdentity,
    MissingOwner,
    MissingAddress,
}

/// Checks the configured gateway endpoint. Succeeds exactly when identity,
/// owner and listener address are all present; otherwise names the first
/// missing field, in that order.
pub fn validate_gateway_endpoint(identity: &str, owner: &str, address: &str) -> (r: Result<
    (),
    GatewayEndpointError,
>)
    ensures
        r is Ok <==> identity@.len() > 0 && owner@.len() > 0 && address@.len() > 0,
        identity@.len() == 0 ==> r == Result::<(), GatewayEndpointError>::Err(
            GatewayEndpointError::MissingIdentity,
        ),
        identity@.len() > 0 && owner@.len() == 0 ==> r == Result::<(), GatewayEndpointError>::Err(
            GatewayEndpointError::MissingOwner,
        ),
        identity@.len() > 0 && owner@.len() > 0 && address@.len() == 0 ==> r == Result::<
            (),
            GatewayEndpointError,
        >::Err(GatewayEndpointError::MissingAddress),
{
    if identity.unicode_len() == 0 {
        Err(GatewayEndpointError::MissingIdentity)
    } else if owner.unicode_len() == 0 {
        Err(GatewayEndpointError::MissingOwner)
    } else if address.unicode_len() == 0 {
        Err(GatewayEndpointError::MissingAddress)
    } else {
        Ok(())
    }
}

} // verus!
