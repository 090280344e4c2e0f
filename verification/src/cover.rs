//! The cover traffic generator.
//!
//! At randomized intervals — exponentially distributed draws around a
//! configured average, made by the caller — the generator emits one synthetic
//! packet, routed through a random path back to the client's own address, so
//! that cover traffic is indistinguishable from an average real packet. Each
//! drawn interval yields exactly one packet; the deterministic schedule logic
//! is verified here, while the randomness of the draws stays with the caller.

use vstd::prelude::*;

use crate::config::PacketSizeKind;
use crate::sender::MixPacket;
use crate::sender::PacketKind;
use crate::topology::Topology;
use crate::topology::select_path;

verus! {

/// The cover traffic stream: its average interval, its packet size variant,
/// and the client's own address, to which every cover packet loops back.
pub struct CoverTrafficStream {
    pub average_delay_ms: u64,
    pub packet_size: PacketSizeKind,
    pub self_address: u64,
}

impl CoverTrafficStream {
    /// Builds the next cover packet: routed along the path the picks select
    /// through the current snapshot, ending at the client's own address,
    /// carrying nothing.
    pub fn next_cover_packet(&self, topology: &Topology, picks: &Vec<usize>) -> (r: MixPacket)
        requires
            picks@.len() == topology.layers@.len(),
            forall|l: int| 0 <= l < topology.layers@.len()
                ==> (#[trigger] topology.layers@[l])@.len() >= 1,
        ensures
            r.kind == PacketKind::Cover(self.packet_size),
            r.route@.len() == topology.layers@.len() + 1,
            r.route@.last() == self.self_address,
            forall|l: int| 0 <= l < topology.layers@.len()
                ==> #[trigger] r.route@[l] == topology.layers@[l]@[
                    picks@[l] as int % topology.layers@[l]@.len() as int
                ].identity,
    {
        let mut route = select_path(topology, picks);
        route.push(self.self_address);
        MixPacket { route, kind: PacketKind::Cover(self.packet_size) }
    }
}

/// How many cover packets a run of `duration` emits when the consecutive
/// drawn intervals are `delays`: one per drawn interval, until the intervals
/// no longer fit in the run.
pub open spec fn spec_emitted_count(delays: Seq<u64>, duration: nat) -> nat
    decreases delays.len(),
{
    if delays.len() == 0 {
        0
    } else if delays.first() > duration {
        0
    } else {
        1 + spec_emitted_count(delays.drop_first(), (duration - delays.first()) as nat)
    }
}

/// Counts the packets a run of `duration` emits for the drawn intervals
/// `delays`: each drawn interval is waited out and yields exactly one packet,
/// so the count is the longest prefix of intervals fitting in the run.
pub fn emitted_count(delays: &Vec<u64>, duration: u64) -> (n: usize)
    ensures
        n == spec_emitted_count(delays@, duration as nat),
        n <= delays@.len(),
{
    let mut elapsed: u64 = 0;
    let mut i: usize = 0;
    proof {
        assert(delays@.skip(0) =~= delays@);
    }
    while i < delays.len()
        invariant
            i <= delays@.len(),
            elapsed <= duration,
            spec_emitted_count(delays@, duration as nat)
                == i + spec_emitted_count(delays@.skip(i as int), (duration - elapsed) as nat),
        decreases delays@.len() - i,
    {
        let d = delays[i];
        let ghost rest = delays@.skip(i as int);
        proof {
            assert(rest.first() == delays@[i as int]);
            assert(rest.drop_first() =~= delays@.skip(i as int + 1));
        }
        if d > duration - elapsed {
            proof {
                assert(spec_emitted_count(rest, (duration - elapsed) as nat) == 0);
            }
            return i;
        }
        elapsed = elapsed + d;
        i = i + 1;
    }
    proof {
        assert(delays@.skip(delays@.len() as int).len() == 0);
    }
    i
}

} // verus!
