//! The mix-traffic sender: the single funnel to the gateway session.
//!
//! Cover and real packets from all producers pass through one queue, drained
//! by a single consumer that hands each packet to the transport. Nothing is
//! dropped silently: a packet leaves the queue only by being returned for
//! transmission, and a transport failure is escalated as fatal — there is no
//! fallback path to the same gateway.

use vstd::prelude::*;

use crate::config::PacketSizeKind;
use crate::fragment::Fragment;

verus! {

/// What a packet carries.
pub enum PacketKind {
    /// A synthetic packet routed back to the sender itself; it carries no
    /// payload and needs no acknowledgement.
    Cover(PacketSizeKind),
    /// One fragment of a real message.
    Real(Fragment),
}

/// One fully routed packet on its way to the transport.
pub struct MixPacket {
    /// The identities of the nodes it traverses, one per layer, then the
    /// final recipient.
    pub route: Vec<u64>,
    pub kind: PacketKind,
}

/// The multi-producer queue in front of the transport.
pub struct MixTrafficSender {
    queue: Vec<MixPacket>,
}

impl MixTrafficSender {
    /// The packets accepted and not yet handed to the transport, oldest
    /// first.
    pub closed spec fn queued(&self) -> Seq<MixPacket> {
        self.queue@
    }

    pub fn new() -> (r: Self)
        ensures
            r.queued() =~= Seq::<MixPacket>::empty(),
    {
        MixTrafficSender { queue: Vec::new() }
    }

    /// Accepts one packet from a producer. The packet is appended, never
    /// dropped: whatever was queued stays queued.
    pub fn enqueue(&mut self, packet: MixPacket)
        ensures
            final(self).queued() == old(self).queued().push(packet),
    {
        self.queue.push(packet);
    }

    /// Hands the consumer the next packet for transmission, oldest first;
    /// nothing else leaves the queue.
    pub fn next_packet(&mut self) -> (r: Option<MixPacket>)
        ensures
            match r {
                Some(p) => old(self).queued().len() > 0
                    && p == old(self).queued().first()
                    && final(self).queued() == old(self).queued().drop_first(),
                None => old(self).queued().len() == 0
                    && final(self).queued() == old(self).queued(),
            },
    {
        if self.queue.len() == 0 {
            return None;
        }
        let p = self.queue.remove(0);
        proof {
            assert(self.queue@ =~= old(self).queued().drop_first());
        }
        Some(p)
    }

    /// How many packets wait for the transport. Growth here signals a
    /// transport stall and is surfaced to the operator, not absorbed.
    pub fn backlog(&self) -> (r: usize)
        ensures
            r == self.queued().len(),
    {
        self.queue.len()
    }
}

/// What becomes of one transmission attempt: a failure on the single funnel
/// has no fallback and shuts the client down.
pub enum TransportOutcome {
    Sent,
    FatalTransportFailure,
}

/// Classifies a transport result. A failed send is never retried on the side:
/// it is fatal to the client's ability to function.
pub fn classify_send_result(send_ok: bool) -> (r: TransportOutcome)
    ensures
        send_ok <==> r == TransportOutcome::Sent,
        !send_ok <==> r == TransportOutcome::FatalTransportFailure,
{
    if send_ok {
        TransportOutcome::Sent
    } else {
        TransportOutcome::FatalTransportFailure
    }
}

} // verus!
