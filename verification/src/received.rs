//! The received-message side: demultiplexing and the single subscriber.
//!
//! Raw decrypted packet contents from the transport are either
//! acknowledgements, looped back through the mix network, or message
//! fragments. The former go to the real-message controller's tracking table;
//! the latter into the reassembly buffer. Errors on one inbound item never
//! disturb the rest: a rejected fragment is discarded and everything else
//! stands. Completed messages go to whichever consumer is currently
//! registered — at most one at a time, a new registration replacing the old.

use vstd::prelude::*;

use crate::acks::spec_ack;
use crate::controller::RealMessagesController;
use crate::fragment::Fragment;
use crate::reassembly::InsertOutcome;
use crate::reassembly::ReassemblyBuffer;
use crate::reassembly::SpecOutcome;
use crate::reassembly::spec_insert;

verus! {

/// One decrypted inbound item, as the packet format layer hands it over.
pub enum InboundItem {
    /// An acknowledgement for the fragment tracked under this key.
    Ack(u64),
    /// One fragment of a message addressed to us.
    Fragment(Fragment),
}

/// What one inbound item led to.
pub enum InboundOutcome {
    /// The acknowledgement was routed to the tracking table; whether a
    /// record was pending under it.
    AckRouted(bool),
    /// The fragment completed its message: deliver this payload.
    Delivered(Vec<u8>),
    /// The fragment was buffered; its message is still incomplete.
    Buffered,
    /// The fragment changed nothing: a duplicate, an already delivered
    /// message, or a malformed header. The error stays with this packet.
    Discarded,
}

/// Demultiplexes one inbound item: an acknowledgement cancels its pending
/// record, a fragment feeds the reassembly buffer. Each item touches exactly
/// the state it is for.
pub fn process_inbound(
    item: InboundItem,
    controller: &mut RealMessagesController,
    buffer: &mut ReassemblyBuffer,
    now: u64,
) -> (r: InboundOutcome)
    requires
        old(controller).wf(),
        old(buffer).wf(),
        now + old(buffer)@.lifetime <= u64::MAX,
    ensures
        final(controller).wf(),
        final(buffer).wf(),
        match item {
            InboundItem::Ack(key) => {
                &&& final(controller).table() == spec_ack(old(controller).table(), key)
                &&& final(buffer)@ == old(buffer)@
                &&& r == InboundOutcome::AckRouted(old(controller).table().acks.contains_key(key))
            },
            InboundItem::Fragment(f) => {
                let step = spec_insert(old(buffer)@, f@, now as nat);
                &&& final(controller).table() == old(controller).table()
                &&& final(buffer)@ == step.0
                &&& match r {
                    InboundOutcome::Delivered(p) => step.1 == SpecOutcome::Completed(p@),
                    InboundOutcome::Buffered => step.1 == SpecOutcome::Pending,
                    InboundOutcome::Discarded => step.1 == SpecOutcome::Duplicate
                        || step.1 == SpecOutcome::AlreadyCompleted
                        || step.1 == SpecOutcome::Rejected,
                    InboundOutcome::AckRouted(_) => false,
                }
            },
        },
        final(controller).spec_next_message_id() == old(controller).spec_next_message_id(),
        final(controller).spec_config() == old(controller).spec_config(),
{
    match item {
        InboundItem::Ack(key) => {
            let was_pending = controller.on_ack(key);
            InboundOutcome::AckRouted(was_pending)
        },
        InboundItem::Fragment(fragment) => {
            match buffer.insert_fragment(fragment, now) {
                InsertOutcome::Completed(payload) => InboundOutcome::Delivered(payload),
                InsertOutcome::Pending => InboundOutcome::Buffered,
                InsertOutcome::Duplicate => InboundOutcome::Discarded,
                InsertOutcome::AlreadyCompleted => InboundOutcome::Discarded,
                InsertOutcome::Rejected => InboundOutcome::Discarded,
            }
        },
    }
}

/// The one registration slot for a consumer of reconstructed messages: an
/// explicit single-subscriber model, where registering replaces whoever was
/// registered before.
pub struct ReceiverRegistry {
    current: Option<u64>,
}

impl ReceiverRegistry {
    /// The currently registered consumer, if any.
    pub closed spec fn spec_current(&self) -> Option<u64> {
        self.current
    }

    pub fn new() -> (r: Self)
        ensures
            r.spec_current() is None,
    {
        ReceiverRegistry { current: None }
    }

    /// Registers a consumer, replacing — and returning — the previous one.
    pub fn register(&mut self, subscriber: u64) -> (previous: Option<u64>)
        ensures
            final(self).spec_current() == Some(subscriber),
            previous == old(self).spec_current(),
    {
        let previous = self.current;
        self.current = Some(subscriber);
        previous
    }

    /// Removes the registration, if any; deliveries then wait for the next
    /// consumer.
    pub fn disconnect(&mut self) -> (previous: Option<u64>)
        ensures
            final(self).spec_current() is None,
            previous == old(self).spec_current(),
    {
        let previous = self.current;
        self.current = None;
        previous
    }

    /// Where a completed message goes right now.
    pub fn active(&self) -> (r: Option<u64>)
        ensures
            r == self.spec_current(),
    {
        self.current
    }
}

} // verus!
