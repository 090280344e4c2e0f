//! The real-message controller: the reliability core.
//!
//! An accepted input message is fragmented under a fresh message identifier;
//! each fragment is wrapped into a packet along its own randomly picked route
//! and registered in the pending-acknowledgement table with a deadline
//! computed from the estimated round trip. Arriving acknowledgements cancel
//! the matching record; an expired deadline triggers exactly one
//! retransmission along a freshly picked route, until the retry budget is
//! spent. A fresh message that asks for reply capability also mints a reply
//! key record. A reply message travels the single-use return path embedded
//! in its reply block; since that path cannot be used twice, no pending
//! acknowledgement is registered for it and it must fit one packet.

use vstd::prelude::*;

use crate::acks::ExpiryAction;
use crate::acks::PendingAckTable;
use crate::acks::PendingAckView;
use crate::acks::SpecExpiry;
use crate::acks::TableView;
use crate::acks::ack_key;
use crate::acks::ack_wait_ms;
use crate::acks::spec_ack;
use crate::acks::spec_ack_key;
use crate::acks::spec_ack_wait;
use crate::acks::spec_expire;
use crate::config::TrafficConfig;
use crate::fragment::Fragment;
use crate::fragment::fragment_count;
use crate::fragment::fragment_payload;
use crate::fragment::payload_fragment;
use crate::reply_keys::REPLY_KEY_LEN;
use crate::reply_keys::ReplyKeyStore;
use crate::sender::MixPacket;
use crate::sender::PacketKind;
use crate::topology::Topology;
use crate::topology::select_path;

verus! {

/// A pre-built, single-use return path plus its identifier: what a recipient
/// needs to answer without learning the sender's address.
pub struct ReplySurb {
    pub reply_id: u64,
    pub route: Vec<u64>,
}

/// One unit of work submitted by the application layer.
pub enum InputMessage {
    /// A message to a known destination, optionally asking that the
    /// destination be enabled to reply anonymously.
    Fresh { recipient: u64, payload: Vec<u8>, with_reply_surb: bool },
    /// An anonymous reply along a previously received reply block.
    Reply { surb: ReplySurb, payload: Vec<u8> },
}

/// Why a submission was rejected. Rejections leave all state unchanged.
#[derive(Debug)]
pub enum SubmitError {
    /// The message identifier space is exhausted.
    MessageIdsExhausted,
    /// Fewer route picks were supplied than the message has fragments, or a
    /// pick does not cover every layer.
    InsufficientRouteRandomness,
    /// The minted reply identifier is already in use.
    ReplyIdentifierInUse,
    /// A reply must fit the single packet its return path can carry.
    ReplyTooLong,
}

/// Whether a submission is accepted, given the capacity per fragment, the
/// layer count of the snapshot, and the supplied route picks.
pub open spec fn spec_submit_accepted(
    next_id: u32,
    capacity: nat,
    layers: nat,
    msg: InputMessage,
    picks: Seq<Seq<usize>>,
    store: Map<u64, Vec<u8>>,
    reply_id: u64,
) -> bool {
    &&& next_id < u32::MAX
    &&& match msg {
        InputMessage::Fresh { recipient, payload, with_reply_surb } => {
            let n = fragment_count(payload@.len(), capacity);
            &&& picks.len() >= n
            &&& forall|j: int| 0 <= j < n ==> (#[trigger] picks[j]).len() == layers
            &&& (with_reply_surb ==> !store.contains_key(reply_id))
        },
        InputMessage::Reply { surb, payload } => payload@.len() <= capacity,
    }
}

/// The deadline for a fragment sent at `now`: the estimated round trip —
/// forward and acknowledgement hop averages over the path there and back —
/// scaled and stretched by the configured safety margin.
pub open spec fn spec_deadline(c: TrafficConfig, layers: nat, now: nat) -> int {
    now + spec_ack_wait(
        (c.average_packet_delay_ms + c.average_ack_delay_ms) as nat,
        2 * (layers + 1),
        c.ack_wait_multiplier_num as nat,
        c.ack_wait_multiplier_den as nat,
        c.ack_wait_addition_ms as nat,
    )
}

/// The machine limits under which the deadline arithmetic stays in `u64`.
pub open spec fn deadline_fits(c: TrafficConfig, layers: nat, now: nat) -> bool {
    &&& c.average_packet_delay_ms + c.average_ack_delay_ms <= u64::MAX
    &&& 2 * (layers + 1) <= u64::MAX
    &&& (c.average_packet_delay_ms + c.average_ack_delay_ms) * (2 * (layers + 1)) <= u64::MAX
    &&& (c.average_packet_delay_ms + c.average_ack_delay_ms) * (2 * (layers + 1))
        * c.ack_wait_multiplier_num <= u64::MAX
    &&& spec_deadline(c, layers, now) <= u64::MAX
}

/// What a deadline timer decided.
pub enum TimerOutcome {
    /// The fragment, wrapped afresh along a newly picked route; resend it.
    Resent(MixPacket),
    /// The retry budget is spent: the fragment — and with it the message it
    /// belongs to — is given up, a best-effort delivery failure that leaves
    /// every other message untouched.
    GivenUp(Fragment),
    /// Nothing is tracked under this key any more — the acknowledgement
    /// arrived first, or the fragment was already given up; nothing is resent.
    NotPending,
}

/// The controller state: the pending-acknowledgement table, the next unused
/// message identifier, and the traffic configuration.
pub struct RealMessagesController {
    acks: PendingAckTable,
    next_message_id: u32,
    config: TrafficConfig,
}

impl RealMessagesController {
    /// The pending-acknowledgement table's content.
    pub closed spec fn table(&self) -> TableView {
        self.acks@
    }

    pub closed spec fn spec_next_message_id(&self) -> u32 {
        self.next_message_id
    }

    pub closed spec fn spec_config(&self) -> TrafficConfig {
        self.config
    }

    /// Every tracked key belongs to an already minted message identifier, so
    /// fragments of a fresh message are never tracked yet.
    pub closed spec fn wf(&self) -> bool {
        &&& self.acks.wf()
        &&& self.config.wf()
        &&& forall|k: u64| self.table().acks.contains_key(k)
            ==> (k as int) < (self.next_message_id as int) * 0x1_0000_0000
    }

    pub fn new(config: TrafficConfig) -> (r: Self)
        requires
            config.wf(),
        ensures
            r.wf(),
            r.table().acks =~= Map::<u64, PendingAckView>::empty(),
            r.table().max_retries == config.max_retries,
            r.spec_next_message_id() == 0,
            r.spec_config() == config,
    {
        RealMessagesController {
            acks: PendingAckTable::new(config.max_retries),
            next_message_id: 0,
            config,
        }
    }

    /// A controller resuming from a persisted identifier counter, so that
    /// message identifiers stay fresh across restarts.
    pub fn resuming(config: TrafficConfig, next_message_id: u32) -> (r: Self)
        requires
            config.wf(),
        ensures
            r.wf(),
            r.table().acks =~= Map::<u64, PendingAckView>::empty(),
            r.table().max_retries == config.max_retries,
            r.spec_next_message_id() == next_message_id,
            r.spec_config() == config,
    {
        RealMessagesController {
            acks: PendingAckTable::new(config.max_retries),
            next_message_id,
            config,
        }
    }

    /// Computes the acknowledgement deadline for a send at `now` through a
    /// snapshot with this many layers.
    fn compute_deadline(&self, layers: usize, now: u64) -> (r: u64)
        requires
            self.wf(),
            deadline_fits(self.config, layers as nat, now as nat),
        ensures
            r == spec_deadline(self.spec_config(), layers as nat, now as nat),
    {
        let hops = 2 * (layers as u64 + 1);
        let wait = ack_wait_ms(
            self.config.average_packet_delay_ms + self.config.average_ack_delay_ms,
            hops,
            self.config.ack_wait_multiplier_num,
            self.config.ack_wait_multiplier_den,
            self.config.ack_wait_addition_ms,
        );
        now + wait
    }

    /// Accepts one input message: fragments it under a fresh message
    /// identifier, wraps each fragment into a packet along its picked route,
    /// registers a pending acknowledgement per fresh-message fragment, and
    /// mints the reply key record where reply capability was asked for.
    /// Rejections are exact and leave all state unchanged.
    pub fn handle_input(
        &mut self,
        message: InputMessage,
        topology: &Topology,
        picks: &Vec<Vec<usize>>,
        reply_id: u64,
        reply_key: Vec<u8>,
        reply_store: &mut ReplyKeyStore,
        now: u64,
    ) -> (r: Result<Vec<MixPacket>, SubmitError>)
        requires
            old(self).wf(),
            old(reply_store).wf(),
            reply_key@.len() == REPLY_KEY_LEN,
            forall|l: int| 0 <= l < topology.layers@.len()
                ==> (#[trigger] topology.layers@[l])@.len() >= 1,
            deadline_fits(old(self).spec_config(), topology.layers@.len(), now as nat),
            match message {
                InputMessage::Fresh { recipient, payload, with_reply_surb } =>
                    payload@.len() <= u32::MAX,
                InputMessage::Reply { surb, payload } => payload@.len() <= u32::MAX,
            },
        ensures
            final(self).wf(),
            final(reply_store).wf(),
            final(self).spec_config() == old(self).spec_config(),
            final(self).table().max_retries == old(self).table().max_retries,
            r is Ok <==> spec_submit_accepted(
                old(self).spec_next_message_id(),
                old(self).spec_config().packet_size.spec_capacity(),
                topology.layers@.len(),
                message,
                picks@.map_values(|p: Vec<usize>| p@),
                old(reply_store)@,
                reply_id,
            ),
            r is Err ==> final(self).table() == old(self).table()
                && final(self).spec_next_message_id() == old(self).spec_next_message_id()
                && final(reply_store)@ == old(reply_store)@,
            r is Ok ==> final(self).spec_next_message_id() == old(self).spec_next_message_id() + 1,
            match r {
                Result::Ok(packets) => {
                    let mid = old(self).spec_next_message_id() as u64;
                    let capacity = old(self).spec_config().packet_size.spec_capacity();
                    let layers = topology.layers@.len();
                    match message {
                        InputMessage::Fresh { recipient, payload, with_reply_surb } => {
                            let n = fragment_count(payload@.len(), capacity);
                            &&& packets@.len() == n
                            &&& forall|i: int| 0 <= i < n ==> ((#[trigger] packets@[i]).kind matches
                                PacketKind::Real(f) && f@ == payload_fragment(mid, payload@, capacity, i))
                            &&& forall|i: int| 0 <= i < n
                                ==> (#[trigger] packets@[i]).route@.len() == layers + 1
                                    && packets@[i].route@.last() == recipient
                                    && forall|l: int| 0 <= l < layers
                                        ==> packets@[i].route@[l] == topology.layers@[l]@[
                                            picks@[i]@[l] as int % topology.layers@[l]@.len() as int
                                        ].identity
                            &&& forall|i: int| 0 <= i < n
                                ==> final(self).table().acks.contains_key(
                                    #[trigger] spec_ack_key(mid, i as nat),
                                ) && final(self).table().acks[spec_ack_key(mid, i as nat)]
                                    == (PendingAckView {
                                    fragment: payload_fragment(mid, payload@, capacity, i),
                                    recipient: recipient,
                                    retries: 0,
                                    deadline: spec_deadline(
                                        old(self).spec_config(),
                                        layers,
                                        now as nat,
                                    ) as nat,
                                })
                            &&& forall|k: u64| old(self).table().acks.contains_key(k)
                                ==> final(self).table().acks.contains_key(k)
                                    && final(self).table().acks[k] == old(self).table().acks[k]
                            &&& forall|k: u64| final(self).table().acks.contains_key(k)
                                ==> old(self).table().acks.contains_key(k)
                                    || exists|i: int| 0 <= i < n && k == #[trigger] spec_ack_key(mid, i as nat)
                            &&& (with_reply_surb ==> final(reply_store)@ =~= old(reply_store)@.insert(
                                reply_id,
                                reply_key,
                            ))
                            &&& (!with_reply_surb ==> final(reply_store)@ == old(reply_store)@)
                        },
                        InputMessage::Reply { surb, payload } => {
                            &&& packets@.len() == 1
                            &&& (packets@[0].kind matches PacketKind::Real(f)
                                && f@ == payload_fragment(mid, payload@, capacity, 0))
                            &&& packets@[0].route@ == surb.route@
                            &&& final(self).table() == old(self).table()
                            &&& final(reply_store)@ == old(reply_store)@
                        },
                    }
                },
                Result::Err(e) => {
                    let accepted = spec_submit_accepted(
                        old(self).spec_next_message_id(),
                        old(self).spec_config().packet_size.spec_capacity(),
                        topology.layers@.len(),
                        message,
                        picks@.map_values(|p: Vec<usize>| p@),
                        old(reply_store)@,
                        reply_id,
                    );
                    &&& !accepted
                    &&& (old(self).spec_next_message_id() == u32::MAX
                        ==> e == SubmitError::MessageIdsExhausted)
                },
            },
    {
        let ghost pick_views = picks@.map_values(|p: Vec<usize>| p@);
        if self.next_message_id == u32::MAX {
            return Err(SubmitError::MessageIdsExhausted);
        }
        let mid = self.next_message_id;
        let capacity = self.config.packet_size.payload_capacity();
        let layers = topology.layers.len();
        match message {
            InputMessage::Reply { surb, payload } => {
                if payload.len() > capacity {
                    return Err(SubmitError::ReplyTooLong);
                }
                let mut fragments = fragment_payload(mid, &payload, capacity);
                proof {
                    crate::fragment::lemma_fragment_count_pos(payload@.len(), capacity as nat);
                    assert(fragment_count(payload@.len(), capacity as nat) == 1);
                }
                let fragment = fragments.remove(0);
                let packet = MixPacket { route: surb.route, kind: PacketKind::Real(fragment) };
                self.next_message_id = mid + 1;
                proof {
                    assert forall|k: u64| self.table().acks.contains_key(k)
                        implies (k as int) < (self.next_message_id as int) * 0x1_0000_0000 by {
                        assert(old(self).table().acks.contains_key(k));
                        assert((k as int) < (mid as int) * 0x1_0000_0000);
                        assert((mid as int) * 0x1_0000_0000 <= (self.next_message_id as int)
                            * 0x1_0000_0000) by (nonlinear_arith)
                            requires (mid as int) <= (self.next_message_id as int);
                    }
                }
                let mut packets: Vec<MixPacket> = Vec::new();
                packets.push(packet);
                Ok(packets)
            },
            InputMessage::Fresh { recipient, payload, with_reply_surb } => {
                let mut fragments = fragment_payload(mid, &payload, capacity);
                proof {
                    crate::fragment::lemma_fragment_count_le(payload@.len(), capacity as nat);
                }
                let n = fragments.len();
                if picks.len() < n {
                    return Err(SubmitError::InsufficientRouteRandomness);
                }
                let mut j: usize = 0;
                let mut picks_ok = true;
                while j < n
                    invariant
                        j <= n,
                        n <= picks@.len(),
                        pick_views == picks@.map_values(|p: Vec<usize>| p@),
                        picks_ok <==> (forall|x: int| 0 <= x < j
                            ==> (#[trigger] pick_views[x]).len() == topology.layers@.len()),
                    decreases n - j,
                {
                    if picks[j].len() != topology.layers.len() {
                        proof {
                            assert(pick_views[j as int].len() != topology.layers@.len());
                        }
                        picks_ok = false;
                    }
                    j = j + 1;
                }
                if !picks_ok {
                    return Err(SubmitError::InsufficientRouteRandomness);
                }
                if with_reply_surb && reply_store.holds_key(reply_id) {
                    return Err(SubmitError::ReplyIdentifierInUse);
                }
                let deadline = self.compute_deadline(layers, now);
                let ghost table0 = self.table();
                let ghost cap = capacity as nat;
                let mut packets: Vec<MixPacket> = Vec::new();
                let mut i: usize = 0;
                while i < n
                    invariant
                        i <= n,
                        n == fragments@.len() + i,
                        self.acks.wf(),
                        self.config == old(self).spec_config(),
                        self.next_message_id == mid,
                        deadline == spec_deadline(self.config, topology.layers@.len(), now as nat),
                        mid < u32::MAX,
                        capacity as nat == cap,
                        capacity >= 1,
                        n == fragment_count(payload@.len(), cap),
                        n <= u32::MAX,
                        n <= picks@.len(),
                        pick_views == picks@.map_values(|p: Vec<usize>| p@),
                        forall|x: int| 0 <= x < n
                            ==> (#[trigger] pick_views[x]).len() == topology.layers@.len(),
                        forall|l: int| 0 <= l < topology.layers@.len()
                            ==> (#[trigger] topology.layers@[l])@.len() >= 1,
                        forall|x: int| 0 <= x < fragments@.len()
                            ==> (#[trigger] fragments@[x])@ == payload_fragment(
                                mid as u64,
                                payload@,
                                cap,
                                x + i,
                            ),
                        self.table().max_retries == table0.max_retries,
                        forall|k: u64| table0.acks.contains_key(k)
                            ==> (k as int) < (mid as int) * 0x1_0000_0000,
                        forall|k: u64| table0.acks.contains_key(k)
                            ==> #[trigger] self.table().acks.contains_key(k)
                                && self.table().acks[k] == table0.acks[k],
                        forall|x: int| 0 <= x < i
                            ==> self.table().acks.contains_key(#[trigger] spec_ack_key(mid as u64, x as nat))
                                && self.table().acks[spec_ack_key(mid as u64, x as nat)]
                                    == (PendingAckView {
                                    fragment: payload_fragment(mid as u64, payload@, cap, x),
                                    recipient: recipient,
                                    retries: 0,
                                    deadline: deadline as nat,
                                }),
                        forall|k: u64| #[trigger] self.table().acks.contains_key(k)
                            ==> table0.acks.contains_key(k)
                                || exists|x: int| 0 <= x < i && k == #[trigger] spec_ack_key(mid as u64, x as nat),
                        packets@.len() == i,
                        forall|x: int| 0 <= x < i ==> ((#[trigger] packets@[x]).kind matches
                            PacketKind::Real(f)
                                && f@ == payload_fragment(mid as u64, payload@, cap, x)),
                        forall|x: int| 0 <= x < i
                            ==> (#[trigger] packets@[x]).route@.len() == topology.layers@.len() + 1
                                && packets@[x].route@.last() == recipient
                                && forall|l: int| 0 <= l < topology.layers@.len()
                                    ==> packets@[x].route@[l] == topology.layers@[l]@[
                                        pick_views[x][l] as int % topology.layers@[l]@.len() as int
                                    ].identity,
                    decreases n - i,
                {
                    let fragment = fragments.remove(0);
                    proof {
                        assert(fragment@ == payload_fragment(mid as u64, payload@, cap, i as int));
                        assert forall|x: int| 0 <= x < fragments@.len()
                            implies (#[trigger] fragments@[x])@ == payload_fragment(
                                mid as u64,
                                payload@,
                                cap,
                                x + i + 1,
                            ) by {
                        }
                    }
                    let retained = fragment.duplicate();
                    let key = ack_key(&fragment);
                    proof {
                        assert(key == spec_ack_key(mid as u64, i as nat));
                        assert(!self.table().acks.contains_key(key)) by {
                            if self.table().acks.contains_key(key) {
                                if table0.acks.contains_key(key) {
                                    assert((key as int) < (mid as int) * 0x1_0000_0000);
                                    assert((key as int) == (mid as int) * 0x1_0000_0000 + i);
                                } else {
                                    let x = choose|x: int|
                                        0 <= x < i && key == #[trigger] spec_ack_key(mid as u64, x as nat);
                                    assert((mid as int) * 0x1_0000_0000 + x
                                        == (mid as int) * 0x1_0000_0000 + i);
                                }
                            }
                        }
                    }
                    self.acks.register(retained, recipient, deadline);
                    let pick = &picks[i];
                    proof {
                        assert(pick@ == pick_views[i as int]);
                    }
                    let mut route = select_path(topology, pick);
                    route.push(recipient);
                    packets.push(MixPacket { route, kind: PacketKind::Real(fragment) });
                    i = i + 1;
                }
                if with_reply_surb {
                    reply_store.insert_key(reply_id, reply_key);
                }
                self.next_message_id = mid + 1;
                proof {
                    assert forall|k: u64| self.table().acks.contains_key(k)
                        implies (k as int) < (self.next_message_id as int) * 0x1_0000_0000 by {
                        if table0.acks.contains_key(k) {
                            assert((k as int) < (mid as int) * 0x1_0000_0000);
                            assert((mid as int) * 0x1_0000_0000
                                <= (self.next_message_id as int) * 0x1_0000_0000)
                                by (nonlinear_arith)
                                requires (mid as int) <= (self.next_message_id as int);
                        } else {
                            let x = choose|x: int|
                                0 <= x < n && k == #[trigger] spec_ack_key(mid as u64, x as nat);
                            assert((k as int) == (mid as int) * 0x1_0000_0000 + x);
                            assert(x < 0x1_0000_0000);
                            assert((mid as int) * 0x1_0000_0000 + 0x1_0000_0000
                                == ((mid as int) + 1) * 0x1_0000_0000) by (nonlinear_arith);
                        }
                    }
                }
                Ok(packets)
            },
        }
    }

    /// Routes one arriving acknowledgement to the table: the matching record
    /// is removed and its retransmission thereby cancelled; an unknown
    /// acknowledgement is ignored.
    pub fn on_ack(&mut self, key: u64) -> (was_pending: bool)
        requires
            old(self).wf(),
        ensures
            final(self).wf(),
            final(self).table() == spec_ack(old(self).table(), key),
            was_pending == old(self).table().acks.contains_key(key),
            final(self).spec_next_message_id() == old(self).spec_next_message_id(),
            final(self).spec_config() == old(self).spec_config(),
    {
        let was_pending = self.acks.ack_received(key);
        proof {
            assert forall|k: u64| self.table().acks.contains_key(k)
                implies (k as int) < (self.next_message_id as int) * 0x1_0000_0000 by {
                assert(old(self).table().acks.contains_key(k));
            }
        }
        was_pending
    }

    /// Handles the expiry of one acknowledgement deadline: resends the
    /// retained fragment along a freshly picked route with a fresh deadline,
    /// gives it up once the budget is spent, or does nothing if the
    /// acknowledgement arrived first.
    pub fn on_timer(&mut self, key: u64, topology: &Topology, picks: &Vec<usize>, now: u64) -> (r:
        TimerOutcome)
        requires
            old(self).wf(),
            picks@.len() == topology.layers@.len(),
            forall|l: int| 0 <= l < topology.layers@.len()
                ==> (#[trigger] topology.layers@[l])@.len() >= 1,
            deadline_fits(old(self).spec_config(), topology.layers@.len(), now as nat),
        ensures
            final(self).wf(),
            final(self).spec_next_message_id() == old(self).spec_next_message_id(),
            final(self).spec_config() == old(self).spec_config(),
            final(self).table() == spec_expire(
                old(self).table(),
                key,
                spec_deadline(old(self).spec_config(), topology.layers@.len(), now as nat) as nat,
            ).0,
            ({
                let decision = spec_expire(
                    old(self).table(),
                    key,
                    spec_deadline(old(self).spec_config(), topology.layers@.len(), now as nat) as nat,
                ).1;
                match r {
                    TimerOutcome::Resent(p) => {
                        &&& decision matches SpecExpiry::Retransmit(f, recipient, _)
                            && (p.kind matches PacketKind::Real(pf) && pf@ == f)
                            && p.route@.len() == topology.layers@.len() + 1
                            && p.route@.last() == recipient
                            && forall|l: int| 0 <= l < topology.layers@.len()
                                ==> p.route@[l] == topology.layers@[l]@[
                                    picks@[l] as int % topology.layers@[l]@.len() as int
                                ].identity
                    },
                    TimerOutcome::GivenUp(f) => decision == SpecExpiry::GiveUp(f@),
                    TimerOutcome::NotPending => decision == SpecExpiry::NotPending,
                }
            }),
    {
        let layers = topology.layers.len();
        let deadline = self.compute_deadline(layers, now);
        let action = self.acks.deadline_expired(key, deadline);
        proof {
            assert forall|k: u64| self.table().acks.contains_key(k)
                implies (k as int) < (self.next_message_id as int) * 0x1_0000_0000 by {
                assert(old(self).table().acks.contains_key(k));
            }
        }
        match action {
            ExpiryAction::Retransmit(fragment, recipient, _fresh) => {
                let mut route = select_path(topology, picks);
                route.push(recipient);
                TimerOutcome::Resent(MixPacket { route, kind: PacketKind::Real(fragment) })
            },
            ExpiryAction::GiveUp(fragment) => TimerOutcome::GivenUp(fragment),
            ExpiryAction::NotPending => TimerOutcome::NotPending,
        }
    }

    /// How many fragments await acknowledgement.
    pub closed spec fn spec_pending_acks(&self) -> nat {
        self.acks.spec_pending_count()
    }

    pub fn pending_acks(&self) -> (r: usize)
        requires
            self.wf(),
        ensures
            r == self.spec_pending_acks(),
    {
        self.acks.pending_count()
    }

    /// Whether a fragment is still tracked.
    pub fn is_pending(&self, key: u64) -> (r: bool)
        requires
            self.wf(),
        ensures
            r == self.table().acks.contains_key(key),
    {
        self.acks.is_pending(key)
    }
}

} // verus!
