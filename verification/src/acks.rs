//! Pending acknowledgements and the retransmission budget.
//!
//! Every sent fragment whose delivery must be confirmed registers a pending
//! acknowledgement: the retained fragment, how often it has been resent, and
//! the deadline by which the matching acknowledgement is expected. A matching
//! acknowledgement removes the record, cancelling any retransmission. A
//! deadline expiry without a match triggers exactly one retransmission with a
//! fresh deadline — until the retry budget is spent, at which point the
//! fragment is given up and removed from tracking, so no further timer can
//! fire for it.

use vstd::prelude::*;

use crate::fragment::Fragment;
use crate::fragment::FragmentView;
use crate::keymap::KeyMap;

verus! {

/// The key under which a fragment's acknowledgement is tracked: the message
/// identifier and fragment index, packed injectively into one word.
pub open spec fn spec_ack_key(message_id: u64, index: nat) -> u64
    recommends
        message_id <= u32::MAX,
        index <= u32::MAX,
{
    (message_id * 0x1_0000_0000 + index) as u64
}

/// Distinct fragments are tracked under distinct keys.
pub proof fn lemma_ack_key_injective(m1: u64, i1: nat, m2: u64, i2: nat)
    requires
        m1 <= u32::MAX,
        i1 <= u32::MAX,
        m2 <= u32::MAX,
        i2 <= u32::MAX,
        spec_ack_key(m1, i1) == spec_ack_key(m2, i2),
    ensures
        m1 == m2,
        i1 == i2,
{
    assert(m1 * 0x1_0000_0000 + i1 == m2 * 0x1_0000_0000 + i2
        && m1 <= 0xFFFF_FFFF && m2 <= 0xFFFF_FFFF && i1 <= 0xFFFF_FFFF && i2 <= 0xFFFF_FFFF
        ==> m1 == m2 && i1 == i2) by (nonlinear_arith);
}

/// The tracking key of a fragment.
pub fn ack_key(fragment: &Fragment) -> (r: u64)
    ensures
        r == spec_ack_key(fragment@.message_id, fragment@.index),
{
    (fragment.message_id as u64) * 0x1_0000_0000 + (fragment.index as u64)
}

/// The mathematical content of one pending acknowledgement.
pub struct PendingAckView {
    pub fragment: FragmentView,
    pub recipient: u64,
    pub retries: nat,
    pub deadline: nat,
}

/// The mathematical content of the whole table.
pub struct TableView {
    pub acks: Map<u64, PendingAckView>,
    pub max_retries: nat,
}

/// What a deadline expiry decided.
pub enum SpecExpiry {
    /// Resend this fragment to this recipient; the new record carries this
    /// fresh deadline.
    Retransmit(FragmentView, u64, nat),
    /// The retry budget is spent: the fragment is given up and removed.
    GiveUp(FragmentView),
    /// Nothing is tracked under this key — its acknowledgement has arrived
    /// (or it was already given up), so no retransmission happens.
    NotPending,
}

/// The acknowledgement-arrival transition: the record is removed, whatever
/// retransmission was outstanding is thereby cancelled.
pub open spec fn spec_ack(t: TableView, key: u64) -> TableView {
    TableView { acks: t.acks.remove(key), ..t }
}

/// The deadline-expiry transition: one retransmission with a fresh deadline
/// while the budget lasts, removal once it is spent, nothing if the record
/// is already gone.
pub open spec fn spec_expire(t: TableView, key: u64, fresh_deadline: nat) -> (TableView, SpecExpiry) {
    if !t.acks.contains_key(key) {
        (t, SpecExpiry::NotPending)
    } else {
        let e = t.acks[key];
        if e.retries < t.max_retries {
            let bumped = PendingAckView {
                retries: e.retries + 1,
                deadline: fresh_deadline,
                ..e
            };
            (
                TableView { acks: t.acks.insert(key, bumped), ..t },
                SpecExpiry::Retransmit(e.fragment, e.recipient, fresh_deadline),
            )
        } else {
            (TableView { acks: t.acks.remove(key), ..t }, SpecExpiry::GiveUp(e.fragment))
        }
    }
}

/// The table after `n` consecutive deadline expiries of one key, none of them
/// answered by an acknowledgement.
pub open spec fn expire_n(t: TableView, key: u64, fresh_deadline: nat, n: nat) -> TableView
    decreases n,
{
    if n == 0 {
        t
    } else {
        expire_n(spec_expire(t, key, fresh_deadline).0, key, fresh_deadline, (n - 1) as nat)
    }
}

/// Law: an acknowledgement that arrives before the deadline cancels the
/// retransmission — after it, an expiry of the same key finds nothing, does
/// nothing, and resends nothing.
pub proof fn lemma_ack_cancels_retransmission(t: TableView, key: u64, fresh_deadline: nat)
    ensures
        spec_expire(spec_ack(t, key), key, fresh_deadline).0 == spec_ack(t, key),
        spec_expire(spec_ack(t, key), key, fresh_deadline).1 == SpecExpiry::NotPending,
{
    assert(!spec_ack(t, key).acks.contains_key(key));
}

/// Law: an unanswered deadline triggers exactly one retransmission, of the
/// retained fragment, under a fresh deadline, with the retry count advanced —
/// while the budget lasts.
pub proof fn lemma_expiry_retransmits_once(t: TableView, key: u64, fresh_deadline: nat)
    requires
        t.acks.contains_key(key),
        t.acks[key].retries < t.max_retries,
    ensures
        spec_expire(t, key, fresh_deadline).1
            == SpecExpiry::Retransmit(t.acks[key].fragment, t.acks[key].recipient, fresh_deadline),
        spec_expire(t, key, fresh_deadline).0.acks.contains_key(key),
        spec_expire(t, key, fresh_deadline).0.acks[key].retries == t.acks[key].retries + 1,
        spec_expire(t, key, fresh_deadline).0.acks[key].deadline == fresh_deadline,
        spec_expire(t, key, fresh_deadline).0.acks[key].fragment == t.acks[key].fragment,
{
}

proof fn lemma_retry_budget_from(t: TableView, key: u64, fresh_deadline: nat, r: nat)
    requires
        t.acks.contains_key(key),
        t.acks[key].retries == r,
        r <= t.max_retries,
    ensures
        !expire_n(t, key, fresh_deadline, (t.max_retries - r + 1) as nat).acks.contains_key(key),
        expire_n(t, key, fresh_deadline, (t.max_retries - r + 1) as nat).max_retries == t.max_retries,
    decreases t.max_retries - r,
{
    let step = spec_expire(t, key, fresh_deadline).0;
    if r == t.max_retries {
        assert(!step.acks.contains_key(key));
        assert(expire_n(step, key, fresh_deadline, 0) == step);
    } else {
        assert(step.acks[key].retries == r + 1);
        lemma_retry_budget_from(step, key, fresh_deadline, r + 1);
    }
}

/// Law: a fragment resent `max_retries` times without a matching
/// acknowledgement is given up and removed from tracking — after the budget
/// is spent, no record remains under its key and a further timer expiry is
/// a no-op.
pub proof fn lemma_retry_budget(t: TableView, key: u64, fresh_deadline: nat)
    requires
        t.acks.contains_key(key),
        t.acks[key].retries == 0,
    ensures
        !expire_n(t, key, fresh_deadline, t.max_retries + 1).acks.contains_key(key),
        spec_expire(expire_n(t, key, fresh_deadline, t.max_retries + 1), key, fresh_deadline).0
            == expire_n(t, key, fresh_deadline, t.max_retries + 1),
        spec_expire(expire_n(t, key, fresh_deadline, t.max_retries + 1), key, fresh_deadline).1
            == SpecExpiry::NotPending,
{
    lemma_retry_budget_from(t, key, fresh_deadline, 0);
}

/// One pending acknowledgement: the retained fragment, how often it has been
/// resent, and when the acknowledgement is due.
pub struct PendingAck {
    pub fragment: Fragment,
    pub recipient: u64,
    pub retries: u32,
    pub deadline: u64,
}

impl View for PendingAck {
    type V = PendingAckView;

    open spec fn view(&self) -> PendingAckView {
        PendingAckView {
            fragment: self.fragment@,
            recipient: self.recipient,
            retries: self.retries as nat,
            deadline: self.deadline as nat,
        }
    }
}

/// What a deadline expiry decided, carrying the fragment to act on.
pub enum ExpiryAction {
    /// Resend this fragment to this recipient (with a fresh wrapping and
    /// deadline).
    Retransmit(Fragment, u64, u64),
    /// The retry budget is spent: report the fragment as undeliverable.
    GiveUp(Fragment),
    /// The acknowledgement already arrived; nothing to do.
    NotPending,
}

impl ExpiryAction {
    /// The spec-level decision this value stands for.
    pub open spec fn view(&self) -> SpecExpiry {
        match self {
            ExpiryAction::Retransmit(f, rec, d) => SpecExpiry::Retransmit(f@, *rec, *d as nat),
            ExpiryAction::GiveUp(f) => SpecExpiry::GiveUp(f@),
            ExpiryAction::NotPending => SpecExpiry::NotPending,
        }
    }
}

/// The pending-acknowledgement table. It is driven by two independent event
/// sources — the local send path registers records, arriving acknowledgements
/// remove them — and by per-record deadline timers.
pub struct PendingAckTable {
    acks: KeyMap<PendingAck>,
    max_retries: u32,
}

impl View for PendingAckTable {
    type V = TableView;

    closed spec fn view(&self) -> TableView {
        TableView {
            acks: self.acks@.map_values(|a: PendingAck| a@),
            max_retries: self.max_retries as nat,
        }
    }
}

impl PendingAckTable {
    pub closed spec fn wf(&self) -> bool {
        self.acks.wf()
    }

    pub fn new(max_retries: u32) -> (r: Self)
        ensures
            r.wf(),
            r@.acks =~= Map::<u64, PendingAckView>::empty(),
            r@.max_retries == max_retries,
    {
        PendingAckTable { acks: KeyMap::new(), max_retries }
    }

    /// Registers a freshly sent fragment under its tracking key.
    pub fn register(&mut self, fragment: Fragment, recipient: u64, deadline: u64)
        requires
            old(self).wf(),
            !old(self)@.acks.contains_key(spec_ack_key(fragment@.message_id, fragment@.index)),
        ensures
            final(self).wf(),
            final(self)@.acks =~= old(self)@.acks.insert(
                spec_ack_key(fragment@.message_id, fragment@.index),
                PendingAckView {
                    fragment: fragment@,
                    recipient: recipient,
                    retries: 0,
                    deadline: deadline as nat,
                },
            ),
            final(self)@.max_retries == old(self)@.max_retries,
    {
        let key = ack_key(&fragment);
        let record = PendingAck { fragment, recipient, retries: 0, deadline };
        self.acks.insert(key, record);
        proof {
            assert(self@.acks =~= old(self)@.acks.insert(key, record@));
        }
    }

    /// Handles an arriving acknowledgement: removes the record, cancelling
    /// the outstanding retransmission. Returns whether one was pending —
    /// an unknown acknowledgement is ignored.
    pub fn ack_received(&mut self, key: u64) -> (r: bool)
        requires
            old(self).wf(),
        ensures
            final(self).wf(),
            final(self)@ == spec_ack(old(self)@, key),
            r == old(self)@.acks.contains_key(key),
    {
        let removed = self.acks.remove(key);
        proof {
            assert(self@.acks =~= old(self)@.acks.remove(key));
        }
        removed.is_some()
    }

    /// Handles the expiry of a record's deadline, deciding between one
    /// retransmission (fresh deadline, retry count advanced), giving the
    /// fragment up once the budget is spent, and doing nothing if the
    /// acknowledgement already arrived.
    pub fn deadline_expired(&mut self, key: u64, fresh_deadline: u64) -> (r: ExpiryAction)
        requires
            old(self).wf(),
        ensures
            final(self).wf(),
            final(self)@ == spec_expire(old(self)@, key, fresh_deadline as nat).0,
            r@ == spec_expire(old(self)@, key, fresh_deadline as nat).1,
    {
        let (retries, budget_left) = match self.acks.get(key) {
            Some(record) => (record.retries, record.retries < self.max_retries),
            None => {
                return ExpiryAction::NotPending;
            },
        };
        if budget_left {
            let record = self.acks.remove(key).unwrap();
            let fragment_copy = record.fragment.duplicate();
            let recipient = record.recipient;
            let bumped = PendingAck {
                fragment: record.fragment,
                recipient: record.recipient,
                retries: retries + 1,
                deadline: fresh_deadline,
            };
            self.acks.insert(key, bumped);
            proof {
                assert(self@.acks =~= old(self)@.acks.insert(key, bumped@));
                assert(bumped@ == PendingAckView {
                    retries: old(self)@.acks[key].retries + 1,
                    deadline: fresh_deadline as nat,
                    ..old(self)@.acks[key]
                });
            }
            ExpiryAction::Retransmit(fragment_copy, recipient, fresh_deadline)
        } else {
            let record = self.acks.remove(key).unwrap();
            proof {
                assert(self@.acks =~= old(self)@.acks.remove(key));
            }
            ExpiryAction::GiveUp(record.fragment)
        }
    }

    /// How many fragments are currently awaiting acknowledgement.
    pub fn pending_count(&self) -> (r: usize)
        requires
            self.wf(),
        ensures
            r == self.spec_pending_count(),
    {
        self.acks.len()
    }

    pub closed spec fn spec_pending_count(&self) -> nat {
        self.acks.spec_len()
    }

    /// Whether a record is tracked under this key.
    pub fn is_pending(&self, key: u64) -> (r: bool)
        requires
            self.wf(),
        ensures
            r == self@.acks.contains_key(key),
    {
        self.acks.contains(key)
    }
}

/// The acknowledgement wait: the estimated round trip through the network —
/// per-hop average delay times the number of hops there and back — scaled by
/// a configurable safety ratio and stretched by a configurable addition.
pub open spec fn spec_ack_wait(
    avg_hop_delay_ms: nat,
    hops: nat,
    multiplier_num: nat,
    multiplier_den: nat,
    addition_ms: nat,
) -> int
    recommends
        multiplier_den >= 1,
{
    addition_ms as int + (avg_hop_delay_ms as int * hops as int * multiplier_num as int) / (multiplier_den as int)
}

/// Computes the acknowledgement wait.
pub fn ack_wait_ms(
    avg_hop_delay_ms: u64,
    hops: u64,
    multiplier_num: u64,
    multiplier_den: u64,
    addition_ms: u64,
) -> (r: u64)
    requires
        multiplier_den >= 1,
        avg_hop_delay_ms * hops <= u64::MAX,
        avg_hop_delay_ms * hops * multiplier_num <= u64::MAX,
        spec_ack_wait(
            avg_hop_delay_ms as nat,
            hops as nat,
            multiplier_num as nat,
            multiplier_den as nat,
            addition_ms as nat,
        ) <= u64::MAX,
    ensures
        r == spec_ack_wait(
            avg_hop_delay_ms as nat,
            hops as nat,
            multiplier_num as nat,
            multiplier_den as nat,
            addition_ms as nat,
        ),
{
    let hop_product = (avg_hop_delay_ms as u128) * (hops as u128);
    let product = hop_product * (multiplier_num as u128);
    let scaled = product / (multiplier_den as u128);
    proof {
        assert(scaled <= product) by {
            vstd::arithmetic::div_mod::lemma_div_nonincreasing(product as int, multiplier_den as int);
            vstd::arithmetic::div_mod::lemma_div_is_ordered_by_denominator(
                product as int,
                1,
                multiplier_den as int,
            );
        }
    }
    addition_ms + (scaled as u64)
}

} // verus!
