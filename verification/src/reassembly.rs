//! The received-message reassembly buffer.
//!
//! Decrypted fragments arrive from the transport in arbitrary order, possibly
//! duplicated. The buffer keeps one entry per in-flight message identifier,
//! holding a slot per declared fragment index. When the last missing slot is
//! filled the entry is finalized: the payload is assembled in index order,
//! the entry is removed, and the identifier is remembered as completed so
//! that feeding the same fragment set again delivers nothing a second time.
//! Entries that never complete are evicted once their deadline passes, to
//! bound memory; malformed or mismatched fragments are rejected without
//! touching the entry they aimed at.

use vstd::prelude::*;

use crate::fragment::FragmentView;
use crate::fragment::Fragment;
use crate::fragment::fragment_view_wf;
use crate::keymap::KeyMap;

verus! {

/// The mathematical content of one reassembly entry.
pub struct EntryView {
    pub total: nat,
    pub slots: Seq<Option<Seq<u8>>>,
    pub deadline: nat,
}

/// The mathematical content of the whole buffer.
pub struct BufferView {
    pub entries: Map<u64, EntryView>,
    pub completed: Set<u64>,
    pub lifetime: nat,
}

/// What one insertion did.
pub enum SpecOutcome {
    /// The fragment completed its message; the assembled payload follows.
    Completed(Seq<u8>),
    /// The fragment was stored; the message is still missing fragments.
    Pending,
    /// A fragment for this slot was already stored; nothing changed.
    Duplicate,
    /// The message was already delivered; nothing changed.
    AlreadyCompleted,
    /// Malformed header, or header at odds with the stored entry.
    Rejected,
}

/// How many slots are filled.
pub open spec fn count_some(s: Seq<Option<Seq<u8>>>) -> nat
    decreases s.len(),
{
    if s.len() == 0 {
        0
    } else {
        count_some(s.drop_last()) + (if s.last() is Some { 1nat } else { 0nat })
    }
}

/// All-empty slots for a message of `total` fragments.
pub open spec fn empty_slots(total: nat) -> Seq<Option<Seq<u8>>> {
    Seq::new(total, |i: int| None)
}

/// The payload assembled from fully filled slots, in index order.
pub open spec fn assemble(slots: Seq<Option<Seq<u8>>>) -> Seq<u8> {
    slots.map_values(|o: Option<Seq<u8>>| o->Some_0).flatten()
}

/// A structurally valid entry: one slot per declared fragment, not yet full.
pub open spec fn entry_view_wf(e: EntryView) -> bool {
    &&& e.total >= 1
    &&& e.slots.len() == e.total
    &&& count_some(e.slots) < e.total
}

/// The buffer invariant: every stored entry is valid and still incomplete,
/// and no identifier is both in flight and already delivered.
pub open spec fn buffer_view_wf(b: BufferView) -> bool {
    &&& forall|k: u64| b.entries.contains_key(k) ==> entry_view_wf(#[trigger] b.entries[k])
    &&& forall|k: u64| b.entries.contains_key(k) ==> !b.completed.contains(k)
}

/// The insertion transition: what one fragment arrival does to the buffer,
/// and what it yields.
pub open spec fn spec_insert(b: BufferView, f: FragmentView, now: nat) -> (BufferView, SpecOutcome) {
    if b.completed.contains(f.message_id) {
        (b, SpecOutcome::AlreadyCompleted)
    } else if !fragment_view_wf(f) {
        (b, SpecOutcome::Rejected)
    } else if !b.entries.contains_key(f.message_id) {
        if f.total == 1 {
            (
                BufferView { completed: b.completed.insert(f.message_id), ..b },
                SpecOutcome::Completed(f.payload),
            )
        } else {
            let e = EntryView {
                total: f.total,
                slots: empty_slots(f.total).update(f.index as int, Some(f.payload)),
                deadline: now + b.lifetime,
            };
            (BufferView { entries: b.entries.insert(f.message_id, e), ..b }, SpecOutcome::Pending)
        }
    } else {
        let e = b.entries[f.message_id];
        if f.total != e.total || f.index >= e.slots.len() {
            (b, SpecOutcome::Rejected)
        } else if e.slots[f.index as int] is Some {
            (b, SpecOutcome::Duplicate)
        } else {
            let slots = e.slots.update(f.index as int, Some(f.payload));
            if count_some(slots) == e.total {
                (
                    BufferView {
                        entries: b.entries.remove(f.message_id),
                        completed: b.completed.insert(f.message_id),
                        ..b
                    },
                    SpecOutcome::Completed(assemble(slots)),
                )
            } else {
                let e2 = EntryView { slots: slots, ..e };
                (BufferView { entries: b.entries.insert(f.message_id, e2), ..b }, SpecOutcome::Pending)
            }
        }
    }
}

/// The eviction transition: only entries whose deadline has not passed stay.
pub open spec fn spec_evict(b: BufferView, now: nat) -> BufferView {
    BufferView {
        entries: Map::new(
            |k: u64| b.entries.contains_key(k) && b.entries[k].deadline >= now,
            |k: u64| b.entries[k],
        ),
        ..b
    }
}

/// The buffer state after feeding a sequence of fragments, one by one.
pub open spec fn insert_all(b: BufferView, fs: Seq<FragmentView>, now: nat) -> BufferView
    decreases fs.len(),
{
    if fs.len() == 0 {
        b
    } else {
        insert_all(spec_insert(b, fs.first(), now).0, fs.drop_first(), now)
    }
}

/// The payloads delivered while feeding a sequence of fragments, in order.
pub open spec fn delivered_payloads(b: BufferView, fs: Seq<FragmentView>, now: nat) -> Seq<Seq<u8>>
    decreases fs.len(),
{
    if fs.len() == 0 {
        Seq::empty()
    } else {
        let step = spec_insert(b, fs.first(), now);
        let rest = delivered_payloads(step.0, fs.drop_first(), now);
        match step.1 {
            SpecOutcome::Completed(p) => seq![p] + rest,
            _ => rest,
        }
    }
}

/// Law: staleness eviction — an entry still incomplete when its deadline has
/// passed is removed and consumes no further memory, while entries within
/// their window survive untouched.
pub proof fn lemma_staleness_eviction(b: BufferView, now: nat, id: u64)
    ensures
        b.entries.contains_key(id) && b.entries[id].deadline < now
            ==> !spec_evict(b, now).entries.contains_key(id),
        b.entries.contains_key(id) && b.entries[id].deadline >= now
            ==> spec_evict(b, now).entries.contains_key(id)
                && spec_evict(b, now).entries[id] == b.entries[id],
        !b.entries.contains_key(id) ==> !spec_evict(b, now).entries.contains_key(id),
{
}

/// Law: one fragment of an already delivered message is a no-op — the buffer
/// is unchanged and nothing is delivered again.
pub proof fn lemma_insert_after_completion_noop(b: BufferView, f: FragmentView, now: nat)
    requires
        b.completed.contains(f.message_id),
    ensures
        spec_insert(b, f, now).0 == b,
        spec_insert(b, f, now).1 == SpecOutcome::AlreadyCompleted,
{
}

/// Law: feeding any fragments of already delivered messages — in particular a
/// completed fragment set a second time — changes nothing and delivers
/// nothing, so a fragment set fed twice yields exactly one delivery.
pub proof fn lemma_reassembly_idempotent(b: BufferView, fs: Seq<FragmentView>, now: nat)
    requires
        forall|k: int| 0 <= k < fs.len()
            ==> b.completed.contains((#[trigger] fs[k]).message_id),
    ensures
        insert_all(b, fs, now) == b,
        delivered_payloads(b, fs, now) =~= Seq::<Seq<u8>>::empty(),
    decreases fs.len(),
{
    if fs.len() > 0 {
        lemma_insert_after_completion_noop(b, fs.first(), now);
        assert forall|k: int| 0 <= k < fs.drop_first().len()
            implies b.completed.contains((#[trigger] fs.drop_first()[k]).message_id) by {
            assert(fs.drop_first()[k] == fs[k + 1]);
        }
        lemma_reassembly_idempotent(b, fs.drop_first(), now);
    }
}

/// Feeding a concatenation is feeding the parts one after the other.
proof fn lemma_feed_split(b: BufferView, fs1: Seq<FragmentView>, fs2: Seq<FragmentView>, now: nat)
    ensures
        insert_all(b, fs1 + fs2, now) == insert_all(insert_all(b, fs1, now), fs2, now),
        delivered_payloads(b, fs1 + fs2, now) == delivered_payloads(b, fs1, now)
            + delivered_payloads(insert_all(b, fs1, now), fs2, now),
    decreases fs1.len(),
{
    if fs1.len() == 0 {
        assert(fs1 + fs2 =~= fs2);
        assert(Seq::<Seq<u8>>::empty() + delivered_payloads(b, fs2, now)
            =~= delivered_payloads(b, fs2, now));
    } else {
        let whole = fs1 + fs2;
        assert(whole.first() == fs1.first());
        assert(whole.drop_first() =~= fs1.drop_first() + fs2);
        let step = spec_insert(b, fs1.first(), now);
        lemma_feed_split(step.0, fs1.drop_first(), fs2, now);
        match step.1 {
            SpecOutcome::Completed(p) => {
                assert(seq![p] + (delivered_payloads(step.0, fs1.drop_first(), now)
                    + delivered_payloads(insert_all(step.0, fs1.drop_first(), now), fs2, now))
                    =~= (seq![p] + delivered_payloads(step.0, fs1.drop_first(), now))
                        + delivered_payloads(insert_all(step.0, fs1.drop_first(), now), fs2, now));
            },
            _ => {},
        }
    }
}

/// Law: a completed fragment set fed twice — in any two arrival orders —
/// delivers its message exactly once: the whole of the first pass's
/// deliveries, and the second pass changes nothing and delivers nothing.
pub proof fn lemma_fed_twice_delivers_once(
    b: BufferView,
    message_id: u64,
    p: Seq<u8>,
    c: nat,
    order1: Seq<int>,
    order2: Seq<int>,
    now: nat,
)
    requires
        buffer_view_wf(b),
        c >= 1,
        message_id <= u32::MAX,
        p.len() <= u32::MAX,
        !b.completed.contains(message_id),
        !b.entries.contains_key(message_id),
        is_permutation(order1, crate::fragment::fragment_count(p.len(), c)),
        is_permutation(order2, crate::fragment::fragment_count(p.len(), c)),
    ensures
        ({
            let both = permuted_fragments(message_id, p, c, order1)
                + permuted_fragments(message_id, p, c, order2);
            delivered_payloads(b, both, now) =~= seq![p]
        }),
{
    let fs1 = permuted_fragments(message_id, p, c, order1);
    let fs2 = permuted_fragments(message_id, p, c, order2);
    lemma_fragmentation_round_trip(b, message_id, p, c, order1, now);
    lemma_feed_split(b, fs1, fs2, now);
    let after = insert_all(b, fs1, now);
    assert forall|k: int| 0 <= k < fs2.len()
        implies after.completed.contains((#[trigger] fs2[k]).message_id) by {
        assert(fs2[k].message_id == message_id);
    }
    lemma_reassembly_idempotent(after, fs2, now);
    assert(seq![p] + Seq::<Seq<u8>>::empty() =~= seq![p]);
}

proof fn lemma_count_some_fill(s: Seq<Option<Seq<u8>>>, i: int, p: Seq<u8>)
    requires
        0 <= i < s.len(),
        s[i] is None,
    ensures
        count_some(s.update(i, Some(p))) == count_some(s) + 1,
    decreases s.len(),
{
    let t = s.update(i, Some(p));
    if i == s.len() - 1 {
        assert(t.drop_last() =~= s.drop_last());
    } else {
        assert(t.drop_last() =~= s.drop_last().update(i, Some(p)));
        assert(t.last() == s.last());
        lemma_count_some_fill(s.drop_last(), i, p);
    }
}

/// A sequence with no filled slot counts zero.
proof fn lemma_count_some_empty(s: Seq<Option<Seq<u8>>>)
    requires
        forall|i: int| 0 <= i < s.len() ==> s[i] is None,
    ensures
        count_some(s) == 0,
    decreases s.len(),
{
    if s.len() > 0 {
        lemma_count_some_empty(s.drop_last());
    }
}

/// A fully counted sequence has every slot filled.
proof fn lemma_count_some_full(s: Seq<Option<Seq<u8>>>)
    requires
        count_some(s) == s.len(),
    ensures
        forall|i: int| 0 <= i < s.len() ==> s[i] is Some,
    decreases s.len(),
{
    if s.len() > 0 {
        assert(count_some(s.drop_last()) <= s.drop_last().len()) by {
            lemma_count_some_le(s.drop_last());
        }
        lemma_count_some_full(s.drop_last());
        assert forall|i: int| 0 <= i < s.len() implies s[i] is Some by {
            if i < s.len() - 1 {
                assert(s.drop_last()[i] is Some);
            }
        }
    }
}

proof fn lemma_count_some_le(s: Seq<Option<Seq<u8>>>)
    ensures
        count_some(s) <= s.len(),
    decreases s.len(),
{
    if s.len() > 0 {
        lemma_count_some_le(s.drop_last());
    }
}

/// The fragments of `p` under capacity `c`, fed in the arrival order given by
/// the permutation `order` of the fragment indices.
pub open spec fn permuted_fragments(message_id: u64, p: Seq<u8>, c: nat, order: Seq<int>) -> Seq<FragmentView> {
    Seq::new(order.len(), |k: int| crate::fragment::payload_fragment(message_id, p, c, order[k]))
}

/// A sequence listing each of `0 .. n` exactly once, in some order.
pub open spec fn is_permutation(order: Seq<int>, n: nat) -> bool {
    &&& order.len() == n
    &&& forall|k: int| 0 <= k < order.len() ==> 0 <= #[trigger] order[k] < n
    &&& forall|k: int, l: int| 0 <= k < order.len() && 0 <= l < order.len() && k != l
        ==> #[trigger] order[k] != #[trigger] order[l]
}

proof fn round_trip_step(
    b0: BufferView,
    message_id: u64,
    p: Seq<u8>,
    c: nat,
    order: Seq<int>,
    k: int,
    bk: BufferView,
    now: nat,
)
    requires
        c >= 1,
        message_id <= u32::MAX,
        p.len() <= u32::MAX,
        is_permutation(order, crate::fragment::fragment_count(p.len(), c)),
        order.len() >= 2,
        1 <= k < order.len(),
        !bk.completed.contains(message_id),
        !b0.entries.contains_key(message_id),
        bk.entries =~= b0.entries.insert(message_id, bk.entries[message_id]),
        bk.entries.contains_key(message_id),
        ({
            let e = bk.entries[message_id];
            &&& e.total == order.len()
            &&& e.slots.len() == order.len()
            &&& count_some(e.slots) == k
            &&& forall|j: int| 0 <= j < e.slots.len() && (#[trigger] e.slots[j]) is Some
                ==> e.slots[j]->Some_0 == crate::fragment::chunks(p, c)[j]
            &&& forall|j: int| 0 <= j < e.slots.len()
                ==> ((#[trigger] e.slots[j]) is Some
                    <==> exists|l: int| 0 <= l < k && #[trigger] order[l] == j)
        }),
    ensures
        ({
            let fs = permuted_fragments(message_id, p, c, order).skip(k);
            &&& delivered_payloads(bk, fs, now) =~= seq![p]
            &&& insert_all(bk, fs, now).completed =~= bk.completed.insert(message_id)
            &&& insert_all(bk, fs, now).entries =~= b0.entries
            &&& insert_all(bk, fs, now).lifetime == bk.lifetime
        }),
    decreases order.len() - k,
{
    let n = order.len() as int;
    let full = permuted_fragments(message_id, p, c, order);
    let fs = full.skip(k);
    let f = fs.first();
    assert(f == full[k]);
    let idx = order[k];
    let e = bk.entries[message_id];
    crate::fragment::lemma_chunks_len(p, c);
    crate::fragment::lemma_fragment_count_le(p.len(), c);
    assert(fragment_view_wf(f));
    assert(f.message_id == message_id && f.total == n && f.index == idx);
    // this slot cannot be filled yet: its index has not occurred before k
    assert(!(e.slots[idx] is Some)) by {
        if e.slots[idx] is Some {
            let l = choose|l: int| 0 <= l < k && #[trigger] order[l] == idx;
            assert(order[l] == order[k] && l != k);
        }
    }
    let slots2 = e.slots.update(idx, Some(f.payload));
    lemma_count_some_fill(e.slots, idx, f.payload);
    assert(count_some(slots2) == k + 1);
    let step = spec_insert(bk, f, now);
    if k + 1 == n {
        // the last missing slot was just filled: the message completes
        lemma_count_some_full(slots2);
        assert forall|j: int| 0 <= j < n
            implies slots2[j] == Some(crate::fragment::chunks(p, c)[j]) by {
            assert(slots2[j] is Some);
            if j != idx {
                assert(slots2[j] == e.slots[j]);
                assert(e.slots[j] is Some);
                assert(e.slots[j]->Some_0 == crate::fragment::chunks(p, c)[j]);
            }
        }
        assert(slots2.map_values(|o: Option<Seq<u8>>| o->Some_0)
            =~= crate::fragment::chunks(p, c));
        crate::fragment::lemma_chunks_concat(p, c);
        assert(assemble(slots2) == p);
        assert(step.1 == SpecOutcome::Completed(p));
        assert(step.0.entries =~= b0.entries) by {
            assert(step.0.entries =~= bk.entries.remove(message_id));
        }
        let rest = fs.drop_first();
        assert(rest.len() == 0);
        assert(delivered_payloads(step.0, rest, now) == Seq::<Seq<u8>>::empty());
        assert(delivered_payloads(bk, fs, now)
            == seq![p] + delivered_payloads(step.0, rest, now));
        assert(seq![p] + Seq::<Seq<u8>>::empty() =~= seq![p]);
        assert(insert_all(step.0, rest, now) == step.0);
        assert(insert_all(bk, fs, now) == insert_all(step.0, fs.drop_first(), now));
    } else {
        assert(step.1 is Pending);
        let e2 = step.0.entries[message_id];
        assert(e2.slots == slots2 && e2.total == e.total);
        assert(step.0.entries =~= b0.entries.insert(message_id, e2)) by {
            assert(step.0.entries =~= bk.entries.insert(message_id, e2));
        }
        assert forall|j: int| 0 <= j < e2.slots.len()
            implies ((#[trigger] e2.slots[j]) is Some
                <==> exists|l: int| 0 <= l < k + 1 && #[trigger] order[l] == j) by {
            if e2.slots[j] is Some {
                if j == idx {
                    assert(order[k] == j);
                } else {
                    assert(e.slots[j] is Some);
                    let l = choose|l: int| 0 <= l < k && #[trigger] order[l] == j;
                    assert(0 <= l < k + 1 && order[l] == j);
                }
            } else {
                if exists|l: int| 0 <= l < k + 1 && #[trigger] order[l] == j {
                    let l = choose|l: int| 0 <= l < k + 1 && #[trigger] order[l] == j;
                    if l < k {
                        assert(e.slots[j] is Some);
                    } else {
                        assert(j == idx);
                    }
                    assert(false);
                }
            }
        }
        round_trip_step(b0, message_id, p, c, order, k + 1, step.0, now);
        assert(fs.drop_first() =~= full.skip(k + 1));
        assert(delivered_payloads(bk, fs, now)
            == delivered_payloads(step.0, full.skip(k + 1), now));
        assert(insert_all(bk, fs, now) == insert_all(step.0, full.skip(k + 1), now));
    }
}

/// Law: fragmenting a payload and feeding the fragments back in any arrival
/// order delivers the original payload, exactly once, and leaves no entry for
/// the message in flight; the message identifier is remembered as completed.
pub proof fn lemma_fragmentation_round_trip(
    b: BufferView,
    message_id: u64,
    p: Seq<u8>,
    c: nat,
    order: Seq<int>,
    now: nat,
)
    requires
        buffer_view_wf(b),
        c >= 1,
        message_id <= u32::MAX,
        p.len() <= u32::MAX,
        !b.completed.contains(message_id),
        !b.entries.contains_key(message_id),
        is_permutation(order, crate::fragment::fragment_count(p.len(), c)),
    ensures
        ({
            let fs = permuted_fragments(message_id, p, c, order);
            &&& delivered_payloads(b, fs, now) =~= seq![p]
            &&& insert_all(b, fs, now).completed =~= b.completed.insert(message_id)
            &&& insert_all(b, fs, now).entries =~= b.entries
            &&& insert_all(b, fs, now).lifetime == b.lifetime
        }),
{
    let full = permuted_fragments(message_id, p, c, order);
    let n = order.len() as int;
    crate::fragment::lemma_chunks_len(p, c);
    crate::fragment::lemma_fragment_count_le(p.len(), c);
    let f = full.first();
    assert(f == full[0]);
    assert(fragment_view_wf(f));
    let step = spec_insert(b, f, now);
    if n == 1 {
        // a single-fragment message completes on arrival; its one chunk is
        // the payload itself
        assert(order[0] == 0);
        if p.len() > c {
            crate::fragment::lemma_fragment_count_pos(p.len(), c);
            assert(false);
        }
        assert(crate::fragment::chunks(p, c) == seq![p]);
        assert(crate::fragment::chunks(p, c)[0] == p);
        assert(step.1 == SpecOutcome::Completed(p));
        let rest = full.drop_first();
        assert(rest.len() == 0);
        assert(delivered_payloads(step.0, rest, now) == Seq::<Seq<u8>>::empty());
        assert(delivered_payloads(b, full, now)
            == seq![p] + delivered_payloads(step.0, rest, now));
        assert(seq![p] + Seq::<Seq<u8>>::empty() =~= seq![p]);
        assert(insert_all(step.0, rest, now) == step.0);
        assert(insert_all(b, full, now) == insert_all(step.0, full.drop_first(), now));
        assert(step.0.completed =~= b.completed.insert(message_id));
        assert(step.0.entries =~= b.entries);
    } else {
        assert(step.1 is Pending);
        let idx = order[0];
        let e1 = step.0.entries[message_id];
        assert(e1.slots =~= empty_slots(n as nat).update(idx, Some(f.payload)));
        lemma_count_some_empty(empty_slots(n as nat));
        lemma_count_some_fill(empty_slots(n as nat), idx, f.payload);
        assert(count_some(e1.slots) == 1);
        assert(step.0.entries =~= b.entries.insert(message_id, e1));
        assert forall|j: int| 0 <= j < e1.slots.len()
            implies ((#[trigger] e1.slots[j]) is Some
                <==> exists|l: int| 0 <= l < 1 && #[trigger] order[l] == j) by {
            if j == idx {
                assert(order[0] == j);
            }
        }
        round_trip_step(b, message_id, p, c, order, 1, step.0, now);
        assert(full.drop_first() =~= full.skip(1));
        assert(delivered_payloads(b, full, now)
            == delivered_payloads(step.0, full.skip(1), now));
        assert(insert_all(b, full, now) == insert_all(step.0, full.skip(1), now));
    }
}

/// One reassembly entry: the slots received so far for one message.
pub struct ReassemblyEntry {
    total: u32,
    slots: Vec<Option<Vec<u8>>>,
    received: u32,
    deadline: u64,
}

impl View for ReassemblyEntry {
    type V = EntryView;

    closed spec fn view(&self) -> EntryView {
        EntryView {
            total: self.total as nat,
            slots: self.slots@.map_values(|o: Option<Vec<u8>>| match o {
                Some(v) => Some(v@),
                None => None,
            }),
            deadline: self.deadline as nat,
        }
    }
}

impl ReassemblyEntry {
    spec fn wf(&self) -> bool {
        &&& self.slots@.len() == self.total
        &&& self.received == count_some(self@.slots)
    }
}

/// What one insertion did, carrying the assembled payload on completion.
pub enum InsertOutcome {
    Completed(Vec<u8>),
    Pending,
    Duplicate,
    AlreadyCompleted,
    Rejected,
}

impl InsertOutcome {
    /// The spec-level outcome this value stands for.
    pub open spec fn view(&self) -> SpecOutcome {
        match self {
            InsertOutcome::Completed(p) => SpecOutcome::Completed(p@),
            InsertOutcome::Pending => SpecOutcome::Pending,
            InsertOutcome::Duplicate => SpecOutcome::Duplicate,
            InsertOutcome::AlreadyCompleted => SpecOutcome::AlreadyCompleted,
            InsertOutcome::Rejected => SpecOutcome::Rejected,
        }
    }
}

/// The reassembly buffer: in-flight entries keyed by message identifier,
/// the set of already delivered identifiers, and the staleness window.
pub struct ReassemblyBuffer {
    entries: KeyMap<ReassemblyEntry>,
    completed: KeyMap<()>,
    lifetime: u64,
}

impl View for ReassemblyBuffer {
    type V = BufferView;

    closed spec fn view(&self) -> BufferView {
        BufferView {
            entries: self.entries@.map_values(|e: ReassemblyEntry| e@),
            completed: self.completed@.dom(),
            lifetime: self.lifetime as nat,
        }
    }
}

impl ReassemblyBuffer {
    pub closed spec fn wf(&self) -> bool {
        &&& self.entries.wf()
        &&& self.completed.wf()
        &&& forall|k: u64| self.entries@.contains_key(k) ==> (#[trigger] self.entries@[k]).wf()
        &&& buffer_view_wf(self@)
    }

    /// A fresh buffer that evicts incomplete entries `lifetime` after the
    /// first fragment of their message arrived.
    pub fn new(lifetime: u64) -> (r: Self)
        ensures
            r.wf(),
            r@.entries =~= Map::<u64, EntryView>::empty(),
            r@.completed =~= Set::<u64>::empty(),
            r@.lifetime == lifetime,
    {
        ReassemblyBuffer {
            entries: KeyMap::new(),
            completed: KeyMap::new(),
            lifetime,
        }
    }

    /// Feeds one received fragment to the buffer. The state change and the
    /// outcome are exactly those of the `spec_insert` transition.
    pub fn insert_fragment(&mut self, fragment: Fragment, now: u64) -> (r: InsertOutcome)
        requires
            old(self).wf(),
            now + old(self)@.lifetime <= u64::MAX,
        ensures
            final(self).wf(),
            final(self)@ == spec_insert(old(self)@, fragment@, now as nat).0,
            r@ == spec_insert(old(self)@, fragment@, now as nat).1,
    {
        let ghost pre = self@;
        let ghost fv = fragment@;
        let key = fragment.message_id as u64;
        if self.completed.contains(key) {
            return InsertOutcome::AlreadyCompleted;
        }
        if fragment.total == 0 || fragment.index >= fragment.total {
            return InsertOutcome::Rejected;
        }
        if !self.entries.contains(key) {
            proof {
                assert(!pre.entries.contains_key(key));
            }
            if fragment.total == 1 {
                self.completed.insert(key, ());
                proof {
                    assert(self@.entries =~= pre.entries);
                    assert(self@.completed =~= pre.completed.insert(key));
                    assert(self@ == spec_insert(pre, fv, now as nat).0);
                }
                return InsertOutcome::Completed(fragment.payload);
            }
            let total = fragment.total;
            let index = fragment.index;
            let mut slots: Vec<Option<Vec<u8>>> = Vec::new();
            let mut i: usize = 0;
            while i < total as usize
                invariant
                    i <= total,
                    slots@.len() == i,
                    forall|j: int| 0 <= j < i ==> (#[trigger] slots@[j]) is None,
                decreases total as int - i,
            {
                slots.push(None);
                i = i + 1;
            }
            proof {
                assert(slots@.map_values(|o: Option<Vec<u8>>| match o {
                    Some(v) => Some(v@),
                    None => None,
                }) =~= empty_slots(total as nat));
                lemma_count_some_empty(empty_slots(total as nat));
            }
            let ghost slots_before = slots@;
            slots.set(index as usize, Some(fragment.payload));
            let entry = ReassemblyEntry { total, slots, received: 1, deadline: now + self.lifetime };
            proof {
                assert(entry@.slots =~= empty_slots(total as nat).update(index as int, Some(fv.payload)));
                lemma_count_some_fill(empty_slots(total as nat), index as int, fv.payload);
                assert(entry.wf());
            }
            self.entries.insert(key, entry);
            proof {
                assert(self@.entries =~= pre.entries.insert(key, entry@));
                assert(self@.completed =~= pre.completed);
                assert(self@ == spec_insert(pre, fv, now as nat).0);
            }
            return InsertOutcome::Pending;
        }
        // an entry for this message exists and the header is well-formed
        let ghost e_view = pre.entries[key];
        let entry_ref = self.entries.get(key).unwrap();
        if fragment.total != entry_ref.total {
            proof {
                assert(fv.total != e_view.total);
            }
            return InsertOutcome::Rejected;
        }
        let index = fragment.index as usize;
        let slot_filled = entry_ref.slots[index].is_some();
        proof {
            assert(e_view.slots[fv.index as int] is Some <==> slot_filled);
        }
        if slot_filled {
            return InsertOutcome::Duplicate;
        }
        // take the entry out, fill the slot, and either finalize or store back
        let mut entry = self.entries.remove(key).unwrap();
        let ghost slots_before = entry@.slots;
        entry.slots.set(index, Some(fragment.payload));
        entry.received = entry.received + 1;
        proof {
            assert(entry@.slots =~= slots_before.update(fv.index as int, Some(fv.payload)));
            lemma_count_some_fill(slots_before, fv.index as int, fv.payload);
            assert(entry.wf());
        }
        if entry.received == entry.total {
            proof {
                lemma_count_some_full(entry@.slots);
                assert forall|i: int| 0 <= i < entry.slots@.len()
                    implies (#[trigger] entry.slots@[i]) is Some by {
                    assert(entry@.slots[i] is Some);
                }
            }
            let payload = assemble_slots(entry.slots);
            self.completed.insert(key, ());
            proof {
                assert(self@.entries =~= pre.entries.remove(key));
                assert(self@.completed =~= pre.completed.insert(key));
                assert(self@ == spec_insert(pre, fv, now as nat).0);
            }
            return InsertOutcome::Completed(payload);
        }
        self.entries.insert(key, entry);
        proof {
            assert(self@.entries =~= pre.entries.insert(key, entry@));
            assert(self@.completed =~= pre.completed);
            assert(self@ == spec_insert(pre, fv, now as nat).0);
        }
        InsertOutcome::Pending
    }

    /// Removes every entry whose deadline has passed. An incomplete message
    /// evicted here consumes no further memory; its identifier is not marked
    /// completed, so a late full retransmission could still deliver it.
    pub fn evict_stale(&mut self, now: u64)
        requires
            old(self).wf(),
        ensures
            final(self).wf(),
            final(self)@ == spec_evict(old(self)@, now as nat),
    {
        let ghost pre = self@;
        let keys = self.entries.keys();
        let mut i: usize = 0;
        while i < keys.len()
            invariant
                self.entries.wf(),
                self.completed.wf(),
                forall|k: u64| self.entries@.contains_key(k) ==> (#[trigger] self.entries@[k]).wf(),
                i <= keys@.len(),
                self.completed@.dom() =~= pre.completed,
                self.lifetime == pre.lifetime,
                forall|j: int, l: int| 0 <= j < keys@.len() && 0 <= l < keys@.len() && j != l
                    ==> #[trigger] keys@[j] != #[trigger] keys@[l],
                forall|k: u64| #[trigger] self.entries@.contains_key(k) ==>
                    pre.entries.contains_key(k) && self.entries@[k]@ == pre.entries[k],
                forall|k: u64| pre.entries.contains_key(k)
                    && !(exists|j: int| 0 <= j < i && #[trigger] keys@[j] == k
                            && pre.entries[k].deadline < now)
                    ==> #[trigger] self.entries@.contains_key(k),
                forall|k: u64| #[trigger] self.entries@.contains_key(k)
                    ==> !(exists|j: int| 0 <= j < i && #[trigger] keys@[j] == k
                            && pre.entries[k].deadline < now),
            decreases keys@.len() - i,
        {
            let ghost before = self.entries@;
            let k = keys[i];
            let stale = match self.entries.get(k) {
                Some(e) => e.deadline < now,
                None => false,
            };
            if stale {
                self.entries.remove(k);
            }
            i = i + 1;
            proof {
                assert forall|k2: u64| pre.entries.contains_key(k2)
                    && !(exists|j: int| 0 <= j < i && #[trigger] keys@[j] == k2
                            && pre.entries[k2].deadline < now)
                    implies #[trigger] self.entries@.contains_key(k2) by {
                    assert(!(keys@[i - 1] == k2 && pre.entries[k2].deadline < now));
                }
                assert forall|k2: u64| #[trigger] self.entries@.contains_key(k2)
                    implies !(exists|j: int| 0 <= j < i && #[trigger] keys@[j] == k2
                            && pre.entries[k2].deadline < now) by {
                    assert(before.contains_key(k2));
                    if exists|j: int| 0 <= j < i && #[trigger] keys@[j] == k2
                            && pre.entries[k2].deadline < now {
                        let j = choose|j: int| 0 <= j < i && #[trigger] keys@[j] == k2
                            && pre.entries[k2].deadline < now;
                        if j == i - 1 {
                            // this key was just examined: the stored entry's
                            // deadline equals the original one, so it was stale
                            // and removed, contradicting its presence
                            assert(k2 == k);
                            assert(before[k2]@ == pre.entries[k2]);
                            assert(stale);
                            assert(!self.entries@.contains_key(k2));
                        }
                    }
                }
            }
        }
        proof {
            let post = spec_evict(pre, now as nat);
            assert forall|k: u64| #[trigger] self@.entries.contains_key(k)
                implies post.entries.contains_key(k) && post.entries[k] == self@.entries[k] by {
                if pre.entries[k].deadline < now {
                    let j = choose|j: int| 0 <= j < keys@.len() && #[trigger] keys@[j] == k;
                    assert(keys@[j] == k && pre.entries[k].deadline < now);
                }
            }
            assert forall|k: u64| #[trigger] post.entries.contains_key(k)
                implies self@.entries.contains_key(k) by {
                assert(!(exists|j: int| 0 <= j < keys@.len() && #[trigger] keys@[j] == k
                    && pre.entries[k].deadline < now));
            }
            assert(self@.entries =~= post.entries);
            assert(self@ == post);
        }
    }

    /// Whether a message identifier has already been delivered.
    pub fn is_completed(&self, message_id: u32) -> (r: bool)
        requires
            self.wf(),
        ensures
            r == self@.completed.contains(message_id as u64),
    {
        self.completed.contains(message_id as u64)
    }

    /// How many messages are currently in flight.
    pub fn in_flight(&self) -> (r: usize)
        requires
            self.wf(),
    {
        self.entries.len()
    }
}

/// Concatenates fully filled slots in index order.
fn assemble_slots(slots: Vec<Option<Vec<u8>>>) -> (r: Vec<u8>)
    requires
        forall|i: int| 0 <= i < slots@.len()
            ==> (#[trigger] slots@[i]) is Some,
    ensures
        r@ == assemble(slots@.map_values(|o: Option<Vec<u8>>| match o {
            Some(v) => Some(v@),
            None => None,
        })),
{
    let ghost slot_views = slots@.map_values(|o: Option<Vec<u8>>| match o {
        Some(v) => Some(v@),
        None => None,
    });
    let ghost parts = slot_views.map_values(|o: Option<Seq<u8>>| o->Some_0);
    let n = slots.len();
    let mut out: Vec<u8> = Vec::new();
    proof {
        assert(parts.subrange(0, 0) =~= Seq::<Seq<u8>>::empty());
        assert(out@ =~= parts.subrange(0, 0).flatten());
    }
    let mut i: usize = 0;
    while i < n
        invariant
            n == slots@.len(),
            slot_views == slots@.map_values(|o: Option<Vec<u8>>| match o {
                Some(v) => Some(v@),
                None => None,
            }),
            parts == slot_views.map_values(|o: Option<Seq<u8>>| o->Some_0),
            forall|j: int| 0 <= j < slots@.len() ==> (#[trigger] slots@[j]) is Some,
            i <= n,
            out@ == parts.subrange(0, i as int).flatten(),
        decreases n - i,
    {
        let piece = match &slots[i] {
            Some(v) => v,
            None => {
                proof {
                    assert(false);
                }
                unreached()
            },
        };
        let ghost out_before = out@;
        let mut j: usize = 0;
        let m = piece.len();
        while j < m
            invariant
                m == piece@.len(),
                j <= m,
                out@ =~= out_before + piece@.subrange(0, j as int),
            decreases m - j,
        {
            let b = piece[j];
            out.push(b);
            j = j + 1;
        }
        proof {
            assert(out@ =~= out_before + parts[i as int]);
            parts.subrange(0, i as int).lemma_flatten_push(parts[i as int]);
            assert(parts.subrange(0, i as int).push(parts[i as int])
                =~= parts.subrange(0, i as int + 1));
        }
        i = i + 1;
    }
    proof {
        assert(parts.subrange(0, n as int) =~= parts);
    }
    out
}

} // verus!
