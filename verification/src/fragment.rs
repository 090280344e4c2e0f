//! Fragmentation of outbound messages.
//!
//! A message larger than one packet is cut into fragments of a fixed
//! per-fragment capacity. Each fragment carries a header — message
//! identifier, fragment index and total fragment count — that suffices for
//! reassembly in any arrival order. An empty message still yields one
//! (empty) fragment, so that the message itself is carried.

use vstd::prelude::*;

verus! {

/// One packet-sized chunk of a message, with the header needed to reassemble.
pub struct Fragment {
    pub message_id: u32,
    pub index: u32,
    pub total: u32,
    pub payload: Vec<u8>,
}

/// The mathematical content of a fragment. The message identifier is widened
/// to the `u64` key space used by the tracking tables.
pub struct FragmentView {
    pub message_id: u64,
    pub index: nat,
    pub total: nat,
    pub payload: Seq<u8>,
}

impl View for Fragment {
    type V = FragmentView;

    open spec fn view(&self) -> FragmentView {
        FragmentView {
            message_id: self.message_id as u64,
            index: self.index as nat,
            total: self.total as nat,
            payload: self.payload@,
        }
    }
}

impl Fragment {
    /// An identical copy: a retransmission resends the very same payload
    /// under the very same header (only its onion wrapping is fresh).
    pub fn duplicate(&self) -> (r: Fragment)
        ensures
            r@ == self@,
    {
        let payload = self.payload.clone();
        proof {
            assert forall|i: int| 0 <= i < self.payload@.len()
                implies payload@[i] == self.payload@[i] by {
                assert(vstd::pervasive::cloned::<u8>(self.payload[i], payload[i]));
            }
            assert(payload@ =~= self.payload@);
        }
        Fragment { message_id: self.message_id, index: self.index, total: self.total, payload }
    }
}

/// A structurally valid fragment header.
pub open spec fn fragment_view_wf(f: FragmentView) -> bool {
    &&& f.total >= 1
    &&& f.index < f.total
    &&& f.message_id <= u32::MAX
    &&& f.total <= u32::MAX
}

/// The fragment a payload yields at position `index`: chunk `index` of the
/// payload, under a header carrying the shared message identifier and count.
pub open spec fn payload_fragment(message_id: u64, p: Seq<u8>, c: nat, index: int) -> FragmentView {
    FragmentView {
        message_id: message_id,
        index: index as nat,
        total: fragment_count(p.len(), c),
        payload: chunks(p, c)[index],
    }
}

/// The chunks of `p` under capacity `c`: consecutive runs of at most `c`
/// bytes, in order, covering `p` exactly; an empty `p` has one empty chunk.
pub open spec fn chunks(p: Seq<u8>, c: nat) -> Seq<Seq<u8>>
    decreases p.len(),
{
    if c == 0 {
        Seq::empty()
    } else if p.len() <= c {
        seq![p]
    } else {
        seq![p.subrange(0, c as int)] + chunks(p.skip(c as int), c)
    }
}

/// How many fragments a payload of `n` bytes needs at capacity `c`.
pub open spec fn fragment_count(n: nat, c: nat) -> nat
    decreases n,
{
    if c == 0 {
        0
    } else if n <= c {
        1
    } else {
        1 + fragment_count((n - c) as nat, c)
    }
}

pub proof fn lemma_chunks_len(p: Seq<u8>, c: nat)
    requires
        c >= 1,
    ensures
        chunks(p, c).len() == fragment_count(p.len(), c),
    decreases p.len(),
{
    if p.len() > c {
        lemma_chunks_len(p.skip(c as int), c);
    }
}

/// At capacity `c >= 1` a non-empty payload never needs more fragments than
/// it has bytes, and an empty one needs exactly one.
pub proof fn lemma_fragment_count_le(n: nat, c: nat)
    requires
        c >= 1,
    ensures
        n == 0 ==> fragment_count(n, c) == 1,
        n >= 1 ==> fragment_count(n, c) <= n,
    decreases n,
{
    if n > c {
        lemma_fragment_count_le((n - c) as nat, c);
    }
}

/// At capacity `c >= 1` at least one fragment is always produced, and only a
/// payload that fits one fragment produces exactly one.
pub proof fn lemma_fragment_count_pos(n: nat, c: nat)
    requires
        c >= 1,
    ensures
        fragment_count(n, c) >= 1,
        n > c ==> fragment_count(n, c) >= 2,
    decreases n,
{
    if n > c {
        lemma_fragment_count_pos((n - c) as nat, c);
    }
}

/// Concatenating the chunks in order restores the payload exactly.
pub proof fn lemma_chunks_concat(p: Seq<u8>, c: nat)
    requires
        c >= 1,
    ensures
        chunks(p, c).flatten() == p,
    decreases p.len(),
{
    let cs = chunks(p, c);
    if p.len() <= c {
        assert(cs == seq![p]);
        assert(cs.flatten() =~= p) by {
            cs.lemma_flatten_one_element();
        }
    } else {
        let head = p.subrange(0, c as int);
        let tail = p.skip(c as int);
        lemma_chunks_concat(tail, c);
        assert(cs == seq![head] + chunks(tail, c));
        assert(cs.first() == head);
        assert(cs.drop_first() =~= chunks(tail, c));
        assert(cs.flatten() == head + chunks(tail, c).flatten());
        assert(head + tail =~= p);
    }
}

/// Cuts `payload` into fragments of at most `capacity` bytes each, in order,
/// all carrying `message_id` and the total count.
pub fn fragment_payload(message_id: u32, payload: &Vec<u8>, capacity: usize) -> (r: Vec<Fragment>)
    requires
        capacity >= 1,
        payload@.len() <= u32::MAX,
    ensures
        r@.len() == fragment_count(payload@.len(), capacity as nat),
        forall|i: int| 0 <= i < r@.len() ==> (#[trigger] r@[i]).message_id == message_id,
        forall|i: int| 0 <= i < r@.len() ==> (#[trigger] r@[i]).index == i,
        forall|i: int| 0 <= i < r@.len() ==> (#[trigger] r@[i]).total == r@.len(),
        forall|i: int| 0 <= i < r@.len()
            ==> (#[trigger] r@[i]).payload@ == chunks(payload@, capacity as nat)[i],
        forall|i: int| 0 <= i < r@.len()
            ==> (#[trigger] r@[i])@ == payload_fragment(message_id as u64, payload@, capacity as nat, i),
{
    proof {
        lemma_chunks_len(payload@, capacity as nat);
        lemma_fragment_count_le(payload@.len(), capacity as nat);
    }
    let n = payload.len();
    let mut pieces: Vec<Vec<u8>> = Vec::new();
    let mut offset: usize = 0;
    let mut first = true;
    proof {
        assert(payload@.skip(0) =~= payload@);
    }
    while first || offset < n
        invariant
            capacity >= 1,
            n == payload@.len(),
            offset <= n,
            first ==> offset == 0 && pieces@.len() == 0,
            !first ==> offset > 0 || n == 0,
            !first ==> chunks(payload@, capacity as nat)
                =~= pieces@.map_values(|v: Vec<u8>| v@)
                    + (if offset < n { chunks(payload@.skip(offset as int), capacity as nat) } else { Seq::empty() }),
            first ==> chunks(payload@, capacity as nat)
                =~= chunks(payload@.skip(offset as int), capacity as nat),
        decreases 2 * (n - offset) + (if first { 1int } else { 0int }),
    {
        let remaining = n - offset;
        let take = if remaining > capacity { capacity } else { remaining };
        let ghost rem_seq = payload@.skip(offset as int);
        let mut piece: Vec<u8> = Vec::new();
        let mut j: usize = 0;
        while j < take
            invariant
                offset + take <= n,
                n == payload@.len(),
                j <= take,
                piece@ =~= payload@.subrange(offset as int, offset as int + j as int),
            decreases take - j,
        {
            piece.push(payload[offset + j]);
            j = j + 1;
        }
        proof {
            assert(piece@ =~= rem_seq.subrange(0, take as int));
            if remaining > capacity {
                assert(chunks(rem_seq, capacity as nat)
                    == seq![rem_seq.subrange(0, capacity as int)]
                        + chunks(rem_seq.skip(capacity as int), capacity as nat));
                assert(rem_seq.skip(capacity as int)
                    =~= payload@.skip(offset as int + capacity as int));
            } else {
                assert(chunks(rem_seq, capacity as nat) == seq![rem_seq]);
                assert(piece@ =~= rem_seq);
            }
        }
        let ghost pieces_before = pieces@;
        pieces.push(piece);
        proof {
            assert(pieces@.map_values(|v: Vec<u8>| v@)
                =~= pieces_before.map_values(|v: Vec<u8>| v@).push(pieces@.last()@));
        }
        offset = offset + take;
        first = false;
    }
    let total_usize = pieces.len();
    proof {
        assert(pieces@.map_values(|v: Vec<u8>| v@).len() == chunks(payload@, capacity as nat).len());
    }
    let total = total_usize as u32;
    let mut r: Vec<Fragment> = Vec::new();
    let mut i: usize = 0;
    let ghost piece_views = pieces@.map_values(|v: Vec<u8>| v@);
    while i < total_usize
        invariant
            total_usize == piece_views.len(),
            pieces@.len() == total_usize - i,
            pieces@.map_values(|v: Vec<u8>| v@)
                =~= piece_views.subrange(i as int, total_usize as int),
            total_usize <= u32::MAX,
            total == total_usize,
            i <= total_usize,
            r@.len() == i,
            forall|k: int| 0 <= k < i ==> (#[trigger] r@[k]).message_id == message_id,
            forall|k: int| 0 <= k < i ==> (#[trigger] r@[k]).index == k,
            forall|k: int| 0 <= k < i ==> (#[trigger] r@[k]).total == total_usize,
            forall|k: int| 0 <= k < i ==> (#[trigger] r@[k]).payload@ == piece_views[k],
        decreases total_usize - i,
    {
        let ghost pieces_before = pieces@;
        let piece = pieces.remove(0);
        proof {
            assert(piece@ == pieces_before.map_values(|v: Vec<u8>| v@)[0]);
            assert(piece@ == piece_views[i as int]);
            assert(pieces@ =~= pieces_before.subrange(1, pieces_before.len() as int));
            assert forall|k: int| 0 <= k < pieces@.len()
                implies (#[trigger] pieces@[k])@ == piece_views[i + 1 + k] by {
                assert(pieces@[k] == pieces_before[k + 1]);
                assert(pieces_before.map_values(|v: Vec<u8>| v@)[k + 1]
                    == piece_views.subrange(i as int, total_usize as int)[k + 1]);
            }
            assert(pieces@.map_values(|v: Vec<u8>| v@)
                =~= piece_views.subrange(i as int + 1, total_usize as int));
        }
        r.push(Fragment { message_id, index: i as u32, total, payload: piece });
        i = i + 1;
    }
    r
}

} // verus!
