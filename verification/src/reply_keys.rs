//! The reply-key store.
//!
//! When a fresh message asks for reply capability, a single-use reply
//! identifier is minted and the symmetric key needed to decrypt the eventual
//! reply is stored under it. When the reply arrives, the key is read and
//! removed in one step — a reply identifier can never decrypt twice, which
//! also prevents double use of the reply path it belongs to. The store is
//! the only durable state of the engine: it encodes to bytes for the backing
//! file and decodes back exactly, so a restart cannot orphan in-flight
//! replies; bytes that are not the encoding of a store are refused, which a
//! loader must treat as fatal.

use vstd::prelude::*;

use vstd::arithmetic::div_mod::lemma_div_denominator;
use vstd::arithmetic::div_mod::lemma_div_pos_is_pos;
use vstd::arithmetic::div_mod::lemma_mod_breakdown;
use vstd::arithmetic::div_mod::lemma_small_mod;
use crate::keymap::KeyMap;
use crate::keymap::distinct_keys;

verus! {

/// Symmetric reply keys have this fixed size.
pub const REPLY_KEY_LEN: usize = 32;

/// One encoded record: the identifier word and the key bytes.
pub const RECORD_LEN: usize = 40;

pub open spec fn pow256(n: nat) -> int
    decreases n,
{
    if n == 0 {
        1
    } else {
        256 * pow256((n - 1) as nat)
    }
}

proof fn lemma_pow256_pos(n: nat)
    ensures
        pow256(n) >= 1,
    decreases n,
{
    if n > 0 {
        lemma_pow256_pos((n - 1) as nat);
    }
}

/// The little-endian bytes of one word.
pub open spec fn u64_le_bytes(v: u64) -> Seq<u8> {
    Seq::new(8, |i: int| (((v as int) / pow256(i as nat)) % 256) as u8)
}

/// The number a little-endian byte sequence denotes.
pub open spec fn le_value(s: Seq<u8>) -> int
    decreases s.len(),
{
    if s.len() == 0 {
        0
    } else {
        s.first() + 256 * le_value(s.drop_first())
    }
}

proof fn lemma_le_value_bound(s: Seq<u8>)
    ensures
        0 <= le_value(s) < pow256(s.len()),
    decreases s.len(),
{
    if s.len() == 0 {
    } else {
        lemma_le_value_bound(s.drop_first());
        lemma_pow256_pos((s.len() - 1) as nat);
    }
}

proof fn lemma_le_value_of_bytes(x: int, n: nat)
    requires
        x >= 0,
    ensures
        le_value(Seq::new(n, |i: int| ((x / pow256(i as nat)) % 256) as u8)) == x % pow256(n),
    decreases n,
{
    let s = Seq::new(n, |i: int| ((x / pow256(i as nat)) % 256) as u8);
    if n == 0 {
        assert(x % 1 == 0) by {
            lemma_small_mod(0, 1);
            vstd::arithmetic::div_mod::lemma_mod_multiples_basic(x, 1);
        }
    } else {
        let t = Seq::new((n - 1) as nat, |i: int| (((x / 256) / pow256(i as nat)) % 256) as u8);
        assert forall|i: int| 0 <= i < t.len() implies s.drop_first()[i] == t[i] by {
            assert(s.drop_first()[i] == s[i + 1]);
            lemma_pow256_pos(i as nat);
            lemma_div_denominator(x, 256, pow256(i as nat));
            assert((x / 256) / pow256(i as nat) == x / (256 * pow256(i as nat)));
            assert(256 * pow256(i as nat) == pow256((i + 1) as nat));
        }
        assert(s.drop_first() =~= t);
        lemma_div_pos_is_pos(x, 256);
        lemma_le_value_of_bytes(x / 256, (n - 1) as nat);
        lemma_pow256_pos((n - 1) as nat);
        lemma_mod_breakdown(x, 256, pow256((n - 1) as nat));
        assert(s.first() == (x % 256) as u8);
        assert(le_value(s) == x % 256 + 256 * ((x / 256) % pow256((n - 1) as nat)));
        assert(x % (256 * pow256((n - 1) as nat)) == 256 * ((x / 256) % pow256((n - 1) as nat)) + x % 256);
        assert(256 * pow256((n - 1) as nat) == pow256(n));
    }
}

proof fn lemma_pow256_8()
    ensures
        pow256(8) == 0x1_0000_0000_0000_0000,
{
    assert(pow256(0) == 1);
    assert(pow256(1) == 256);
    assert(pow256(2) == 0x1_0000);
    assert(pow256(3) == 0x100_0000);
    assert(pow256(4) == 0x1_0000_0000);
    assert(pow256(5) == 0x100_0000_0000);
    assert(pow256(6) == 0x1_0000_0000_0000);
    assert(pow256(7) == 0x100_0000_0000_0000);
    assert(pow256(8) == 0x1_0000_0000_0000_0000);
}

/// Reading back the little-endian bytes of a word yields the word.
pub proof fn lemma_u64_le_roundtrip(v: u64)
    ensures
        le_value(u64_le_bytes(v)) == v,
{
    lemma_le_value_of_bytes(v as int, 8);
    lemma_pow256_8();
    lemma_small_mod(v as nat, 0x1_0000_0000_0000_0000);
}

/// Appends the little-endian bytes of `v`.
fn push_u64_le(out: &mut Vec<u8>, v: u64)
    ensures
        final(out)@ == old(out)@ + u64_le_bytes(v),
{
    let ghost base = out@;
    let mut cur = v;
    let mut i: usize = 0;
    proof {
        assert(out@ =~= base + u64_le_bytes(v).subrange(0, 0));
    }
    while i < 8
        invariant
            i <= 8,
            cur as int == (v as int) / pow256(i as nat),
            out@ == base + u64_le_bytes(v).subrange(0, i as int),
        decreases 8 - i,
    {
        let b = (cur % 256) as u8;
        out.push(b);
        proof {
            assert(u64_le_bytes(v)[i as int] == b);
            assert(out@ =~= base + u64_le_bytes(v).subrange(0, i as int + 1));
            lemma_pow256_pos(i as nat);
            lemma_div_denominator(v as int, pow256(i as nat), 256);
            assert((v as int) / pow256(i as nat) / 256 == (v as int) / (pow256(i as nat) * 256));
            assert(pow256(i as nat) * 256 == pow256((i + 1) as nat));
        }
        cur = cur / 256;
        i = i + 1;
    }
    proof {
        assert(u64_le_bytes(v).subrange(0, 8) =~= u64_le_bytes(v));
    }
}

proof fn lemma_pow256_mono(a: nat, b: nat)
    requires
        a <= b,
    ensures
        pow256(a) <= pow256(b),
    decreases b,
{
    if a < b {
        lemma_pow256_mono(a, (b - 1) as nat);
        lemma_pow256_pos((b - 1) as nat);
    }
}

/// Reads the word whose little-endian bytes sit at `offset`.
fn read_u64_le(bytes: &Vec<u8>, offset: usize) -> (r: u64)
    requires
        offset + 8 <= bytes@.len(),
    ensures
        r as int == le_value(bytes@.subrange(offset as int, offset as int + 8)),
{
    let n = bytes.len();
    let mut r: u64 = 0;
    let mut i: usize = 8;
    proof {
        assert(bytes@.subrange(offset as int + 8, offset as int + 8).len() == 0);
    }
    while i > 0
        invariant
            i <= 8,
            offset + 8 <= n,
            n == bytes@.len(),
            r as int == le_value(bytes@.subrange(offset as int + i as int, offset as int + 8)),
            (r as int) < pow256((8 - i) as nat),
        decreases i,
    {
        i = i - 1;
        let b = bytes[offset + i];
        let ghost sub = bytes@.subrange(offset as int + i as int, offset as int + 8);
        proof {
            assert(sub.first() == bytes@[offset as int + i as int]);
            assert(sub.drop_first() =~= bytes@.subrange(offset as int + i as int + 1, offset as int + 8));
            lemma_pow256_mono((7 - i) as nat, 7);
            lemma_pow256_8();
            assert(pow256(7) * 256 == pow256(8));
            assert((r as int) * 256 + b < pow256((8 - i) as nat)) by {
                lemma_pow256_pos((7 - i) as nat);
            }
            assert((r as int) * 256 + b <= u64::MAX) by {
                lemma_pow256_mono((8 - i) as nat, 8);
            }
        }
        r = r * 256 + (b as u64);
    }
    r
}

/// The encoding of reply-key records: per record the identifier word, little
/// endian, then the key's bytes, a fixed-size key per record.
pub open spec fn spec_encode_records(s: Seq<(u64, Seq<u8>)>) -> Seq<u8>
    decreases s.len(),
{
    if s.len() == 0 {
        Seq::empty()
    } else {
        u64_le_bytes(s.first().0) + s.first().1 + spec_encode_records(s.drop_first())
    }
}

/// What decoding a byte string yields: the records in storage order, or
/// nothing if the bytes are not an encoding — truncated, of the wrong grain,
/// or repeating an identifier already seen (in `seen` or earlier in the
/// bytes).
pub open spec fn spec_decode_records(b: Seq<u8>, seen: Set<u64>) -> Option<Seq<(u64, Seq<u8>)>>
    decreases b.len(),
{
    if b.len() == 0 {
        Some(Seq::empty())
    } else if b.len() < RECORD_LEN {
        None
    } else {
        let id = le_value(b.subrange(0, 8)) as u64;
        let key = b.subrange(8, RECORD_LEN as int);
        if seen.contains(id) {
            None
        } else {
            match spec_decode_records(b.skip(RECORD_LEN as int), seen.insert(id)) {
                Some(rest) => Some(seq![(id, key)] + rest),
                None => None,
            }
        }
    }
}

/// Every record holds a key of the fixed size.
pub open spec fn records_wf(s: Seq<(u64, Seq<u8>)>) -> bool {
    forall|i: int| 0 <= i < s.len() ==> (#[trigger] s[i]).1.len() == REPLY_KEY_LEN
}

/// The identifiers of a record sequence.
pub open spec fn record_ids(s: Seq<(u64, Seq<u8>)>) -> Set<u64> {
    Set::new(|id: u64| exists|i: int| 0 <= i < s.len() && (#[trigger] s[i]).0 == id)
}

/// Law: decoding an encoded store recovers its records exactly — what is
/// persisted at shutdown is what a restart loads.
pub proof fn lemma_store_round_trip(s: Seq<(u64, Seq<u8>)>, seen: Set<u64>)
    requires
        records_wf(s),
        distinct_keys(s),
        forall|id: u64| seen.contains(id) ==> !record_ids(s).contains(id),
    ensures
        spec_decode_records(spec_encode_records(s), seen) == Some(s),
    decreases s.len(),
{
    let b = spec_encode_records(s);
    if s.len() == 0 {
        assert(b.len() == 0);
        assert(Some(Seq::<(u64, Seq<u8>)>::empty()) =~~= Some(s));
    } else {
        let first = s.first();
        let rest_enc = spec_encode_records(s.drop_first());
        assert(b == u64_le_bytes(first.0) + first.1 + rest_enc);
        assert(b.len() == RECORD_LEN + rest_enc.len());
        assert(b.subrange(0, 8) =~= u64_le_bytes(first.0));
        lemma_u64_le_roundtrip(first.0);
        let id = le_value(b.subrange(0, 8)) as u64;
        assert(id == first.0);
        assert(b.subrange(8, RECORD_LEN as int) =~= first.1);
        assert(b.skip(RECORD_LEN as int) =~= rest_enc);
        assert(!seen.contains(id)) by {
            assert(s[0].0 == id);
            assert(record_ids(s).contains(id));
        }
        assert(distinct_keys(s.drop_first())) by {
            assert forall|p: int, q: int|
                0 <= p < s.drop_first().len() && 0 <= q < s.drop_first().len() && p != q
                implies (#[trigger] s.drop_first()[p]).0 != (#[trigger] s.drop_first()[q]).0 by {
                assert(s.drop_first()[p] == s[p + 1] && s.drop_first()[q] == s[q + 1]);
            }
        }
        assert(records_wf(s.drop_first())) by {
            assert forall|i: int| 0 <= i < s.drop_first().len()
                implies (#[trigger] s.drop_first()[i]).1.len() == REPLY_KEY_LEN by {
                assert(s.drop_first()[i] == s[i + 1]);
            }
        }
        assert forall|id2: u64| seen.insert(id).contains(id2)
            implies !record_ids(s.drop_first()).contains(id2) by {
            if record_ids(s.drop_first()).contains(id2) {
                let i = choose|i: int|
                    0 <= i < s.drop_first().len() && (#[trigger] s.drop_first()[i]).0 == id2;
                assert(s[i + 1].0 == id2);
                assert(record_ids(s).contains(id2));
                if id2 == id {
                    assert(s[0].0 == s[i + 1].0 && 0 != i + 1);
                }
            }
        }
        lemma_store_round_trip(s.drop_first(), seen.insert(id));
        assert(seq![(id, b.subrange(8, RECORD_LEN as int))] + s.drop_first() =~= s);
    }
}

/// Why a byte string was refused as a store image.
#[derive(Debug)]
pub enum StoreDecodeError {
    /// The bytes are not whole records.
    Malformed,
    /// Two records claim the same reply identifier.
    DuplicateIdentifier,
}

/// The reply-key store: single-use symmetric keys under their reply
/// identifiers.
pub struct ReplyKeyStore {
    keys: KeyMap<Vec<u8>>,
}

impl View for ReplyKeyStore {
    type V = Map<u64, Vec<u8>>;

    closed spec fn view(&self) -> Map<u64, Vec<u8>> {
        self.keys@
    }
}

impl ReplyKeyStore {
    pub closed spec fn wf(&self) -> bool {
        &&& self.keys.wf()
        &&& forall|i: int| 0 <= i < self.keys.pairs_view().len()
            ==> (#[trigger] self.keys.pairs_view()[i]).1@.len() == REPLY_KEY_LEN
    }

    /// The stored records — identifier and key bytes — in storage order.
    pub closed spec fn records(&self) -> Seq<(u64, Seq<u8>)> {
        self.keys.pairs_view().map_values(|p: (u64, Vec<u8>)| (p.0, p.1@))
    }

    pub fn new() -> (r: Self)
        ensures
            r.wf(),
            r@ =~= Map::<u64, Vec<u8>>::empty(),
            r.records() =~= Seq::<(u64, Seq<u8>)>::empty(),
    {
        let keys = KeyMap::new();
        proof {
            keys.lemma_pairs_view();
        }
        ReplyKeyStore { keys }
    }

    /// Stores the key for a freshly minted reply identifier.
    pub fn insert_key(&mut self, reply_id: u64, key: Vec<u8>)
        requires
            old(self).wf(),
            !old(self)@.contains_key(reply_id),
            key@.len() == REPLY_KEY_LEN,
        ensures
            final(self).wf(),
            final(self)@ =~= old(self)@.insert(reply_id, key),
            final(self).records() == old(self).records().push((reply_id, key@)),
    {
        let ghost before = self.keys.pairs_view();
        self.keys.insert(reply_id, key);
        proof {
            assert(self.keys.pairs_view() == before.push((reply_id, key)));
            assert forall|i: int| 0 <= i < self.keys.pairs_view().len()
                implies (#[trigger] self.keys.pairs_view()[i]).1@.len() == REPLY_KEY_LEN by {
                if i < before.len() {
                    assert(self.keys.pairs_view()[i] == before[i]);
                }
            }
            assert(self.records() =~= before.map_values(|p: (u64, Vec<u8>)| (p.0, p.1@)).push(
                (reply_id, key@),
            ));
        }
    }

    /// Reads and removes the key under a reply identifier, in one step: the
    /// identifier is single-use, a second consumption finds nothing.
    pub fn consume_key(&mut self, reply_id: u64) -> (r: Option<Vec<u8>>)
        requires
            old(self).wf(),
        ensures
            final(self).wf(),
            final(self)@ =~= old(self)@.remove(reply_id),
            match r {
                Some(key) => old(self)@.contains_key(reply_id) && key == old(self)@[reply_id],
                None => !old(self)@.contains_key(reply_id),
            },
    {
        let ghost before = self.keys.pairs_view();
        let r = self.keys.remove(reply_id);
        proof {
            let after = self.keys.pairs_view();
            if r is Some {
                let cut = choose|cut: int|
                    0 <= cut < before.len() && #[trigger] before[cut] == (reply_id, r->Some_0)
                        && after == before.subrange(0, cut)
                            + before.subrange(cut + 1, before.len() as int);
                assert forall|i: int| 0 <= i < after.len()
                    implies (#[trigger] after[i]).1@.len() == REPLY_KEY_LEN by {
                    if i < cut {
                        assert(after[i] == before[i]);
                    } else {
                        assert(after[i] == before[i + 1]);
                    }
                }
            }
        }
        r
    }

    pub fn holds_key(&self, reply_id: u64) -> (r: bool)
        requires
            self.wf(),
        ensures
            r == self@.contains_key(reply_id),
    {
        self.keys.contains(reply_id)
    }

    pub fn len(&self) -> (r: usize)
        requires
            self.wf(),
        ensures
            r == self.records().len(),
    {
        proof {
            self.keys.lemma_pairs_view();
        }
        self.keys.len()
    }

    /// Encodes the store for its backing file.
    pub fn encode(&self) -> (r: Vec<u8>)
        requires
            self.wf(),
        ensures
            r@ == spec_encode_records(self.records()),
    {
        let mut out: Vec<u8> = Vec::new();
        let n = self.keys.len();
        proof {
            self.keys.lemma_pairs_view();
        }
        let mut i: usize = 0;
        proof {
            assert(out@ =~= spec_encode_records(self.records().subrange(0, 0)));
        }
        while i < n
            invariant
                self.wf(),
                i <= n,
                n == self.keys.spec_len(),
                out@ == spec_encode_records(self.records().subrange(0, i as int)),
            decreases n - i,
        {
            proof {
                self.keys.lemma_pairs_view();
            }
            let pair = self.keys.pair_at(i);
            let id = pair.0;
            push_u64_le(&mut out, id);
            let key = &pair.1;
            let mut j: usize = 0;
            let m = key.len();
            let ghost mid = out@;
            while j < m
                invariant
                    j <= m,
                    m == key@.len(),
                    out@ == mid + key@.subrange(0, j as int),
                decreases m - j,
            {
                let b = key[j];
                out.push(b);
                proof {
                    assert(out@ =~= mid + key@.subrange(0, j as int + 1));
                }
                j = j + 1;
            }
            proof {
                assert(key@.subrange(0, m as int) =~= key@);
                lemma_encode_records_snoc(self.records(), i as int);
            }
            i = i + 1;
        }
        proof {
            assert(self.records().subrange(0, n as int) =~= self.records());
        }
        out
    }

    /// Decodes a backing-file image. Succeeds exactly on byte strings made
    /// of whole records with pairwise distinct identifiers — on everything a
    /// store encodes to, in particular — and yields the records as encoded.
    pub fn decode(bytes: &Vec<u8>) -> (r: Result<ReplyKeyStore, StoreDecodeError>)
        ensures
            match r {
                Ok(store) => {
                    &&& store.wf()
                    &&& spec_decode_records(bytes@, Set::empty()) == Some(store.records())
                },
                Err(_) => spec_decode_records(bytes@, Set::empty()) is None,
            },
    {
        let mut store = ReplyKeyStore::new();
        let mut offset: usize = 0;
        let n = bytes.len();
        proof {
            assert(bytes@.skip(0) =~= bytes@);
            store.keys.lemma_pairs_view();
            assert(store.records() =~= Seq::<(u64, Seq<u8>)>::empty());
            assert(record_ids(store.records()) =~= Set::<u64>::empty());
            match spec_decode_records(bytes@, Set::empty()) {
                Some(tail) => {
                    assert(store.records() + tail =~= tail);
                },
                None => {},
            }
            assert(spec_decode_records(bytes@, Set::empty())
                == spec_decode_join(store.records(), bytes@.skip(0), record_ids(store.records())));
        }
        while offset < n
            invariant
                store.wf(),
                offset <= n,
                n == bytes@.len(),
                offset % RECORD_LEN == 0,
                distinct_keys(store.records()),
                store@.dom() =~= record_ids(store.records()),
                spec_decode_records(bytes@, Set::empty()) == spec_decode_join(
                    store.records(),
                    bytes@.skip(offset as int),
                    record_ids(store.records()),
                ),
            decreases n - offset,
        {
            let ghost rem = bytes@.skip(offset as int);
            if n - offset < RECORD_LEN {
                proof {
                    assert(rem.len() == n - offset);
                    assert(spec_decode_records(rem, record_ids(store.records())) is None);
                }
                return Err(StoreDecodeError::Malformed);
            }
            let id = read_u64_le(bytes, offset);
            proof {
                assert(rem.subrange(0, 8) =~= bytes@.subrange(offset as int, offset as int + 8));
                lemma_le_value_bound(rem.subrange(0, 8));
                lemma_pow256_8();
                assert(le_value(rem.subrange(0, 8)) as u64 == id);
            }
            if store.holds_key(id) {
                proof {
                    assert(record_ids(store.records()).contains(id));
                    assert(spec_decode_records(rem, record_ids(store.records())) is None);
                }
                return Err(StoreDecodeError::DuplicateIdentifier);
            }
            let mut key: Vec<u8> = Vec::new();
            let mut j: usize = 0;
            while j < REPLY_KEY_LEN
                invariant
                    j <= REPLY_KEY_LEN,
                    offset + RECORD_LEN <= n,
                    n == bytes@.len(),
                    key@ == bytes@.subrange(offset as int + 8, offset as int + 8 + j as int),
                decreases REPLY_KEY_LEN - j,
            {
                let b = bytes[offset + 8 + j];
                key.push(b);
                proof {
                    assert(key@ =~= bytes@.subrange(offset as int + 8, offset as int + 8 + j as int + 1));
                }
                j = j + 1;
            }
            proof {
                assert(key@ =~= rem.subrange(8, RECORD_LEN as int));
            }
            let ghost records_before = store.records();
            store.insert_key(id, key);
            offset = offset + RECORD_LEN;
            proof {
                assert(store.records() =~= records_before.push((id, key@)));
                lemma_record_ids_push(records_before, id, key@);
                assert(distinct_keys(store.records())) by {
                    let after = store.records();
                    assert forall|p: int, q: int|
                        0 <= p < after.len() && 0 <= q < after.len() && p != q
                        implies (#[trigger] after[p]).0 != (#[trigger] after[q]).0 by {
                        if p < records_before.len() && q < records_before.len() {
                            assert(after[p] == records_before[p] && after[q] == records_before[q]);
                        } else if p == records_before.len() {
                            assert(after[q] == records_before[q]);
                            assert(record_ids(records_before).contains(after[q].0)
                                || after[q].0 != id) by {
                                assert(record_ids(records_before).contains(records_before[q].0));
                            }
                        } else {
                            assert(after[p] == records_before[p]);
                            assert(record_ids(records_before).contains(records_before[p].0));
                        }
                    }
                }
                assert(bytes@.skip(offset as int) =~= rem.skip(RECORD_LEN as int));
                lemma_decode_join_step(records_before, rem, id, key@);
            }
        }
        proof {
            let rem = bytes@.skip(offset as int);
            assert(rem.len() == 0);
            assert(spec_decode_records(rem, record_ids(store.records()))
                == Some(Seq::<(u64, Seq<u8>)>::empty()));
            assert(store.records() + Seq::<(u64, Seq<u8>)>::empty() =~= store.records());
        }
        Ok(store)
    }
}

/// Joining already decoded records with what the remaining bytes decode to.
spec fn spec_decode_join(done: Seq<(u64, Seq<u8>)>, rest: Seq<u8>, seen: Set<u64>) -> Option<
    Seq<(u64, Seq<u8>)>,
> {
    match spec_decode_records(rest, seen) {
        Some(tail) => Some(done + tail),
        None => None,
    }
}

proof fn lemma_record_ids_push(s: Seq<(u64, Seq<u8>)>, id: u64, key: Seq<u8>)
    ensures
        record_ids(s.push((id, key))) =~= record_ids(s).insert(id),
{
    let t = s.push((id, key));
    assert forall|x: u64| record_ids(t).contains(x) implies record_ids(s).insert(id).contains(x) by {
        let i = choose|i: int| 0 <= i < t.len() && (#[trigger] t[i]).0 == x;
        if i < s.len() {
            assert(s[i].0 == x);
            assert(record_ids(s).contains(x));
        }
    }
    assert forall|x: u64| record_ids(s).insert(id).contains(x) implies record_ids(t).contains(x) by {
        if x == id {
            assert(t[s.len() as int].0 == x);
        } else {
            let i = choose|i: int| 0 <= i < s.len() && (#[trigger] s[i]).0 == x;
            assert(t[i].0 == x);
        }
    }
}

proof fn lemma_decode_join_step(done: Seq<(u64, Seq<u8>)>, rem: Seq<u8>, id: u64, key: Seq<u8>)
    requires
        rem.len() >= RECORD_LEN,
        le_value(rem.subrange(0, 8)) == id,
        key == rem.subrange(8, RECORD_LEN as int),
        !record_ids(done).contains(id),
    ensures
        spec_decode_join(done, rem, record_ids(done)) == spec_decode_join(
            done.push((id, key)),
            rem.skip(RECORD_LEN as int),
            record_ids(done).insert(id),
        ),
{
    lemma_le_value_bound(rem.subrange(0, 8));
    lemma_pow256_8();
    assert(le_value(rem.subrange(0, 8)) as u64 == id);
    match spec_decode_records(rem.skip(RECORD_LEN as int), record_ids(done).insert(id)) {
        Some(tail) => {
            assert(spec_decode_records(rem, record_ids(done)) == Some(seq![(id, key)] + tail));
            assert(done + (seq![(id, key)] + tail) =~= done.push((id, key)) + tail);
        },
        None => {
            assert(spec_decode_records(rem, record_ids(done)) is None);
        },
    }
}

proof fn lemma_encode_records_snoc(s: Seq<(u64, Seq<u8>)>, i: int)
    requires
        0 <= i < s.len(),
    ensures
        spec_encode_records(s.subrange(0, i + 1)) == spec_encode_records(s.subrange(0, i))
            + u64_le_bytes(s[i].0) + s[i].1,
    decreases i,
{
    let a = s.subrange(0, i + 1);
    let b = s.subrange(0, i);
    if i == 0 {
        assert(a.len() == 1);
        assert(a.first() == s[0]);
        assert(a.drop_first() =~= Seq::<(u64, Seq<u8>)>::empty());
        assert(spec_encode_records(a.drop_first()) =~= Seq::<u8>::empty());
        assert(b.len() == 0);
        assert(spec_encode_records(b) =~= Seq::<u8>::empty());
        assert(spec_encode_records(a)
            =~= Seq::<u8>::empty() + u64_le_bytes(s[0].0) + s[0].1);
    } else {
        lemma_encode_records_snoc(s.drop_first(), i - 1);
        assert(a.first() == s[0] && b.first() == s[0]);
        assert(a.drop_first() =~= s.drop_first().subrange(0, i));
        assert(b.drop_first() =~= s.drop_first().subrange(0, i - 1));
        assert(s.drop_first()[i - 1] == s[i]);
        assert(spec_encode_records(a)
            == u64_le_bytes(s[0].0) + s[0].1 + spec_encode_records(s.drop_first().subrange(0, i)));
        assert(spec_encode_records(b)
            == u64_le_bytes(s[0].0) + s[0].1 + spec_encode_records(s.drop_first().subrange(0, i - 1)));
        assert(spec_encode_records(a) =~= spec_encode_records(b) + u64_le_bytes(s[i].0) + s[i].1);
    }
}

/// Law: a reply identifier is single-use — once its key is consumed, nothing
/// is stored under it, so a second arrival of the same identifier decrypts
/// nothing.
pub proof fn lemma_reply_key_single_use(m: Map<u64, Vec<u8>>, reply_id: u64)
    ensures
        !m.remove(reply_id).contains_key(reply_id),
{
}

} // verus!
