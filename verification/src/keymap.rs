//! An association table keyed by `u64` identifiers.
//!
//! The pending-acknowledgement table, the reassembly buffer and the reply-key
//! store all need the same thing: a small mutable mapping from an integer
//! identifier to a record, with exact contracts phrased over a mathematical
//! `Map`. `KeyMap` keeps its pairs in a vector with pairwise-distinct keys
//! and exposes its contents through the view `Map<u64, V>`.

use vstd::prelude::*;

verus! {

/// The mathematical contents of a sequence of key/value pairs, later pairs
/// taking precedence (irrelevant here, since keys are kept distinct).
pub open spec fn pairs_to_map<V>(s: Seq<(u64, V)>) -> Map<u64, V>
    decreases s.len(),
{
    if s.len() == 0 {
        Map::empty()
    } else {
        pairs_to_map(s.drop_last()).insert(s.last().0, s.last().1)
    }
}

/// Whether the keys of a pair sequence are pairwise distinct.
pub open spec fn distinct_keys<V>(s: Seq<(u64, V)>) -> bool {
    forall|i: int, j: int|
        0 <= i < s.len() && 0 <= j < s.len() && i != j ==> (#[trigger] s[i]).0 != (#[trigger] s[j]).0
}

proof fn lemma_pairs_to_map_contains<V>(s: Seq<(u64, V)>, k: u64)
    ensures
        pairs_to_map(s).contains_key(k) <==> exists|i: int| 0 <= i < s.len() && (#[trigger] s[i]).0 == k,
    decreases s.len(),
{
    if s.len() > 0 {
        lemma_pairs_to_map_contains(s.drop_last(), k);
        if s.last().0 == k {
            assert((#[trigger] s[s.len() - 1]).0 == k);
        } else if pairs_to_map(s).contains_key(k) {
            let i = choose|i: int| 0 <= i < s.drop_last().len() && (#[trigger] s.drop_last()[i]).0 == k;
            assert((#[trigger] s[i]).0 == k);
        } else {
            assert forall|i: int| 0 <= i < s.len() && (#[trigger] s[i]).0 == k implies false by {
                if i < s.len() - 1 {
                    assert((#[trigger] s.drop_last()[i]).0 == k);
                }
            }
        }
    }
}

proof fn lemma_pairs_to_map_get<V>(s: Seq<(u64, V)>, i: int)
    requires
        distinct_keys(s),
        0 <= i < s.len(),
    ensures
        pairs_to_map(s).contains_key(s[i].0),
        pairs_to_map(s)[s[i].0] == s[i].1,
    decreases s.len(),
{
    if i < s.len() - 1 {
        assert(s.drop_last()[i] == s[i]);
        lemma_pairs_to_map_get(s.drop_last(), i);
        assert(s[s.len() - 1].0 != s[i].0);
    }
}

proof fn lemma_pairs_to_map_absent<V>(s: Seq<(u64, V)>, k: u64)
    requires
        forall|i: int| 0 <= i < s.len() ==> (#[trigger] s[i]).0 != k,
    ensures
        !pairs_to_map(s).contains_key(k),
{
    lemma_pairs_to_map_contains(s, k);
}

proof fn lemma_pairs_to_map_remove_at<V>(s: Seq<(u64, V)>, i: int)
    requires
        distinct_keys(s),
        0 <= i < s.len(),
    ensures
        pairs_to_map(s.subrange(0, i) + s.subrange(i + 1, s.len() as int))
            =~= pairs_to_map(s).remove(s[i].0),
    decreases s.len(),
{
    let k = s[i].0;
    let rest = s.subrange(0, i) + s.subrange(i + 1, s.len() as int);
    if i == s.len() - 1 {
        assert(rest =~= s.drop_last());
        lemma_pairs_to_map_absent(s.drop_last(), k);
        assert(pairs_to_map(s.drop_last()).remove(k) =~= pairs_to_map(s.drop_last()));
    } else {
        let shorter = s.drop_last();
        assert(distinct_keys(shorter)) by {
            assert forall|p: int, q: int|
                0 <= p < shorter.len() && 0 <= q < shorter.len() && p != q
                implies (#[trigger] shorter[p]).0 != (#[trigger] shorter[q]).0 by {
                assert(shorter[p] == s[p] && shorter[q] == s[q]);
            }
        }
        lemma_pairs_to_map_remove_at(shorter, i);
        let shorter_rest = shorter.subrange(0, i) + shorter.subrange(i + 1, shorter.len() as int);
        assert(rest.drop_last() =~= shorter_rest);
        assert(rest.last() == s.last());
        assert(pairs_to_map(rest) == pairs_to_map(shorter_rest).insert(s.last().0, s.last().1));
        assert(s.last().0 != k);
        assert(pairs_to_map(shorter).remove(k).insert(s.last().0, s.last().1)
            =~= pairs_to_map(s).remove(k));
    }
}

/// A mapping from `u64` identifiers to records, with pairwise-distinct keys.
pub struct KeyMap<V> {
    pairs: Vec<(u64, V)>,
}

impl<V> View for KeyMap<V> {
    type V = Map<u64, V>;

    closed spec fn view(&self) -> Map<u64, V> {
        pairs_to_map(self.pairs@)
    }
}

impl<V> KeyMap<V> {
    /// The structural invariant: no key occurs twice.
    pub closed spec fn wf(&self) -> bool {
        distinct_keys(self.pairs@)
    }

    /// The number of stored pairs; the view's domain has exactly this size.
    pub closed spec fn spec_len(&self) -> nat {
        self.pairs@.len()
    }

    pub fn new() -> (r: Self)
        ensures
            r.wf(),
            r@ =~= Map::<u64, V>::empty(),
            r.spec_len() == 0,
    {
        KeyMap { pairs: Vec::new() }
    }

    /// Index of the pair holding `key`, if any.
    fn position(&self, key: u64) -> (r: Option<usize>)
        requires
            self.wf(),
        ensures
            match r {
                Some(i) => i < self.pairs@.len() && self.pairs@[i as int].0 == key
                    && self@.contains_key(key) && self@[key] == self.pairs@[i as int].1,
                None => !self@.contains_key(key),
            },
    {
        let mut i: usize = 0;
        while i < self.pairs.len()
            invariant
                i <= self.pairs@.len(),
                self.wf(),
                forall|j: int| 0 <= j < i ==> (#[trigger] self.pairs@[j]).0 != key,
            decreases self.pairs@.len() - i,
        {
            if self.pairs[i].0 == key {
                proof {
                    lemma_pairs_to_map_get(self.pairs@, i as int);
                }
                return Some(i);
            }
            i = i + 1;
        }
        proof {
            lemma_pairs_to_map_absent(self.pairs@, key);
        }
        None
    }

    pub fn contains(&self, key: u64) -> (r: bool)
        requires
            self.wf(),
        ensures
            r == self@.contains_key(key),
    {
        self.position(key).is_some()
    }

    /// A shared borrow of the record under `key`.
    pub fn get(&self, key: u64) -> (r: Option<&V>)
        requires
            self.wf(),
        ensures
            match r {
                Some(v) => self@.contains_key(key) && *v == self@[key],
                None => !self@.contains_key(key),
            },
    {
        match self.position(key) {
            Some(i) => Some(&self.pairs[i].1),
            None => None,
        }
    }

    /// Inserts a record under a key not yet present.
    pub fn insert(&mut self, key: u64, value: V)
        requires
            old(self).wf(),
            !old(self)@.contains_key(key),
        ensures
            final(self).wf(),
            final(self)@ =~= old(self)@.insert(key, value),
            final(self).spec_len() == old(self).spec_len() + 1,
            final(self).pairs_view() == old(self).pairs_view().push((key, value)),
    {
        let ghost before = self.pairs@;
        proof {
            lemma_pairs_to_map_contains(before, key);
        }
        self.pairs.push((key, value));
        proof {
            assert(self.pairs@.drop_last() =~= before);
            assert forall|p: int, q: int|
                0 <= p < self.pairs@.len() && 0 <= q < self.pairs@.len() && p != q
                implies (#[trigger] self.pairs@[p]).0 != (#[trigger] self.pairs@[q]).0 by {
                if p < before.len() && q < before.len() {
                    assert(self.pairs@[p] == before[p] && self.pairs@[q] == before[q]);
                } else if p == before.len() {
                    assert(self.pairs@[q] == before[q]);
                } else {
                    assert(self.pairs@[p] == before[p]);
                }
            }
        }
    }

    /// Removes and returns the record under `key`, if any.
    pub fn remove(&mut self, key: u64) -> (r: Option<V>)
        requires
            old(self).wf(),
        ensures
            final(self).wf(),
            final(self)@ =~= old(self)@.remove(key),
            match r {
                Some(v) => old(self)@.contains_key(key) && v == old(self)@[key]
                    && final(self).spec_len() == old(self).spec_len() - 1
                    && exists|i: int|
                        0 <= i < old(self).pairs_view().len()
                            && #[trigger] old(self).pairs_view()[i] == (key, v)
                            && final(self).pairs_view() == old(self).pairs_view().subrange(0, i)
                                + old(self).pairs_view().subrange(
                                i + 1,
                                old(self).pairs_view().len() as int,
                            ),
                None => !old(self)@.contains_key(key)
                    && final(self).spec_len() == old(self).spec_len()
                    && final(self).pairs_view() == old(self).pairs_view(),
            },
    {
        let ghost before = self.pairs@;
        match self.position(key) {
            Some(i) => {
                let pair = self.pairs.remove(i);
                proof {
                    assert(before[i as int] == (key, pair.1));
                    lemma_pairs_to_map_remove_at(before, i as int);
                    assert(self.pairs@ =~= before.subrange(0, i as int)
                        + before.subrange(i as int + 1, before.len() as int));
                    assert(old(self).pairs_view() == before);
                    assert((#[trigger] old(self).pairs_view()[i as int]) == (key, pair.1));
                    assert(self.pairs_view() == old(self).pairs_view().subrange(0, i as int)
                        + old(self).pairs_view().subrange(
                        i as int + 1,
                        old(self).pairs_view().len() as int,
                    ));
                    assert forall|p: int, q: int|
                        0 <= p < self.pairs@.len() && 0 <= q < self.pairs@.len() && p != q
                        implies (#[trigger] self.pairs@[p]).0 != (#[trigger] self.pairs@[q]).0 by {}
                }
                Some(pair.1)
            },
            None => {
                proof {
                    assert(self@ =~= self@.remove(key));
                }
                None
            },
        }
    }

    /// The stored keys, in storage order and without repetition.
    pub fn keys(&self) -> (r: Vec<u64>)
        requires
            self.wf(),
        ensures
            r@.len() == self.spec_len(),
            forall|i: int| 0 <= i < r@.len() ==> self@.contains_key(#[trigger] r@[i]),
            forall|k: u64| self@.contains_key(k) ==> exists|i: int| 0 <= i < r@.len() && r@[i] == k,
            forall|i: int, j: int| 0 <= i < r@.len() && 0 <= j < r@.len() && i != j
                ==> #[trigger] r@[i] != #[trigger] r@[j],
    {
        let mut out: Vec<u64> = Vec::new();
        let mut i: usize = 0;
        while i < self.pairs.len()
            invariant
                i <= self.pairs@.len(),
                self.wf(),
                out@.len() == i,
                forall|j: int| 0 <= j < i ==> out@[j] == (#[trigger] self.pairs@[j]).0,
            decreases self.pairs@.len() - i,
        {
            out.push(self.pairs[i].0);
            i = i + 1;
        }
        proof {
            assert forall|j: int| 0 <= j < out@.len() implies self@.contains_key(#[trigger] out@[j]) by {
                lemma_pairs_to_map_get(self.pairs@, j);
            }
            assert forall|k: u64| self@.contains_key(k)
                implies exists|i2: int| 0 <= i2 < out@.len() && out@[i2] == k by {
                lemma_pairs_to_map_contains(self.pairs@, k);
                let i2 = choose|i2: int| 0 <= i2 < self.pairs@.len() && (#[trigger] self.pairs@[i2]).0 == k;
                assert(out@[i2] == k);
            }
            assert forall|p: int, q: int|
                0 <= p < out@.len() && 0 <= q < out@.len() && p != q
                implies #[trigger] out@[p] != #[trigger] out@[q] by {
                assert(out@[p] == (#[trigger] self.pairs@[p]).0);
                assert(out@[q] == (#[trigger] self.pairs@[q]).0);
            }
        }
        out
    }

    /// The stored pairs, in storage order.
    pub closed spec fn pairs_view(&self) -> Seq<(u64, V)> {
        self.pairs@
    }

    /// How the abstractions fit together: the view is the contents of the
    /// stored pairs, and well-formedness is their key distinctness.
    pub proof fn lemma_pairs_view(&self)
        ensures
            self@ == pairs_to_map(self.pairs_view()),
            self.wf() <==> distinct_keys(self.pairs_view()),
            self.spec_len() == self.pairs_view().len(),
    {
    }

    /// The `i`-th stored pair.
    pub fn pair_at(&self, i: usize) -> (r: &(u64, V))
        requires
            i < self.spec_len(),
        ensures
            *r == self.pairs_view()[i as int],
    {
        &self.pairs[i]
    }

    pub fn len(&self) -> (r: usize)
        ensures
            r == self.spec_len(),
    {
        self.pairs.len()
    }
}

} // verus!
