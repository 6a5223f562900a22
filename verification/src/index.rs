//! The in-memory index: the latest value set for each key.
//!
//! The index mirrors the on-disk log.  Its mathematical view is a map from
//! key bytes to value bytes; the entries are kept as a list with pairwise
//! distinct keys, in first-insertion order, so that writing the index out
//! again is deterministic.

use vstd::prelude::*;
use crate::record::MAX_RECORD_SIZE;

verus! {

/// Every pair fits in one frame under the record-size cap.
pub open spec fn bounded_pairs(ps: Seq<(Seq<u8>, Seq<u8>)>) -> bool {
    forall|i: int|
        0 <= i < ps.len() ==> 9 + (#[trigger] ps[i]).0.len() + ps[i].1.len() <= MAX_RECORD_SIZE
}

/// The map described by a list of key-value pairs, later pairs winning.
pub open spec fn map_of_pairs(ps: Seq<(Seq<u8>, Seq<u8>)>) -> Map<Seq<u8>, Seq<u8>>
    decreases ps.len(),
{
    if ps.len() == 0 {
        Map::empty()
    } else {
        map_of_pairs(ps.drop_last()).insert(ps.last().0, ps.last().1)
    }
}

/// Pairwise distinct keys.
pub open spec fn distinct_keys(ps: Seq<(Seq<u8>, Seq<u8>)>) -> bool {
    forall|i: int, j: int| 0 <= i < j < ps.len() ==> (#[trigger] ps[i]).0 != (#[trigger] ps[j]).0
}

/// A key is in the map of a pair list exactly when some pair carries it.
pub proof fn lemma_map_of_pairs_dom(ps: Seq<(Seq<u8>, Seq<u8>)>, k: Seq<u8>)
    ensures
        map_of_pairs(ps).dom().contains(k) <==> exists|i: int|
            0 <= i < ps.len() && (#[trigger] ps[i]).0 == k,
    decreases ps.len(),
{
    if ps.len() > 0 {
        lemma_map_of_pairs_dom(ps.drop_last(), k);
        if ps.last().0 == k {
            assert(ps[ps.len() - 1].0 == k);
        } else if map_of_pairs(ps).dom().contains(k) {
            let i = choose|i: int| 0 <= i < ps.drop_last().len() && (#[trigger] ps.drop_last()[
                i
            ]).0 == k;
            assert(ps[i].0 == k);
        } else {
            if exists|i: int| 0 <= i < ps.len() && (#[trigger] ps[i]).0 == k {
                let i = choose|i: int| 0 <= i < ps.len() && (#[trigger] ps[i]).0 == k;
                assert(ps.drop_last()[i].0 == k);
            }
        }
    }
}

/// With distinct keys, each pair is in the map.
pub proof fn lemma_map_of_pairs_index(ps: Seq<(Seq<u8>, Seq<u8>)>, i: int)
    requires
        distinct_keys(ps),
        0 <= i < ps.len(),
    ensures
        map_of_pairs(ps).contains_pair(ps[i].0, ps[i].1),
    decreases ps.len(),
{
    if i == ps.len() - 1 {
    } else {
        assert(distinct_keys(ps.drop_last())) by {
            assert(forall|x: int, y: int|
                0 <= x < y < ps.drop_last().len() ==> (#[trigger] ps.drop_last()[x]).0 != (
                #[trigger] ps.drop_last()[y]).0);
        }
        assert(ps.drop_last()[i] == ps[i]);
        lemma_map_of_pairs_index(ps.drop_last(), i);
        assert(ps[i].0 != ps.last().0);
    }
}

/// Updating the pair that carries a key updates the map at that key.
pub proof fn lemma_map_of_pairs_update(ps: Seq<(Seq<u8>, Seq<u8>)>, i: int, v: Seq<u8>)
    requires
        distinct_keys(ps),
        0 <= i < ps.len(),
    ensures
        map_of_pairs(ps.update(i, (ps[i].0, v))) == map_of_pairs(ps).insert(ps[i].0, v),
    decreases ps.len(),
{
    let k = ps[i].0;
    let qs = ps.update(i, (k, v));
    if i == ps.len() - 1 {
        assert(qs.drop_last() =~= ps.drop_last());
        assert(qs.last() == (k, v));
        assert(map_of_pairs(qs) =~= map_of_pairs(ps).insert(k, v));
    } else {
        assert(distinct_keys(ps.drop_last())) by {
            assert(forall|x: int, y: int|
                0 <= x < y < ps.drop_last().len() ==> (#[trigger] ps.drop_last()[x]).0 != (
                #[trigger] ps.drop_last()[y]).0);
        }
        assert(ps.drop_last()[i] == ps[i]);
        lemma_map_of_pairs_update(ps.drop_last(), i, v);
        assert(qs.drop_last() =~= ps.drop_last().update(i, (k, v)));
        assert(qs.last() == ps.last());
        assert(k != ps.last().0);
        assert(map_of_pairs(qs) =~= map_of_pairs(ps).insert(k, v));
    }
}

/// Removing the pair that carries a key removes the key from the map.
pub proof fn lemma_map_of_pairs_remove(ps: Seq<(Seq<u8>, Seq<u8>)>, i: int)
    requires
        distinct_keys(ps),
        0 <= i < ps.len(),
    ensures
        map_of_pairs(ps.remove(i)) == map_of_pairs(ps).remove(ps[i].0),
    decreases ps.len(),
{
    let k = ps[i].0;
    let qs = ps.remove(i);
    if i == ps.len() - 1 {
        assert(qs =~= ps.drop_last());
        lemma_map_of_pairs_dom(ps.drop_last(), k);
        assert(forall|j: int|
            0 <= j < ps.drop_last().len() ==> (#[trigger] ps.drop_last()[j]).0 != k);
        assert(!map_of_pairs(ps.drop_last()).dom().contains(k));
        assert(map_of_pairs(qs) =~= map_of_pairs(ps).remove(k));
    } else {
        assert(distinct_keys(ps.drop_last())) by {
            assert(forall|x: int, y: int|
                0 <= x < y < ps.drop_last().len() ==> (#[trigger] ps.drop_last()[x]).0 != (
                #[trigger] ps.drop_last()[y]).0);
        }
        assert(ps.drop_last()[i] == ps[i]);
        lemma_map_of_pairs_remove(ps.drop_last(), i);
        assert(qs.drop_last() =~= ps.drop_last().remove(i));
        assert(qs.last() == ps.last());
        assert(k != ps.last().0);
        assert(map_of_pairs(qs) =~= map_of_pairs(ps).remove(k));
    }
}

/// Appending a pair with a fresh key inserts it into the map.
pub proof fn lemma_map_of_pairs_push(ps: Seq<(Seq<u8>, Seq<u8>)>, k: Seq<u8>, v: Seq<u8>)
    ensures
        map_of_pairs(ps.push((k, v))) == map_of_pairs(ps).insert(k, v),
{
    let qs = ps.push((k, v));
    assert(qs.drop_last() =~= ps);
    assert(qs.last() == (k, v));
}

/// In-memory mapping of opaque key bytes to opaque value bytes.
pub struct Index {
    entries: Vec<(Vec<u8>, Vec<u8>)>,
}

impl View for Index {
    type V = Map<Seq<u8>, Seq<u8>>;

    closed spec fn view(&self) -> Map<Seq<u8>, Seq<u8>> {
        map_of_pairs(self.pairs())
    }
}

impl Index {
    /// The entries as a sequence of key-value pairs, oldest key first.
    pub closed spec fn pairs(self) -> Seq<(Seq<u8>, Seq<u8>)> {
        self.entries@.map_values(|p: (Vec<u8>, Vec<u8>)| (p.0@, p.1@))
    }

    /// No key appears twice.
    pub open spec fn wf(self) -> bool {
        distinct_keys(self.pairs())
    }

    /// The view is exactly the map of the entry list.
    pub proof fn lemma_view_is_pairs(self)
        ensures
            self@ == map_of_pairs(self.pairs()),
    {
    }

    /// An empty index.
    pub fn new() -> (r: Index)
        ensures
            r.wf(),
            r@ == Map::<Seq<u8>, Seq<u8>>::empty(),
            r.pairs() == Seq::<(Seq<u8>, Seq<u8>)>::empty(),
    {
        let r = Index { entries: Vec::new() };
        proof {
            assert(r.pairs() =~= Seq::<(Seq<u8>, Seq<u8>)>::empty());
        }
        r
    }

    /// How many keys are present.
    pub fn len(&self) -> (n: usize)
        ensures
            n == self.pairs().len(),
    {
        self.entries.len()
    }

    /// The entry at a position, key first.
    pub fn entry_at(&self, i: usize) -> (e: &(Vec<u8>, Vec<u8>))
        requires
            i < self.pairs().len(),
        ensures
            (e.0@, e.1@) == self.pairs()[i as int],
    {
        &self.entries[i]
    }

    /// Position of the entry carrying a key, if any.
    fn find(&self, key: &Vec<u8>) -> (r: Option<usize>)
        ensures
            match r {
                Some(i) => i < self.pairs().len() && self.pairs()[i as int].0 == key@,
                None => forall|j: int|
                    0 <= j < self.pairs().len() ==> (#[trigger] self.pairs()[j]).0 != key@,
            },
    {
        let mut i: usize = 0;
        while i < self.entries.len()
            invariant
                i <= self.entries@.len(),
                forall|j: int| 0 <= j < i ==> (#[trigger] self.pairs()[j]).0 != key@,
            decreases self.entries@.len() - i,
        {
            if self.entries[i].0 == *key {
                proof {
                    assert(self.pairs()[i as int].0 == key@);
                }
                return Some(i);
            }
            i = i + 1;
        }
        None
    }

    /// Look a key up; no disk is touched.
    pub fn get(&self, key: &Vec<u8>) -> (r: Option<&Vec<u8>>)
        requires
            self.wf(),
        ensures
            match r {
                Some(v) => self@.dom().contains(key@) && v@ == self@[key@],
                None => !self@.dom().contains(key@),
            },
    {
        proof {
            lemma_map_of_pairs_dom(self.pairs(), key@);
        }
        match self.find(key) {
            Some(i) => {
                proof {
                    lemma_map_of_pairs_index(self.pairs(), i as int);
                }
                Some(&self.entries[i].1)
            },
            None => None,
        }
    }

    /// Set a key to a value, overwriting any earlier value.
    pub fn insert(&mut self, key: Vec<u8>, value: Vec<u8>)
        requires
            old(self).wf(),
        ensures
            final(self).wf(),
            final(self)@ == old(self)@.insert(key@, value@),
            final(self).pairs().len() <= old(self).pairs().len() + 1,
            forall|j: int|
                0 <= j < final(self).pairs().len() ==> ((#[trigger] final(self).pairs()[j])
                    == old(self).pairs()[j] && old(self).pairs()[j].0 != key@
                    || final(self).pairs()[j] == (key@, value@)),
            bounded_pairs(old(self).pairs()) && 9 + key@.len() + value@.len() <= MAX_RECORD_SIZE
                ==> bounded_pairs(final(self).pairs()),
    {
        let ghost ps = self.pairs();
        match self.find(&key) {
            Some(i) => {
                proof {
                    lemma_map_of_pairs_update(ps, i as int, value@);
                }
                self.entries[i] = (key, value);
                proof {
                    assert(self.pairs() =~= ps.update(i as int, (ps[i as int].0, value@)));
                }
            },
            None => {
                proof {
                    lemma_map_of_pairs_push(ps, key@, value@);
                }
                let ghost kv = (key@, value@);
                self.entries.push((key, value));
                proof {
                    assert(self.pairs() =~= ps.push(kv));
                }
            },
        }
    }

    /// Remove a key, if present.
    pub fn remove(&mut self, key: &Vec<u8>)
        requires
            old(self).wf(),
        ensures
            final(self).wf(),
            final(self)@ == old(self)@.remove(key@),
            final(self).pairs().len() <= old(self).pairs().len(),
            forall|j: int|
                0 <= j < final(self).pairs().len() ==> exists|i: int|
                    0 <= i < old(self).pairs().len() && (#[trigger] final(self).pairs()[j]) == old(
                        self,
                    ).pairs()[i] && old(self).pairs()[i].0 != key@,
            bounded_pairs(old(self).pairs()) ==> bounded_pairs(final(self).pairs()),
    {
        let ghost ps = self.pairs();
        match self.find(key) {
            Some(i) => {
                proof {
                    lemma_map_of_pairs_remove(ps, i as int);
                }
                self.entries.remove(i);
                proof {
                    assert(self.pairs() =~= ps.remove(i as int));
                }
            },
            None => {
                proof {
                    lemma_map_of_pairs_dom(ps, key@);
                    assert(!self@.dom().contains(key@));
                    assert(self@ =~= self@.remove(key@));
                }
            },
        }
    }
}

} // verus!
