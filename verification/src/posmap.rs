//! A small verified map keyed by grid coordinates, backed by a vector of
//! entries with pairwise-distinct keys. It stands in for the hash maps the
//! tile grid, the spawn list and the pathfinder bookkeeping need.

use vstd::prelude::*;

use crate::vectors::Vector2Int;

verus! {

/// The map denoted by an entry sequence: later entries win.
pub open spec fn assoc_map<V>(s: Seq<(Vector2Int, V)>) -> Map<Vector2Int, V>
    decreases s.len(),
{
    if s.len() == 0 {
        Map::empty()
    } else {
        assoc_map(s.drop_last()).insert(s.last().0, s.last().1)
    }
}

/// No key occurs twice.
pub open spec fn distinct_keys<V>(s: Seq<(Vector2Int, V)>) -> bool {
    forall|i: int, j: int| 0 <= i < j < s.len() ==> s[i].0 != s[j].0
}

pub proof fn lemma_assoc_map_contains<V>(s: Seq<(Vector2Int, V)>, k: Vector2Int)
    ensures
        assoc_map(s).contains_key(k) <==> (exists|i: int| 0 <= i < s.len() && s[i].0 == k),
    decreases s.len(),
{
    if s.len() > 0 {
        lemma_assoc_map_contains(s.drop_last(), k);
        if s.last().0 == k {
            assert(s[s.len() - 1].0 == k);
        } else {
            if exists|i: int| 0 <= i < s.len() && s[i].0 == k {
                let i = choose|i: int| 0 <= i < s.len() && s[i].0 == k;
                assert(s.drop_last()[i] == s[i]);
            }
        }
    }
}

pub proof fn lemma_assoc_map_get<V>(s: Seq<(Vector2Int, V)>, k: Vector2Int, i: int)
    requires
        distinct_keys(s),
        0 <= i < s.len(),
        s[i].0 == k,
    ensures
        assoc_map(s).contains_key(k),
        assoc_map(s)[k] == s[i].1,
    decreases s.len(),
{
    if i == s.len() - 1 {
    } else {
        assert(s.drop_last()[i] == s[i]);
        lemma_assoc_map_get(s.drop_last(), k, i);
        assert(s.last().0 != k);
    }
}

pub proof fn lemma_assoc_map_push<V>(s: Seq<(Vector2Int, V)>, k: Vector2Int, v: V)
    ensures
        assoc_map(s.push((k, v))) == assoc_map(s).insert(k, v),
{
    assert(s.push((k, v)).drop_last() =~= s);
}

proof fn lemma_assoc_map_update<V>(s: Seq<(Vector2Int, V)>, i: int, k: Vector2Int, v: V)
    requires
        distinct_keys(s),
        0 <= i < s.len(),
        s[i].0 == k,
    ensures
        assoc_map(s.update(i, (k, v))) =~= assoc_map(s).insert(k, v),
    decreases s.len(),
{
    let t = s.update(i, (k, v));
    if i == s.len() - 1 {
        assert(t.drop_last() =~= s.drop_last());
        assert(t.last() == (k, v));
        assert(assoc_map(t) =~= assoc_map(s).insert(k, v));
    } else {
        assert(t.drop_last() =~= s.drop_last().update(i, (k, v)));
        assert(s.drop_last()[i] == s[i]);
        lemma_assoc_map_update(s.drop_last(), i, k, v);
        assert(s.last().0 != k);
        assert(t.last() == s.last());
        assert(assoc_map(t) =~= assoc_map(s).insert(k, v));
    }
}

/// A coordinate-keyed map with a `Map` view.
pub struct PosMap<V> {
    entries: Vec<(Vector2Int, V)>,
}

impl<V> PosMap<V> {
    /// The underlying entry sequence, for iteration by index.
    pub closed spec fn entries_seq(&self) -> Seq<(Vector2Int, V)> {
        self.entries@
    }

    pub closed spec fn view(&self) -> Map<Vector2Int, V> {
        assoc_map(self.entries@)
    }

    /// Well-formed: keys are pairwise distinct.
    pub closed spec fn wf(&self) -> bool {
        distinct_keys(self.entries@)
    }

    /// Each entry's key/value pair agrees with the map view.
    pub proof fn lemma_entries_in_view(&self, i: int)
        requires
            self.wf(),
            0 <= i < self.entries_seq().len(),
        ensures
            self@.contains_key(self.entries_seq()[i].0),
            self@[self.entries_seq()[i].0] == self.entries_seq()[i].1,
    {
        lemma_assoc_map_get(self.entries@, self.entries@[i].0, i);
    }

    /// Every key of the view stands in the entry sequence.
    pub proof fn lemma_view_in_entries(&self, k: Vector2Int)
        requires
            self@.contains_key(k),
        ensures
            exists|i: int| 0 <= i < self.entries_seq().len() && self.entries_seq()[i].0 == k,
    {
        lemma_assoc_map_contains(self.entries@, k);
        let i = choose|i: int| 0 <= i < self.entries@.len() && self.entries@[i].0 == k;
        assert(0 <= i < self.entries_seq().len() && self.entries_seq()[i].0 == k);
    }

    pub fn new() -> (r: PosMap<V>)
        ensures
            r@ =~= Map::<Vector2Int, V>::empty(),
            r.wf(),
            r.entries_seq() =~= Seq::<(Vector2Int, V)>::empty(),
    {
        PosMap { entries: Vec::new() }
    }

    pub fn entry_count(&self) -> (n: usize)
        ensures
            n == self.entries_seq().len(),
    {
        self.entries.len()
    }

    pub fn key_at(&self, i: usize) -> (k: Vector2Int)
        requires
            i < self.entries_seq().len(),
        ensures
            k == self.entries_seq()[i as int].0,
    {
        self.entries[i].0
    }

    pub fn val_at(&self, i: usize) -> (v: &V)
        requires
            i < self.entries_seq().len(),
        ensures
            *v == self.entries_seq()[i as int].1,
    {
        &self.entries[i].1
    }

    pub fn get(&self, k: Vector2Int) -> (r: Option<&V>)
        requires
            self.wf(),
        ensures
            match r {
                Some(v) => self@.contains_key(k) && *v == self@[k],
                None => !self@.contains_key(k),
            },
    {
        let n = self.entries.len();
        let mut i: usize = 0;
        while i < n
            invariant
                n == self.entries@.len(),
                i <= n,
                self.wf(),
                forall|j: int| 0 <= j < i ==> self.entries@[j].0 != k,
            decreases n - i,
        {
            if self.entries[i].0 == k {
                proof {
                    lemma_assoc_map_get(self.entries@, k, i as int);
                }
                return Some(&self.entries[i].1);
            }
            i += 1;
        }
        proof {
            lemma_assoc_map_contains(self.entries@, k);
        }
        None
    }

    pub fn contains_key(&self, k: Vector2Int) -> (r: bool)
        requires
            self.wf(),
        ensures
            r == self@.contains_key(k),
    {
        self.get(k).is_some()
    }

    pub fn insert(&mut self, k: Vector2Int, v: V)
        requires
            old(self).wf(),
        ensures
            final(self).wf(),
            final(self)@ =~= old(self)@.insert(k, v),
    {
        let n = self.entries.len();
        let mut i: usize = 0;
        while i < n
            invariant
                n == self.entries@.len(),
                i <= n,
                self.wf(),
                self.entries@ == old(self).entries@,
                forall|j: int| 0 <= j < i ==> self.entries@[j].0 != k,
            decreases n - i,
        {
            if self.entries[i].0 == k {
                self.entries.set(i, (k, v));
                proof {
                    lemma_assoc_map_update(old(self).entries@, i as int, k, v);
                    assert(distinct_keys(self.entries@));
                }
                return;
            }
            i += 1;
        }
        self.entries.push((k, v));
        proof {
            lemma_assoc_map_push(old(self).entries@, k, v);
            assert(distinct_keys(self.entries@)) by {
                assert(forall|j: int|
                    0 <= j < self.entries@.len() - 1 ==> self.entries@[j]
                        == old(self).entries@[j]);
            }
        }
    }
}

} // verus!
