//! A small association table keyed by peer id, used for the per-peer
//! challenge slots, the pending-command queues and the connected-peer set.
//!
//! The table is a vector of key-value pairs with pairwise-distinct keys; its
//! mathematical view is the `Map` the pairs describe. Keeping the keys
//! distinct is what makes "at most one challenge slot per peer and
//! direction" an invariant of the data model rather than a convention.

use vstd::prelude::*;

verus! {

/// The map described by a sequence of key-value pairs, later pairs winning.
pub open spec fn entries_to_map<T>(s: Seq<(u64, T)>) -> Map<u64, T>
    decreases s.len(),
{
    if s.len() == 0 {
        Map::empty()
    } else {
        entries_to_map(s.drop_last()).insert(s.last().0, s.last().1)
    }
}

/// No two pairs share a key.
pub open spec fn distinct_keys<T>(s: Seq<(u64, T)>) -> bool {
    forall|i: int, j: int| 0 <= i < j < s.len() ==> s[i].0 != s[j].0
}

pub proof fn lemma_entries_contains<T>(s: Seq<(u64, T)>, k: u64)
    ensures
        entries_to_map(s).contains_key(k) <==> exists|i: int| 0 <= i < s.len() && s[i].0 == k,
    decreases s.len(),
{
    if s.len() == 0 {
    } else {
        lemma_entries_contains(s.drop_last(), k);
        if s.last().0 == k {
            assert(s[s.len() - 1].0 == k);
        } else {
            if exists|i: int| 0 <= i < s.len() && s[i].0 == k {
                let i = choose|i: int| 0 <= i < s.len() && s[i].0 == k;
                assert(s.drop_last()[i].0 == k);
            }
        }
    }
}

pub proof fn lemma_entries_lookup<T>(s: Seq<(u64, T)>, i: int)
    requires
        distinct_keys(s),
        0 <= i < s.len(),
    ensures
        entries_to_map(s).contains_key(s[i].0),
        entries_to_map(s)[s[i].0] == s[i].1,
    decreases s.len(),
{
    if i == s.len() - 1 {
    } else {
        assert(distinct_keys(s.drop_last()));
        assert(s.drop_last()[i] == s[i]);
        lemma_entries_lookup(s.drop_last(), i);
        assert(s[i].0 != s.last().0);
    }
}

pub proof fn lemma_entries_remove<T>(s: Seq<(u64, T)>, i: int)
    requires
        distinct_keys(s),
        0 <= i < s.len(),
    ensures
        entries_to_map(s.remove(i)) == entries_to_map(s).remove(s[i].0),
        distinct_keys(s.remove(i)),
    decreases s.len(),
{
    let k = s[i].0;
    assert(distinct_keys(s.remove(i)));
    if i == s.len() - 1 {
        assert(s.remove(i) =~= s.drop_last());
        lemma_entries_contains(s.drop_last(), k);
        assert(!entries_to_map(s.drop_last()).contains_key(k));
        assert(entries_to_map(s.drop_last()) =~= entries_to_map(s).remove(k));
    } else {
        assert(distinct_keys(s.drop_last()));
        lemma_entries_remove(s.drop_last(), i);
        assert(s.remove(i).drop_last() =~= s.drop_last().remove(i));
        assert(s.remove(i).last() == s.last());
        assert(k != s.last().0);
        assert(entries_to_map(s.remove(i)) =~= entries_to_map(s).remove(k));
    }
}

pub proof fn lemma_entries_update<T>(s: Seq<(u64, T)>, i: int, v: T)
    requires
        distinct_keys(s),
        0 <= i < s.len(),
    ensures
        entries_to_map(s.update(i, (s[i].0, v))) == entries_to_map(s).insert(s[i].0, v),
        distinct_keys(s.update(i, (s[i].0, v))),
    decreases s.len(),
{
    let k = s[i].0;
    let t = s.update(i, (k, v));
    assert(distinct_keys(t));
    if i == s.len() - 1 {
        assert(t.drop_last() =~= s.drop_last());
        assert(t.last() == (k, v));
        assert(entries_to_map(t) =~= entries_to_map(s).insert(k, v));
    } else {
        assert(distinct_keys(s.drop_last()));
        assert(s.drop_last()[i] == s[i]);
        lemma_entries_update(s.drop_last(), i, v);
        assert(t.drop_last() =~= s.drop_last().update(i, (k, v)));
        assert(t.last() == s.last());
        assert(k != s.last().0);
        assert(entries_to_map(t) =~= entries_to_map(s).insert(k, v));
    }
}

pub proof fn lemma_entries_push<T>(s: Seq<(u64, T)>, k: u64, v: T)
    requires
        distinct_keys(s),
        forall|i: int| 0 <= i < s.len() ==> s[i].0 != k,
    ensures
        entries_to_map(s.push((k, v))) == entries_to_map(s).insert(k, v),
        distinct_keys(s.push((k, v))),
{
    assert(s.push((k, v)).drop_last() =~= s);
    assert(distinct_keys(s.push((k, v))));
}

/// The table's contents with every value replaced by its view.
pub open spec fn table_view<T: View>(m: Map<u64, T>) -> Map<u64, T::V> {
    Map::new(|k: u64| m.contains_key(k), |k: u64| m[k]@)
}

pub proof fn lemma_table_view_remove<T: View>(m: Map<u64, T>, k: u64)
    ensures
        table_view(m.remove(k)) == table_view(m).remove(k),
{
    assert(table_view(m.remove(k)) =~= table_view(m).remove(k));
}

/// An association table from peer ids to values of type `T`, with at most
/// one entry per peer.
pub struct PeerTable<T> {
    entries: Vec<(u64, T)>,
}

impl<T> View for PeerTable<T> {
    type V = Map<u64, T>;

    closed spec fn view(&self) -> Map<u64, T> {
        entries_to_map(self.entries@)
    }
}

impl<T> PeerTable<T> {
    /// The keys of the stored pairs are pairwise distinct.
    pub closed spec fn wf(&self) -> bool {
        distinct_keys(self.entries@)
    }

    pub fn new() -> (r: Self)
        ensures
            r.wf(),
            r@ == Map::<u64, T>::empty(),
    {
        PeerTable { entries: Vec::new() }
    }

    fn index_of(&self, peer: u64) -> (r: Option<usize>)
        ensures
            match r {
                Some(i) => i < self.entries@.len() && self.entries@[i as int].0 == peer,
                None => forall|j: int| 0 <= j < self.entries@.len() ==> self.entries@[j].0 != peer,
            },
    {
        let mut i: usize = 0;
        while i < self.entries.len()
            invariant
                i <= self.entries@.len(),
                forall|j: int| 0 <= j < i ==> self.entries@[j].0 != peer,
            decreases self.entries@.len() - i,
        {
            if self.entries[i].0 == peer {
                return Some(i);
            }
            i += 1;
        }
        None
    }

    pub fn contains_key(&self, peer: u64) -> (r: bool)
        ensures
            r == self@.contains_key(peer),
    {
        let r = self.index_of(peer);
        proof {
            lemma_entries_contains(self.entries@, peer);
        }
        r.is_some()
    }

    pub fn get(&self, peer: u64) -> (r: Option<&T>)
        requires
            self.wf(),
        ensures
            match r {
                Some(v) => self@.contains_key(peer) && *v == self@[peer],
                None => !self@.contains_key(peer),
            },
    {
        proof {
            lemma_entries_contains(self.entries@, peer);
        }
        match self.index_of(peer) {
            Some(i) => {
                proof {
                    lemma_entries_lookup(self.entries@, i as int);
                }
                Some(&self.entries[i].1)
            },
            None => None,
        }
    }

    pub fn insert(&mut self, peer: u64, value: T)
        requires
            old(self).wf(),
        ensures
            final(self).wf(),
            final(self)@ == old(self)@.insert(peer, value),
    {
        match self.index_of(peer) {
            Some(i) => {
                proof {
                    lemma_entries_update(self.entries@, i as int, value);
                }
                self.entries[i] = (peer, value);
            },
            None => {
                proof {
                    lemma_entries_push(self.entries@, peer, value);
                }
                self.entries.push((peer, value));
            },
        }
    }

    pub fn remove(&mut self, peer: u64) -> (r: Option<T>)
        requires
            old(self).wf(),
        ensures
            final(self).wf(),
            final(self)@ == old(self)@.remove(peer),
            match r {
                Some(v) => old(self)@.contains_key(peer) && v == old(self)@[peer],
                None => !old(self)@.contains_key(peer),
            },
    {
        proof {
            lemma_entries_contains(self.entries@, peer);
        }
        match self.index_of(peer) {
            Some(i) => {
                proof {
                    lemma_entries_lookup(self.entries@, i as int);
                    lemma_entries_remove(self.entries@, i as int);
                }
                let (_, v) = self.entries.remove(i);
                Some(v)
            },
            None => {
                proof {
                    assert(old(self)@.remove(peer) =~= old(self)@);
                }
                None
            },
        }
    }

    /// A snapshot of the stored keys, for sweeps that mutate the table
    /// while walking it.
    pub fn keys(&self) -> (r: Vec<u64>)
        requires
            self.wf(),
        ensures
            r@.no_duplicates(),
            forall|i: int| 0 <= i < r@.len() ==> self@.contains_key(#[trigger] r@[i]),
            forall|k: u64| self@.contains_key(k) ==> r@.contains(k),
    {
        let mut r: Vec<u64> = Vec::new();
        let mut i: usize = 0;
        while i < self.entries.len()
            invariant
                self.wf(),
                i <= self.entries@.len(),
                r@.len() == i,
                forall|j: int| 0 <= j < i ==> r@[j] == self.entries@[j].0,
            decreases self.entries@.len() - i,
        {
            r.push(self.entries[i].0);
            i += 1;
        }
        proof {
            assert(r@.no_duplicates());
            assert forall|j: int| 0 <= j < r@.len() implies self@.contains_key(#[trigger] r@[j]) by {
                lemma_entries_lookup(self.entries@, j);
            }
            assert forall|k: u64| self@.contains_key(k) implies r@.contains(k) by {
                lemma_entries_contains(self.entries@, k);
                let j = choose|j: int| 0 <= j < self.entries@.len() && self.entries@[j].0 == k;
                assert(r@[j] == k);
            }
        }
        r
    }
}

} // verus!
