//! A small association map keyed by fid, the backing for a server's
//! per-fid file and session tables.

use vstd::prelude::*;
use crate::Fid;

verus! {

/// A map from fids to values, stored as a vector of pairs with distinct
/// keys.
pub struct FidMap<V> {
    entries: Vec<(Fid, V)>,
}

spec fn distinct_keys<V>(s: Seq<(Fid, V)>) -> bool {
    forall|i: int, j: int| 0 <= i < j < s.len() ==> s[i].0 != s[j].0
}

spec fn assoc_map<V>(s: Seq<(Fid, V)>) -> Map<Fid, V>
    decreases s.len(),
{
    if s.len() == 0 {
        Map::empty()
    } else {
        assoc_map(s.drop_last()).insert(s.last().0, s.last().1)
    }
}

proof fn lemma_assoc_contains<V>(s: Seq<(Fid, V)>, k: Fid)
    ensures
        assoc_map(s).contains_key(k) <==> exists|i: int| 0 <= i < s.len() && s[i].0 == k,
    decreases s.len(),
{
    if s.len() > 0 {
        lemma_assoc_contains(s.drop_last(), k);
        if assoc_map(s).contains_key(k) && s.last().0 != k {
            let i = choose|i: int| 0 <= i < s.drop_last().len() && s.drop_last()[i].0 == k;
            assert(s[i].0 == k);
        }
        if exists|i: int| 0 <= i < s.len() && s[i].0 == k {
            let i = choose|i: int| 0 <= i < s.len() && s[i].0 == k;
            if i < s.len() - 1 {
                assert(s.drop_last()[i].0 == k);
            }
        }
    }
}

proof fn lemma_assoc_index<V>(s: Seq<(Fid, V)>, i: int)
    requires
        distinct_keys(s),
        0 <= i < s.len(),
    ensures
        assoc_map(s).contains_key(s[i].0),
        assoc_map(s)[s[i].0] == s[i].1,
    decreases s.len(),
{
    lemma_assoc_contains(s, s[i].0);
    if i < s.len() - 1 {
        assert(s.last().0 != s[i].0);
        assert(s.drop_last()[i] == s[i]);
        lemma_assoc_index(s.drop_last(), i);
    }
}

proof fn lemma_swap_remove_assoc<V>(s: Seq<(Fid, V)>, i: int)
    requires
        distinct_keys(s),
        0 <= i < s.len(),
    ensures
        distinct_keys(s.update(i, s.last()).drop_last()),
        assoc_map(s.update(i, s.last()).drop_last()) == assoc_map(s).remove(s[i].0),
{
    let t = s.update(i, s.last()).drop_last();
    assert forall|a: int, b: int| 0 <= a < b < t.len() implies t[a].0 != t[b].0 by {
        if a == i {
            assert(t[a] == s[s.len() - 1]);
        }
        if b == i {
            assert(t[b] == s[s.len() - 1]);
        }
    }
    let k0 = s[i].0;
    assert forall|k: Fid| #[trigger] assoc_map(t).contains_key(k) implies assoc_map(s).remove(
        k0,
    ).contains_key(k) && assoc_map(t)[k] == assoc_map(s).remove(k0)[k] by {
        lemma_assoc_contains(t, k);
        lemma_assoc_contains(s, k);
        let a = choose|a: int| 0 <= a < t.len() && t[a].0 == k;
        let a2: int = if a == i { s.len() - 1 } else { a };
        assert(s[a2].0 == k);
        assert(a2 != i);
        assert(k != k0);
        lemma_assoc_index(t, a);
        lemma_assoc_index(s, a2);
    }
    assert forall|k: Fid| #[trigger] assoc_map(s).remove(k0).contains_key(k) implies assoc_map(
        t,
    ).contains_key(k) by {
        lemma_assoc_contains(t, k);
        lemma_assoc_contains(s, k);
        let a = choose|a: int| 0 <= a < s.len() && s[a].0 == k;
        assert(a != i);
        if a == s.len() - 1 {
            if i < s.len() - 1 {
                assert(t[i] == s[a]);
            }
        } else {
            assert(t[a] == s[a]);
        }
    }
    assert(assoc_map(t) =~= assoc_map(s).remove(k0));
}

impl<V> FidMap<V> {
    /// The table as a mathematical map.
    pub closed spec fn map(&self) -> Map<Fid, V> {
        assoc_map(self.entries@)
    }

    pub closed spec fn wf(&self) -> bool {
        distinct_keys(self.entries@)
    }

    pub fn new() -> (r: FidMap<V>)
        ensures
            r.wf(),
            r.map() == Map::<Fid, V>::empty(),
    {
        FidMap { entries: Vec::new() }
    }

    fn index_of(&self, fid: Fid) -> (r: Option<usize>)
        requires
            self.wf(),
        ensures
            match r {
                Some(i) => i < self.entries@.len() && self.entries@[i as int].0 == fid
                    && self.map().contains_key(fid) && self.map()[fid] == self.entries@[i as int].1,
                None => !self.map().contains_key(fid),
            },
    {
        proof {
            lemma_assoc_contains(self.entries@, fid);
        }
        let n = self.entries.len();
        let mut i: usize = 0;
        while i < n
            invariant
                0 <= i <= n,
                n == self.entries@.len(),
                self.wf(),
                forall|j: int| 0 <= j < i ==> self.entries@[j].0 != fid,
            decreases n - i,
        {
            if self.entries[i].0 == fid {
                proof {
                    lemma_assoc_index(self.entries@, i as int);
                }
                return Some(i);
            }
            i = i + 1;
        }
        None
    }

    pub fn contains_key(&self, fid: Fid) -> (r: bool)
        requires
            self.wf(),
        ensures
            r == self.map().contains_key(fid),
    {
        self.index_of(fid).is_some()
    }

    /// A shared borrow of the value under `fid`.
    pub fn get(&self, fid: Fid) -> (r: Option<&V>)
        requires
            self.wf(),
        ensures
            match r {
                Some(v) => self.map().contains_key(fid) && *v == self.map()[fid],
                None => !self.map().contains_key(fid),
            },
    {
        match self.index_of(fid) {
            Some(i) => Some(&self.entries[i].1),
            None => None,
        }
    }

    /// Binds `fid` to `v`, replacing any earlier binding.
    pub fn insert(&mut self, fid: Fid, v: V)
        requires
            old(self).wf(),
        ensures
            final(self).wf(),
            final(self).map() == old(self).map().insert(fid, v),
    {
        match self.index_of(fid) {
            Some(i) => {
                let ghost mid = self.entries@;
                self.entries.swap_remove(i);
                proof {
                    lemma_swap_remove_assoc(mid, i as int);
                    lemma_assoc_contains(self.entries@, fid);
                }
                self.entries.push((fid, v));
                proof {
                    assert(self.entries@.drop_last() =~= mid.update(
                        i as int,
                        mid.last(),
                    ).drop_last());
                    assert(final(self).map() =~= old(self).map().insert(fid, v));
                }
            },
            None => {
                proof {
                    lemma_assoc_contains(self.entries@, fid);
                }
                self.entries.push((fid, v));
                proof {
                    assert(self.entries@.drop_last() =~= old(self).entries@);
                    assert(final(self).map() =~= old(self).map().insert(fid, v));
                }
            },
        }
    }

    /// Removes the binding for `fid`, if any.
    pub fn remove(&mut self, fid: Fid)
        requires
            old(self).wf(),
        ensures
            final(self).wf(),
            final(self).map() == old(self).map().remove(fid),
    {
        match self.index_of(fid) {
            Some(i) => {
                self.entries.swap_remove(i);
                proof {
                    lemma_swap_remove_assoc(old(self).entries@, i as int);
                }
            },
            None => {
                proof {
                    assert(final(self).map() =~= old(self).map().remove(fid));
                }
            },
        }
    }

    /// Removes and returns the value bound to `fid`.
    pub fn take(&mut self, fid: Fid) -> (r: Option<V>)
        requires
            old(self).wf(),
        ensures
            final(self).wf(),
            final(self).map() == old(self).map().remove(fid),
            match r {
                Some(v) => old(self).map().contains_key(fid) && v == old(self).map()[fid],
                None => !old(self).map().contains_key(fid),
            },
    {
        match self.index_of(fid) {
            Some(i) => {
                let p = self.entries.swap_remove(i);
                proof {
                    lemma_swap_remove_assoc(old(self).entries@, i as int);
                }
                Some(p.1)
            },
            None => {
                proof {
                    assert(final(self).map() =~= old(self).map().remove(fid));
                }
                None
            },
        }
    }
}

} // verus!
