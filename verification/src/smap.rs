//! A small association map keyed by strings, with a mathematical `Map` view.
//! The engine uses it for the transaction-status table, the read cache, the
//! per-table lock cells and row column maps.

use vstd::prelude::*;

verus! {

/// Folds a sequence of key-value pairs into a map; later pairs win.
pub open spec fn assoc_map<W>(s: Seq<(Seq<char>, W)>) -> Map<Seq<char>, W>
    decreases s.len(),
{
    if s.len() == 0 {
        Map::empty()
    } else {
        assoc_map(s.drop_last()).insert(s.last().0, s.last().1)
    }
}

pub proof fn lemma_assoc_contains<W>(s: Seq<(Seq<char>, W)>, k: Seq<char>)
    ensures
        assoc_map(s).contains_key(k) == exists|i: int| 0 <= i < s.len() && s[i].0 == k,
    decreases s.len(),
{
    if s.len() > 0 {
        lemma_assoc_contains(s.drop_last(), k);
        if s.last().0 == k {
            assert(s[s.len() - 1].0 == k);
        } else if assoc_map(s).contains_key(k) {
            let i = choose|i: int| 0 <= i < s.len() - 1 && s.drop_last()[i].0 == k;
            assert(s[i].0 == k);
        } else if exists|i: int| 0 <= i < s.len() && s[i].0 == k {
            let i = choose|i: int| 0 <= i < s.len() && s[i].0 == k;
            assert(s.drop_last()[i].0 == k);
        }
    }
}

/// No two pairs share a key.
pub open spec fn unique_keys<W>(s: Seq<(Seq<char>, W)>) -> bool {
    forall|i: int, j: int| 0 <= i < j < s.len() ==> s[i].0 != s[j].0
}

/// Under unique keys, the map value of `k` is the value of its one pair.
pub proof fn lemma_assoc_value<W>(s: Seq<(Seq<char>, W)>, i: int)
    requires
        unique_keys(s),
        0 <= i < s.len(),
    ensures
        assoc_map(s).contains_key(s[i].0),
        assoc_map(s)[s[i].0] == s[i].1,
    decreases s.len(),
{
    lemma_assoc_contains(s, s[i].0);
    if i == s.len() - 1 {
    } else {
        assert(s.drop_last()[i] == s[i]);
        lemma_assoc_value(s.drop_last(), i);
        assert(s.last().0 != s[i].0);
    }
}

/// Removing the one pair of `k` removes `k` from the map.
pub proof fn lemma_assoc_remove<W>(s: Seq<(Seq<char>, W)>, i: int)
    requires
        unique_keys(s),
        0 <= i < s.len(),
    ensures
        assoc_map(s.remove(i)) =~= assoc_map(s).remove(s[i].0),
    decreases s.len(),
{
    let k = s[i].0;
    lemma_assoc_contains(s.drop_last(), k);
    if i == s.len() - 1 {
        assert(s.remove(i) =~= s.drop_last());
        assert(!assoc_map(s.drop_last()).contains_key(k));
        assert(assoc_map(s.drop_last()) =~= assoc_map(s).remove(k));
    } else {
        assert(s.remove(i).drop_last() =~= s.drop_last().remove(i));
        assert(s.remove(i).last() == s.last());
        lemma_assoc_remove(s.drop_last(), i);
        assert(assoc_map(s.remove(i)) =~= assoc_map(s.drop_last()).remove(k).insert(
            s.last().0,
            s.last().1,
        ));
        assert(s.last().0 != k);
        assert(assoc_map(s.drop_last()).remove(k).insert(s.last().0, s.last().1) =~= assoc_map(
            s,
        ).remove(k));
    }
}

/// A pair whose key never recurs afterwards decides the folded map there.
pub proof fn lemma_assoc_last_occurrence<W>(s: Seq<(Seq<char>, W)>, a: int)
    requires
        0 <= a < s.len(),
        forall|m: int| a < m < s.len() ==> (#[trigger] s[m]).0 != s[a].0,
    ensures
        assoc_map(s).contains_key(s[a].0),
        assoc_map(s)[s[a].0] == s[a].1,
    decreases s.len(),
{
    if a == s.len() - 1 {
    } else {
        assert(forall|m: int| a < m < s.len() - 1 ==> (#[trigger] s.drop_last()[m]).0 != s[a].0);
        assert(s.drop_last()[a] == s[a]);
        lemma_assoc_last_occurrence(s.drop_last(), a);
        assert(s.last().0 != s[a].0);
    }
}

/// An association map from strings to values, backed by a vector of pairs
/// with pairwise distinct keys.
pub struct StrMap<V> {
    pub entries: Vec<(String, V)>,
}

impl<V: View> StrMap<V> {
    /// The pairs as mathematical values, in insertion order.
    pub open spec fn kvs(self) -> Seq<(Seq<char>, V::V)> {
        self.entries@.map_values(|p: (String, V)| (p.0@, p.1@))
    }

    /// The contents as a mathematical map.
    pub open spec fn as_map(self) -> Map<Seq<char>, V::V> {
        assoc_map(self.kvs())
    }

    /// Well-formed: no key occurs twice.
    pub open spec fn wf(self) -> bool {
        unique_keys(self.kvs())
    }

    pub open spec fn spec_len(self) -> nat {
        self.kvs().len()
    }

    pub fn new() -> (r: Self)
        ensures
            r.wf(),
            r.as_map() == Map::<Seq<char>, V::V>::empty(),
            r.spec_len() == 0,
    {
        let r = StrMap { entries: Vec::new() };
        proof {
            assert(r.kvs() =~= Seq::empty());
        }
        r
    }

    pub fn len(&self) -> (n: usize)
        ensures
            n == self.spec_len(),
    {
        self.entries.len()
    }

    pub fn key_at(&self, i: usize) -> (r: &String)
        requires
            i < self.spec_len(),
        ensures
            r@ == self.kvs()[i as int].0,
    {
        &self.entries[i].0
    }

    pub fn val_at(&self, i: usize) -> (r: &V)
        requires
            i < self.spec_len(),
        ensures
            r@ == self.kvs()[i as int].1,
    {
        &self.entries[i].1
    }

    /// Looks a key up.
    pub fn get(&self, key: &str) -> (r: Option<&V>)
        requires
            self.wf(),
        ensures
            match r {
                Some(v) => self.as_map().contains_key(key@) && v@ == self.as_map()[key@],
                None => !self.as_map().contains_key(key@),
            },
    {
        let n = self.entries.len();
        let mut i: usize = 0;
        while i < n
            invariant
                i <= n,
                n == self.spec_len(),
                self.wf(),
                forall|j: int| 0 <= j < i ==> self.kvs()[j].0 != key@,
            decreases n - i,
        {
            if crate::strutil::str_eq(self.entries[i].0.as_str(), key) {
                proof {
                    lemma_assoc_value(self.kvs(), i as int);
                }
                return Some(&self.entries[i].1);
            }
            i = i + 1;
        }
        proof {
            lemma_assoc_contains(self.kvs(), key@);
        }
        None
    }

    pub fn contains_key(&self, key: &str) -> (r: bool)
        requires
            self.wf(),
        ensures
            r == self.as_map().contains_key(key@),
    {
        match self.get(key) {
            Some(_) => true,
            None => false,
        }
    }

    /// Inserts a pair, replacing any earlier value of the same key.
    pub fn insert(&mut self, key: String, value: V)
        requires
            old(self).wf(),
        ensures
            final(self).wf(),
            final(self).as_map() == old(self).as_map().insert(key@, value@),
    {
        let ghost kvs0 = self.kvs();
        let n = self.entries.len();
        let mut i: usize = 0;
        while i < n
            invariant
                i <= n,
                n == self.spec_len(),
                self.wf(),
                self.kvs() == kvs0,
                kvs0 == old(self).kvs(),
                forall|j: int| 0 <= j < i ==> self.kvs()[j].0 != key@,
            decreases n - i,
        {
            if crate::strutil::str_eq(self.entries[i].0.as_str(), key.as_str()) {
                proof {
                    lemma_assoc_remove(kvs0, i as int);
                }
                self.entries.remove(i);
                let ghost r = kvs0.remove(i as int);
                proof {
                    assert(self.kvs() =~= r);
                    assert(forall|j: int| 0 <= j < i ==> r[j] == kvs0[j]);
                    assert(forall|j: int| i <= j < r.len() ==> r[j] == kvs0[j + 1]);
                    assert(forall|j: int| 0 <= j < r.len() ==> (#[trigger] r[j]).0 != key@);
                    assert(unique_keys(r));
                }
                self.entries.push((key, value));
                proof {
                    assert(self.kvs().drop_last() =~= r);
                    assert(forall|a: int| 0 <= a < r.len() ==> #[trigger] self.kvs()[a] == r[a]);
                    assert(self.kvs().last() == (key@, value@));
                    assert(unique_keys(self.kvs()));
                    assert(self.as_map() =~= assoc_map(kvs0).insert(key@, value@));
                    assert(self.as_map() =~= old(self).as_map().insert(key@, value@));
                }
                return ;
            }
            i = i + 1;
        }
        self.entries.push((key, value));
        proof {
            assert(self.kvs().drop_last() =~= kvs0);
            assert(forall|a: int| 0 <= a < kvs0.len() ==> #[trigger] self.kvs()[a] == kvs0[a]);
            assert(self.kvs().last() == (key@, value@));
            assert(unique_keys(self.kvs()));
            assert(self.as_map() =~= assoc_map(kvs0).insert(key@, value@));
            assert(self.as_map() =~= old(self).as_map().insert(key@, value@));
        }
    }
}

} // verus!
