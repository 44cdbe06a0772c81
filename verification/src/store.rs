//! The ordered key-value substrate: a sorted collection of byte-faithful
//! string pairs. Reads walk it by index in either direction, the way the
//! engine's reverse-from-seek traversals need it.

use vstd::prelude::*;

use crate::strutil::{lex_lt, lemma_lex_asym, lemma_lex_irrefl, lemma_lex_total, lemma_lex_trans,
    str_eq, str_lt};

verus! {

/// String pairs as mathematical values.
pub open spec fn pairs_view(s: Seq<(String, String)>) -> Seq<(Seq<char>, Seq<char>)> {
    s.map_values(|p: (String, String)| (p.0@, p.1@))
}

/// The ordered store: entries sorted strictly ascending by key.
pub struct Store {
    pub entries: Vec<(String, String)>,
}

impl Store {
    /// The pairs as mathematical values, in key order.
    pub open spec fn kvs(self) -> Seq<(Seq<char>, Seq<char>)> {
        pairs_view(self.entries@)
    }

    /// Well-formed: keys strictly ascending, hence pairwise distinct.
    pub open spec fn wf(self) -> bool {
        forall|i: int, j: int| 0 <= i < j < self.kvs().len()
            ==> lex_lt(#[trigger] self.kvs()[i].0, #[trigger] self.kvs()[j].0)
    }

    pub open spec fn spec_len(self) -> nat {
        self.kvs().len()
    }

    pub open spec fn contains_key(self, k: Seq<char>) -> bool {
        exists|i: int| 0 <= i < self.kvs().len() && self.kvs()[i].0 == k
    }

    pub open spec fn idx_of(self, k: Seq<char>) -> int {
        choose|i: int| 0 <= i < self.kvs().len() && self.kvs()[i].0 == k
    }

    /// The stored value of key `k` (meaningful only when present).
    pub open spec fn value_of(self, k: Seq<char>) -> Seq<char> {
        self.kvs()[self.idx_of(k)].1
    }

    /// In a well-formed store an index determines its key's lookup.
    pub proof fn lemma_at(self, i: int)
        requires
            self.wf(),
            0 <= i < self.kvs().len(),
        ensures
            self.contains_key(self.kvs()[i].0),
            self.idx_of(self.kvs()[i].0) == i,
            self.value_of(self.kvs()[i].0) == self.kvs()[i].1,
    {
        let k = self.kvs()[i].0;
        assert(self.contains_key(k));
        let j = self.idx_of(k);
        if j != i {
            if j < i {
                assert(lex_lt(self.kvs()[j].0, self.kvs()[i].0));
            } else {
                assert(lex_lt(self.kvs()[i].0, self.kvs()[j].0));
            }
            lemma_lex_irrefl(k);
        }
    }

    pub fn new() -> (r: Self)
        ensures
            r.wf(),
            r.spec_len() == 0,
            forall|k: Seq<char>| !r.contains_key(k),
    {
        let r = Store { entries: Vec::new() };
        proof {
            assert(r.kvs() =~= Seq::empty());
        }
        r
    }

    pub fn len(&self) -> (n: usize)
        ensures
            n == self.spec_len(),
    {
        self.entries.len()
    }

    pub fn key_at(&self, i: usize) -> (r: &String)
        requires
            i < self.spec_len(),
        ensures
            r@ == self.kvs()[i as int].0,
    {
        &self.entries[i].0
    }

    pub fn val_at(&self, i: usize) -> (r: &String)
        requires
            i < self.spec_len(),
        ensures
            r@ == self.kvs()[i as int].1,
    {
        &self.entries[i].1
    }

    /// Point lookup.
    pub fn get_opt(&self, key: &str) -> (r: Option<&String>)
        requires
            self.wf(),
        ensures
            match r {
                Some(v) => self.contains_key(key@) && v@ == self.value_of(key@),
                None => !self.contains_key(key@),
            },
    {
        let n = self.entries.len();
        let mut i: usize = 0;
        while i < n
            invariant
                i <= n,
                n == self.spec_len(),
                self.wf(),
                forall|j: int| 0 <= j < i ==> self.kvs()[j].0 != key@,
            decreases n - i,
        {
            if str_eq(self.entries[i].0.as_str(), key) {
                proof {
                    self.lemma_at(i as int);
                }
                return Some(&self.entries[i].1);
            }
            i = i + 1;
        }
        None
    }

    /// Writes a pair: inserts a fresh key at its sorted place, or replaces
    /// the value of an existing one.
    pub fn put(&mut self, key: String, value: String)
        requires
            old(self).wf(),
        ensures
            final(self).wf(),
            final(self).contains_key(key@),
            final(self).value_of(key@) == value@,
            forall|k: Seq<char>| k != key@
                ==> final(self).contains_key(k) == old(self).contains_key(k),
            forall|k: Seq<char>| k != key@ && old(self).contains_key(k)
                ==> final(self).value_of(k) == old(self).value_of(k),
    {
        let ghost kvs0 = self.kvs();
        let n = self.entries.len();
        let mut i: usize = 0;
        while i < n && str_lt(self.entries[i].0.as_str(), key.as_str())
            invariant
                i <= n,
                n == self.spec_len(),
                self.wf(),
                self.kvs() == kvs0,
                kvs0 == old(self).kvs(),
                forall|j: int| 0 <= j < i ==> lex_lt(self.kvs()[j].0, key@),
            decreases n - i,
        {
            i = i + 1;
        }
        if i < n && str_eq(self.entries[i].0.as_str(), key.as_str()) {
            self.entries.remove(i);
            self.entries.insert(i, (key, value));
            proof {
                assert(self.kvs() =~= kvs0.update(i as int, (key@, value@)));
                lemma_put_update(*old(self), *self, key@, value@, i as int);
            }
        } else {
            self.entries.insert(i, (key, value));
            proof {
                assert(self.kvs() =~= kvs0.insert(i as int, (key@, value@)));
                if i < n {
                    lemma_lex_total(kvs0[i as int].0, key@);
                    assert(kvs0[i as int].0 != key@);
                }
                assert forall|j: int| i <= j < kvs0.len() implies lex_lt(
                    key@,
                    #[trigger] kvs0[j].0,
                ) by {
                    if j > i {
                        lemma_lex_trans(key@, kvs0[i as int].0, kvs0[j].0);
                    }
                }
                lemma_put_insert(*old(self), *self, key@, value@, i as int);
            }
        }
    }
}

/// `put` on a present key: the pair at its index is replaced and every
/// other lookup is untouched.
proof fn lemma_put_update(s0: Store, s1: Store, key: Seq<char>, value: Seq<char>, i: int)
    requires
        s0.wf(),
        0 <= i < s0.kvs().len(),
        s0.kvs()[i].0 == key,
        s1.kvs() == s0.kvs().update(i, (key, value)),
    ensures
        s1.wf(),
        s1.contains_key(key),
        s1.value_of(key) == value,
        forall|k: Seq<char>| k != key ==> s1.contains_key(k) == s0.contains_key(k),
        forall|k: Seq<char>| k != key && s0.contains_key(k) ==> s1.value_of(k) == s0.value_of(k),
{
    assert(forall|j: int| 0 <= j < s1.kvs().len() && j != i
        ==> #[trigger] s1.kvs()[j] == s0.kvs()[j]);
    assert(s1.kvs()[i] == (key, value));
    assert forall|a: int, b: int| 0 <= a < b < s1.kvs().len() implies lex_lt(
        #[trigger] s1.kvs()[a].0,
        #[trigger] s1.kvs()[b].0,
    ) by {
        assert(lex_lt(s0.kvs()[a].0, s0.kvs()[b].0));
    }
    s1.lemma_at(i);
    assert forall|k: Seq<char>| k != key implies s1.contains_key(k) == s0.contains_key(k) by {
        if s1.contains_key(k) {
            let a = choose|a: int| 0 <= a < s1.kvs().len() && s1.kvs()[a].0 == k;
            assert(s0.kvs()[a].0 == k);
        }
        if s0.contains_key(k) {
            let a = choose|a: int| 0 <= a < s0.kvs().len() && s0.kvs()[a].0 == k;
            assert(a != i);
            assert(s1.kvs()[a].0 == k);
        }
    }
    assert forall|k: Seq<char>| k != key && s0.contains_key(k) implies s1.value_of(k)
        == s0.value_of(k) by {
        let a = choose|a: int| 0 <= a < s0.kvs().len() && s0.kvs()[a].0 == k;
        assert(a != i);
        s0.lemma_at(a);
        assert(s1.kvs()[a].0 == k);
        s1.lemma_at(a);
    }
}

/// `put` on a fresh key: the pair enters at its sorted place and every
/// other lookup is untouched.
proof fn lemma_put_insert(s0: Store, s1: Store, key: Seq<char>, value: Seq<char>, i: int)
    requires
        s0.wf(),
        0 <= i <= s0.kvs().len(),
        forall|j: int| 0 <= j < i ==> lex_lt(#[trigger] s0.kvs()[j].0, key),
        forall|j: int| i <= j < s0.kvs().len() ==> lex_lt(key, #[trigger] s0.kvs()[j].0),
        s1.kvs() == s0.kvs().insert(i, (key, value)),
    ensures
        s1.wf(),
        s1.contains_key(key),
        s1.value_of(key) == value,
        forall|k: Seq<char>| k != key ==> s1.contains_key(k) == s0.contains_key(k),
        forall|k: Seq<char>| k != key && s0.contains_key(k) ==> s1.value_of(k) == s0.value_of(k),
{
    assert(forall|j: int| 0 <= j < i ==> #[trigger] s1.kvs()[j] == s0.kvs()[j]);
    assert(forall|j: int| i < j < s1.kvs().len() ==> #[trigger] s1.kvs()[j] == s0.kvs()[j - 1]);
    assert(s1.kvs()[i] == (key, value));
    assert forall|a: int, b: int| 0 <= a < b < s1.kvs().len() implies lex_lt(
        #[trigger] s1.kvs()[a].0,
        #[trigger] s1.kvs()[b].0,
    ) by {
        if a < i && b > i {
            assert(lex_lt(s0.kvs()[a].0, key));
            lemma_lex_trans(s1.kvs()[a].0, key, s1.kvs()[b].0);
        } else if a == i && b > i {
            assert(lex_lt(key, s0.kvs()[b - 1].0));
        } else if a < i && b == i {
            assert(lex_lt(s0.kvs()[a].0, key));
        } else {
            assert(lex_lt(s0.kvs()[a].0, s0.kvs()[b].0) || b <= i || a >= i);
        }
    }
    s1.lemma_at(i);
    assert forall|k: Seq<char>| k != key implies s1.contains_key(k) == s0.contains_key(k) by {
        if s1.contains_key(k) {
            let a = choose|a: int| 0 <= a < s1.kvs().len() && s1.kvs()[a].0 == k;
            assert(a != i);
            if a < i {
                assert(s0.kvs()[a].0 == k);
            } else {
                assert(s0.kvs()[a - 1].0 == k);
            }
        }
        if s0.contains_key(k) {
            let a = choose|a: int| 0 <= a < s0.kvs().len() && s0.kvs()[a].0 == k;
            if a < i {
                assert(s1.kvs()[a].0 == k);
            } else {
                assert(s1.kvs()[a + 1].0 == k);
            }
        }
    }
    assert forall|k: Seq<char>| k != key && s0.contains_key(k) implies s1.value_of(k)
        == s0.value_of(k) by {
        let a = choose|a: int| 0 <= a < s0.kvs().len() && s0.kvs()[a].0 == k;
        s0.lemma_at(a);
        if a < i {
            assert(s1.kvs()[a].0 == k);
            s1.lemma_at(a);
        } else {
            assert(s1.kvs()[a + 1].0 == k);
            s1.lemma_at(a + 1);
        }
    }
}

/// Pointwise description of a store after a sequence of writes, applied in
/// order: keys the batch writes hold their latest batch value, everything
/// else is untouched.
pub open spec fn store_after(s0: Store, s1: Store, puts: Seq<(Seq<char>, Seq<char>)>) -> bool {
    &&& forall|x: Seq<char>| #[trigger] s1.contains_key(x) == (s0.contains_key(x)
        || crate::smap::assoc_map(puts).contains_key(x))
    &&& forall|x: Seq<char>| #[trigger] crate::smap::assoc_map(puts).contains_key(x)
        ==> s1.value_of(x) == crate::smap::assoc_map(puts)[x]
    &&& forall|x: Seq<char>| !crate::smap::assoc_map(puts).contains_key(x) && s0.contains_key(x)
        ==> #[trigger] s1.value_of(x) == s0.value_of(x)
}

/// A store follows itself under the empty batch.
pub proof fn lemma_store_after_empty(s0: Store)
    ensures
        store_after(s0, s0, Seq::empty()),
{
    assert(crate::smap::assoc_map(Seq::<(Seq<char>, Seq<char>)>::empty())
        =~= Map::<Seq<char>, Seq<char>>::empty());
}

/// Extending a batch by one write extends the description by one put.
pub proof fn lemma_store_after_step(
    s0: Store,
    s1: Store,
    s2: Store,
    puts: Seq<(Seq<char>, Seq<char>)>,
    k: Seq<char>,
    v: Seq<char>,
)
    requires
        store_after(s0, s1, puts),
        s2.contains_key(k),
        s2.value_of(k) == v,
        forall|x: Seq<char>| x != k ==> s2.contains_key(x) == s1.contains_key(x),
        forall|x: Seq<char>| x != k && s1.contains_key(x) ==> s2.value_of(x) == s1.value_of(x),
    ensures
        store_after(s0, s2, puts.push((k, v))),
{
    let m0 = crate::smap::assoc_map(puts);
    let m1 = crate::smap::assoc_map(puts.push((k, v)));
    assert(puts.push((k, v)).drop_last() =~= puts);
    assert(m1 == m0.insert(k, v));
    assert forall|x: Seq<char>| #[trigger] s2.contains_key(x) == (s0.contains_key(x)
        || m1.contains_key(x)) by {
        if x != k {
            assert(s2.contains_key(x) == s1.contains_key(x));
        }
    }
    assert forall|x: Seq<char>| #[trigger] m1.contains_key(x) implies s2.value_of(x) == m1[x] by {
        if x != k {
            assert(m0.contains_key(x));
            assert(s2.value_of(x) == s1.value_of(x));
        }
    }
    assert forall|x: Seq<char>| !m1.contains_key(x) && s0.contains_key(x) implies
        #[trigger] s2.value_of(x) == s0.value_of(x) by {
        assert(x != k);
        assert(!m0.contains_key(x));
        assert(s1.contains_key(x));
    }
}

} // verus!
