//! The service state and the transaction lifecycle. One value owns the
//! ordered store, the write-ahead log image, the commit-status table, the
//! read cache and the per-table lock cells; every verb runs against it under
//! the caller's exclusive access.

use vstd::prelude::*;

use crate::keys::is_meta_seq;
use crate::numstr::{all_digits, dec_val, is_canon_id, pad_seq, canon_str, parse_u64,
    lemma_digits_no_colon, lemma_dec_lex, lemma_pad_seq_val, lemma_u64_fits_pad20};
use crate::smap::{StrMap, lemma_assoc_contains};
use crate::store::{Store, pairs_view};
use crate::strutil::{has_colon, lex_lt, no_colon, split_last_colon, tx_part, user_part};
use crate::wal::{WalTx, committed, lines_view, recover_txs, set_line_of, status_line_of,
    lemma_recover_push, lemma_set_line_not_status, lemma_status_line_of};

verus! {

/// The whole service state.
pub struct DBState {
    /// Read cache: latest value written per logical key. An accelerator,
    /// never authoritative.
    pub map: StrMap<String>,
    /// Commit status per transaction id: `true` is COMMITTED, `false` is
    /// PENDING.
    pub txs: StrMap<bool>,
    /// The ordered physical store.
    pub db: Store,
    /// The write-ahead log image: one record per element, in append order.
    pub wal: Vec<String>,
    /// Per-table lock cells for the auto-increment counters.
    pub locks: StrMap<bool>,
    /// The numeric value of the newest allocated transaction id.
    pub last_tx: u64,
}

impl DBState {
    /// The state invariant: the component maps are well formed, the status
    /// table is exactly what a replay of the log computes, and every
    /// canonical id in the table is bounded by the allocation counter.
    pub open spec fn wf(self) -> bool {
        &&& self.map.wf()
        &&& self.txs.wf()
        &&& self.locks.wf()
        &&& self.db.wf()
        &&& self.txs.as_map() == recover_txs(lines_view(self.wal@))
        &&& forall|t: Seq<char>|
            self.txs.as_map().contains_key(t) && is_canon_id(t)
                ==> dec_val(t) <= self.last_tx
    }

    /// The id the next allocation of this state would be compared against.
    pub open spec fn newest_id(self) -> Seq<char> {
        pad_seq(self.last_tx as nat, 20)
    }
}

/// A version of logical key `key` written by transaction `t` is visible to
/// a reader with id `reader` when the store holds it below the reader's
/// seek bound, its writer committed, and its writer's id is strictly older
/// than the reader's.
pub open spec fn vis(
    db: Store,
    txs: Map<Seq<char>, bool>,
    key: Seq<char>,
    t: Seq<char>,
    reader: Seq<char>,
) -> bool {
    &&& no_colon(t)
    &&& db.contains_key(crate::strutil::phys_of(key, t))
    &&& crate::strutil::lex_le(t, seq!['9'])
    &&& committed(txs, t)
    &&& lex_lt(t, reader)
}

/// Pointwise description of a store after one write.
pub open spec fn store_upd(s0: Store, s1: Store, k: Seq<char>, v: Seq<char>) -> bool {
    &&& s1.contains_key(k)
    &&& s1.value_of(k) == v
    &&& forall|x: Seq<char>| x != k ==> s1.contains_key(x) == s0.contains_key(x)
    &&& forall|x: Seq<char>| x != k && s0.contains_key(x) ==> s1.value_of(x) == s0.value_of(x)
}

/// The ceiling the allocator clamps clock readings to. It lies far above
/// any real nanosecond timestamp (about five centuries past the epoch),
/// yet leaves over four billion increments of headroom below `u64::MAX`,
/// so a bound on the counter survives any realistic chain of
/// allocations.
pub const TX_CAP: u64 = 0xFFFF_FFFF_0000_0000;

/// Relies on `std::time::SystemTime`: nanoseconds since the Unix epoch,
/// saturated to a `u64`. Nothing is assumed of the value; monotonicity is
/// enforced by the caller, and the caller clamps it below `TX_CAP`.
#[verifier::external_body]
fn now_nanos() -> u64 {
    match std::time::SystemTime::now().duration_since(std::time::UNIX_EPOCH) {
        Ok(d) => u64::try_from(d.as_nanos()).unwrap_or(u64::MAX),
        Err(_) => 0,
    }
}

/// Allocates a fresh transaction id, records it PENDING, and appends the
/// BEGIN record. The new id is strictly greater, numerically and
/// lexicographically, than every id this state has allocated before.
/// Clock readings are clamped below `TX_CAP`, so the counter either stays
/// at or below that ceiling or advances by exactly one: callers can chain
/// allocations without exhausting the id space.
pub fn wal_new_tx(db: &mut DBState) -> (tx: WalTx)
    requires
        old(db).wf(),
        old(db).last_tx < u64::MAX,
    ensures
        final(db).wf(),
        tx@ == final(db).newest_id(),
        is_canon_id(tx@),
        no_colon(tx@),
        final(db).last_tx > old(db).last_tx,
        final(db).last_tx <= TX_CAP || final(db).last_tx == old(db).last_tx + 1,
        dec_val(tx@) == final(db).last_tx,
        final(db).txs.as_map() == old(db).txs.as_map().insert(tx@, false),
        lines_view(final(db).wal@) == lines_view(old(db).wal@).push(status_line_of(tx@, false)),
        final(db).db == old(db).db,
        final(db).map == old(db).map,
        final(db).locks == old(db).locks,
        forall|t: Seq<char>|
            old(db).txs.as_map().contains_key(t) && is_canon_id(t) ==> lex_lt(t, tx@),
        forall|t: Seq<char>| committed(old(db).txs.as_map(), t) && t != tx@
            ==> committed(final(db).txs.as_map(), t),
{
    let now = now_nanos();
    let num: u64 = if now > db.last_tx && now < TX_CAP {
        now
    } else {
        db.last_tx + 1
    };
    let id = canon_str(num);
    proof {
        lemma_digits_no_colon(id@);
        lemma_u64_fits_pad20();
        lemma_pad_seq_val(num as nat, 20);
    }
    let line = begin_line(id.as_str());
    db.wal.push(line);
    db.txs.insert(id.clone(), false);
    db.last_tx = num;
    proof {
        assert(lines_view(db.wal@).drop_last() =~= lines_view(old(db).wal@));
        assert(lines_view(db.wal@) =~= lines_view(old(db).wal@).push(status_line_of(id@, false)));
        lemma_status_line_of(id@, false);
        lemma_recover_push(lines_view(old(db).wal@), status_line_of(id@, false));
        assert forall|t: Seq<char>|
            old(db).txs.as_map().contains_key(t) && is_canon_id(t) implies lex_lt(t, id@) by {
            lemma_dec_lex(t, id@);
        }
    }
    WalTx { id }
}

/// Builds the BEGIN record `<tx>:false`.
fn begin_line(tx: &str) -> (r: String)
    ensures
        r@ == status_line_of(tx@, false),
{
    let mut s = tx.to_owned();
    s.append(":false");
    proof {
        reveal_strlit(":false");
        reveal_strlit("false");
        assert(s@ =~= status_line_of(tx@, false));
    }
    s
}

/// Builds the COMMIT record `<tx>:true`.
fn commit_line(tx: &str) -> (r: String)
    ensures
        r@ == status_line_of(tx@, true),
{
    let mut s = tx.to_owned();
    s.append(":true");
    proof {
        reveal_strlit(":true");
        reveal_strlit("true");
        assert(s@ =~= status_line_of(tx@, true));
    }
    s
}

/// Appends one mutation-intent record `<tx>:<key>:<value>`. Replay skips
/// such records, so the status table is untouched.
pub fn wal_append_set(db: &mut DBState, tx: &WalTx, key: &str, value: &str)
    requires
        old(db).wf(),
    ensures
        final(db).wf(),
        lines_view(final(db).wal@) == lines_view(old(db).wal@).push(
            set_line_of(tx@, key@, value@),
        ),
        final(db).txs == old(db).txs,
        final(db).db == old(db).db,
        final(db).map == old(db).map,
        final(db).locks == old(db).locks,
        final(db).last_tx == old(db).last_tx,
{
    let mut line = tx.id.clone();
    line.append(":");
    line.append(key);
    line.append(":");
    line.append(value);
    proof {
        reveal_strlit(":");
        assert(line@ =~= set_line_of(tx@, key@, value@));
    }
    db.wal.push(line);
    proof {
        assert(lines_view(db.wal@) =~= lines_view(old(db).wal@).push(
            set_line_of(tx@, key@, value@),
        ));
        lemma_set_line_not_status(tx@, key@, value@);
        lemma_recover_push(lines_view(old(db).wal@), set_line_of(tx@, key@, value@));
    }
}

/// Appends the COMMIT record of `tx` and marks it COMMITTED in the status
/// table. This is the durability point of a transaction.
pub fn wal_commit(db: &mut DBState, tx: &WalTx) -> (r: Result<(), ()>)
    requires
        old(db).wf(),
        no_colon(tx@),
        is_canon_id(tx@) ==> dec_val(tx@) <= old(db).last_tx,
    ensures
        final(db).wf(),
        r is Ok,
        final(db).txs.as_map() == old(db).txs.as_map().insert(tx@, true),
        committed(final(db).txs.as_map(), tx@),
        lines_view(final(db).wal@) == lines_view(old(db).wal@).push(status_line_of(tx@, true)),
        final(db).db == old(db).db,
        final(db).map == old(db).map,
        final(db).locks == old(db).locks,
        final(db).last_tx == old(db).last_tx,
        forall|t: Seq<char>| committed(old(db).txs.as_map(), t)
            ==> committed(final(db).txs.as_map(), t),
{
    let line = commit_line(tx.id.as_str());
    db.wal.push(line);
    db.txs.insert(tx.id.clone(), true);
    proof {
        assert(lines_view(db.wal@) =~= lines_view(old(db).wal@).push(status_line_of(tx@, true)));
        lemma_status_line_of(tx@, true);
        lemma_recover_push(lines_view(old(db).wal@), status_line_of(tx@, true));
    }
    Ok(())
}

/// Reports whether the status table marks a transaction COMMITTED; an
/// unknown id reads as PENDING.
pub fn is_committed(db: &DBState, tx_id: &str) -> (r: bool)
    requires
        db.txs.wf(),
    ensures
        r == committed(db.txs.as_map(), tx_id@),
{
    match db.txs.get(tx_id) {
        Some(b) => *b,
        None => false,
    }
}

/// Serves a read from the in-memory cache alone. The cache is a write-path
/// accelerator; `get` is the authoritative read.
pub fn mem_get(db: &DBState, key: String) -> (r: Result<String, String>)
    requires
        db.map.wf(),
    ensures
        match r {
            Ok(v) => db.map.as_map().contains_key(key@) && v@ == db.map.as_map()[key@],
            Err(e) => !db.map.as_map().contains_key(key@) && e@ == ("Not found!")@,
        },
{
    match db.map.get(key.as_str()) {
        Some(s) => Ok(s.clone()),
        None => Err(String::from_str("Not found!")),
    }
}

/// Returns the lock cell of `key`, creating it on first use. Cells are
/// created once and never removed.
pub fn get_mutex<'a>(locks: &'a mut StrMap<bool>, key: &str) -> (r: &'a bool)
    requires
        old(locks).wf(),
    ensures
        final(locks).wf(),
        final(locks).as_map() == (if old(locks).as_map().contains_key(key@) {
            old(locks).as_map()
        } else {
            old(locks).as_map().insert(key@, true)
        }),
        final(locks).as_map().contains_key(key@),
        *r == final(locks).as_map()[key@],
{
    if !locks.contains_key(key) {
        locks.insert(key.to_owned(), true);
    } else {
        proof {
            assert(locks.as_map() =~= old(locks).as_map());
        }
    }
    match locks.get(key) {
        Some(b) => b,
        None => vstd::pervasive::unreached(),
    }
}

/// The cache an ascending walk of the store builds at startup: for every
/// non-meta versioned entry whose writer committed, the latest value seen
/// per logical key.
pub open spec fn cache_of(s: Seq<(Seq<char>, Seq<char>)>, txs: Map<Seq<char>, bool>) -> Map<
    Seq<char>,
    Seq<char>,
>
    decreases s.len(),
{
    if s.len() == 0 {
        Map::empty()
    } else {
        let m = cache_of(s.drop_last(), txs);
        let e = s.last();
        if !is_meta_seq(e.0) && has_colon(e.0) && committed(txs, tx_part(e.0)) {
            m.insert(user_part(e.0), e.1)
        } else {
            m
        }
    }
}

/// Builds the service state at startup: replays the log into the status
/// table, loads the store pairs, sizes the allocation counter above every
/// recovered numeric id, and warms the cache with committed values.
pub fn initialize_db(data: Vec<(String, String)>, wal_lines: Vec<String>) -> (r: DBState)
    ensures
        r.wf(),
        r.txs.as_map() == recover_txs(lines_view(wal_lines@)),
        lines_view(r.wal@) == lines_view(wal_lines@),
        forall|k: Seq<char>| r.db.contains_key(k) == crate::smap::assoc_map(
            pairs_view(data@),
        ).contains_key(k),
        forall|k: Seq<char>| r.db.contains_key(k) ==> r.db.value_of(k) == crate::smap::assoc_map(
            pairs_view(data@),
        )[k],
        r.map.as_map() == cache_of(r.db.kvs(), r.txs.as_map()),
        r.locks.as_map() == Map::<Seq<char>, bool>::empty(),
        forall|t: Seq<char>| r.txs.as_map().contains_key(t) && #[trigger] parseable(t)
            ==> dec_val(t) <= r.last_tx,
        r.last_tx == 0 || exists|t: Seq<char>|
            r.txs.as_map().contains_key(t) && #[trigger] parseable(t) && dec_val(t) == r.last_tx,
{
    let txs = crate::wal::wal_recover(&wal_lines);

    let mut last: u64 = 0;
    let tn = txs.len();
    let mut j: usize = 0;
    while j < tn
        invariant
            j <= tn,
            tn == txs.spec_len(),
            txs.wf(),
            forall|a: int| 0 <= a < j && #[trigger] parseable(txs.kvs()[a].0)
                ==> dec_val(txs.kvs()[a].0) <= last,
            last == 0 || exists|a: int| 0 <= a < j && #[trigger] parseable(txs.kvs()[a].0)
                && dec_val(txs.kvs()[a].0) == last,
        decreases tn - j,
    {
        match parse_u64(txs.key_at(j).as_str()) {
            Some(n) => {
                if n > last {
                    last = n;
                    proof {
                        assert(parseable(txs.kvs()[j as int].0));
                    }
                }
            },
            None => {
            },
        }
        j = j + 1;
    }

    let mut st = Store::new();
    let dn = data.len();
    let mut i: usize = 0;
    proof {
        assert(pairs_view(data@).take(0) =~= Seq::empty());
        assert(forall|k: Seq<char>| !crate::smap::assoc_map(pairs_view(data@).take(0))
            .contains_key(k));
    }
    while i < dn
        invariant
            i <= dn,
            dn == data@.len(),
            st.wf(),
            forall|k: Seq<char>| st.contains_key(k) == crate::smap::assoc_map(
                pairs_view(data@).take(i as int),
            ).contains_key(k),
            forall|k: Seq<char>| st.contains_key(k) ==> st.value_of(k) == crate::smap::assoc_map(
                pairs_view(data@).take(i as int),
            )[k],
        decreases dn - i,
    {
        let k = data[i].0.clone();
        let v = data[i].1.clone();
        st.put(k, v);
        proof {
            let pv = pairs_view(data@);
            assert(pv.take(i + 1 as int).drop_last() =~= pv.take(i as int));
            assert(pv.take(i + 1 as int).last() == pv[i as int]);
        }
        i = i + 1;
    }
    proof {
        assert(pairs_view(data@).take(dn as int) =~= pairs_view(data@));
    }

    let mut cache: StrMap<String> = StrMap::new();
    let sn = st.len();
    let mut c: usize = 0;
    proof {
        assert(st.kvs().take(0) =~= Seq::empty());
    }
    while c < sn
        invariant
            c <= sn,
            sn == st.spec_len(),
            st.wf(),
            txs.wf(),
            cache.wf(),
            cache.as_map() == cache_of(st.kvs().take(c as int), txs.as_map()),
        decreases sn - c,
    {
        proof {
            assert(st.kvs().take(c + 1 as int).drop_last() =~= st.kvs().take(c as int));
            assert(st.kvs().take(c + 1 as int).last() == st.kvs()[c as int]);
        }
        let k = st.key_at(c);
        if !crate::keys::is_meta(k.as_str()) {
            match split_last_colon(k.as_str()) {
                Some(p) => {
                    let is_com = match txs.get(p.1.as_str()) {
                        Some(b) => *b,
                        None => false,
                    };
                    if is_com {
                        let v = st.val_at(c).clone();
                        cache.insert(p.0, v);
                    }
                },
                None => {
                },
            }
        }
        c = c + 1;
    }
    proof {
        assert(st.kvs().take(sn as int) =~= st.kvs());
    }

    let locks: StrMap<bool> = StrMap::new();
    let r = DBState { map: cache, txs, db: st, wal: wal_lines, locks, last_tx: last };
    proof {
        assert forall|t: Seq<char>|
            r.txs.as_map().contains_key(t) && is_canon_id(t) implies dec_val(t) <= r.last_tx by {
            lemma_assoc_contains(r.txs.kvs(), t);
            let a = choose|a: int| 0 <= a < r.txs.kvs().len() && r.txs.kvs()[a].0 == t;
            assert(parseable(t));
        }
        assert forall|t: Seq<char>|
            r.txs.as_map().contains_key(t) && #[trigger] parseable(t) implies dec_val(t)
            <= r.last_tx by {
            lemma_assoc_contains(r.txs.kvs(), t);
            let a = choose|a: int| 0 <= a < r.txs.kvs().len() && r.txs.kvs()[a].0 == t;
        }
        if r.last_tx != 0 {
            let a = choose|a: int| 0 <= a < r.txs.kvs().len() && #[trigger] parseable(
                r.txs.kvs()[a].0,
            ) && dec_val(r.txs.kvs()[a].0) == r.last_tx;
            lemma_assoc_contains(r.txs.kvs(), r.txs.kvs()[a].0);
        }
    }
    r
}

/// A digit string whose value fits the counter.
pub open spec fn parseable(s: Seq<char>) -> bool {
    s.len() > 0 && all_digits(s) && dec_val(s) <= u64::MAX
}

} // verus!
