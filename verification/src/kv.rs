//! The versioned key-value verbs. Every write creates a fresh physical key
//! carrying its transaction id; every read walks versions newest-first and
//! takes the newest committed one older than the reader's own id.

use vstd::prelude::*;

use crate::engine::{DBState, store_upd, vis, wal_append_set, wal_commit, wal_new_tx};
use crate::keys::{is_meta_seq, make_bound, make_phys, seek_bound};
use crate::numstr::{dec_val, is_canon_id};
use crate::smap::StrMap;
use crate::store::Store;
use crate::strutil::{has_colon, lex_le, lex_lt, no_colon, phys_of, split_last_colon, str_eq,
    str_le, str_lt, tx_part, user_part, lemma_lex_irrefl, lemma_phys_split, lemma_phys_order,
    lemma_last_colon_exists};
use crate::wal::{committed, lines_view, set_line_of, status_line_of};

verus! {

/// The acknowledgement `set` answers with.
pub open spec fn set_msg(k: Seq<char>, v: Seq<char>) -> Seq<char> {
    ("Set key: ")@ + k + (" to value: ")@ + v
}

/// Splitting a key at its last colon and rejoining gives the key back, and
/// the suffix holds no colon.
pub proof fn lemma_split_recompose(s: Seq<char>)
    requires
        has_colon(s),
    ensures
        phys_of(user_part(s), tx_part(s)) == s,
        no_colon(tx_part(s)),
{
    lemma_last_colon_exists(s);
    let i = crate::strutil::last_colon(s);
    assert(phys_of(user_part(s), tx_part(s)) =~= s);
    assert forall|j: int| 0 <= j < tx_part(s).len() implies tx_part(s)[j] != ':' by {
        assert(tx_part(s)[j] == s[i + 1 + j]);
    }
}

/// For a colon-free suffix, the physical encoding is injective in the
/// logical key.
pub proof fn lemma_phys_inj(a: Seq<char>, b: Seq<char>, t: Seq<char>)
    requires
        no_colon(t),
        phys_of(a, t) == phys_of(b, t),
    ensures
        a == b,
{
    lemma_phys_split(a, t);
    lemma_phys_split(b, t);
}

/// Writes one pair: a fresh transaction opens, logs its intent, writes the
/// versioned physical entry, commits, and refreshes the cache.
pub fn set(db: &mut DBState, key: String, value: String) -> (r: Result<String, String>)
    requires
        old(db).wf(),
        old(db).last_tx < u64::MAX,
    ensures
        final(db).wf(),
        final(db).last_tx > old(db).last_tx,
        final(db).last_tx <= crate::engine::TX_CAP || final(db).last_tx == old(db).last_tx + 1,
        ({
            let t = final(db).newest_id();
            &&& r matches Ok(m) && m@ == set_msg(key@, value@)
            &&& is_canon_id(t)
            &&& store_upd(old(db).db, final(db).db, phys_of(key@, t), value@)
            &&& final(db).txs.as_map() == old(db).txs.as_map().insert(t, true)
            &&& committed(final(db).txs.as_map(), t)
            &&& final(db).map.as_map() == old(db).map.as_map().insert(key@, value@)
            &&& final(db).locks == old(db).locks
            &&& lines_view(final(db).wal@) == lines_view(old(db).wal@) + seq![
                status_line_of(t, false),
                set_line_of(t, key@, value@),
                status_line_of(t, true),
            ]
            &&& forall|u: Seq<char>|
                old(db).txs.as_map().contains_key(u) && is_canon_id(u) ==> lex_lt(u, t)
            &&& forall|u: Seq<char>| committed(old(db).txs.as_map(), u)
                ==> committed(final(db).txs.as_map(), u)
        }),
{
    let ghost txs0 = old(db).txs.as_map();
    let tx = wal_new_tx(db);
    wal_append_set(db, &tx, key.as_str(), value.as_str());
    let mut msg = String::from_str("Set key: ");
    msg.append(key.as_str());
    msg.append(" to value: ");
    msg.append(value.as_str());
    let pk = make_phys(key.as_str(), tx.id.as_str());
    db.db.put(pk, value.clone());
    let _ = wal_commit(db, &tx);
    db.map.insert(key, value);
    proof {
        assert(msg@ =~= set_msg(key@, value@));
        assert(lines_view(db.wal@) =~= lines_view(old(db).wal@) + seq![
            status_line_of(tx@, false),
            set_line_of(tx@, key@, value@),
            status_line_of(tx@, true),
        ]);
        assert(db.txs.as_map() =~= txs0.insert(tx@, true));
        assert forall|u: Seq<char>| committed(txs0, u) implies committed(db.txs.as_map(), u) by {
            if u == tx@ {
            }
        }
    }
    Ok(msg)
}

/// The concatenated acknowledgement `multi_set` answers with, one clause
/// per pair in the order the batch lists them.
pub open spec fn multi_msg(kvs: Seq<(Seq<char>, Seq<char>)>) -> Seq<char>
    decreases kvs.len(),
{
    if kvs.len() == 0 {
        Seq::empty()
    } else {
        multi_msg(kvs.drop_last()) + set_msg(kvs.last().0, kvs.last().1) + seq![';']
    }
}

/// A map after a batch of insertions, in order.
pub open spec fn map_after(
    m: Map<Seq<char>, Seq<char>>,
    kvs: Seq<(Seq<char>, Seq<char>)>,
) -> Map<Seq<char>, Seq<char>>
    decreases kvs.len(),
{
    if kvs.len() == 0 {
        m
    } else {
        map_after(m, kvs.drop_last()).insert(kvs.last().0, kvs.last().1)
    }
}

/// The store effect of a batch write under transaction `t`: one fresh
/// version per pair, everything else untouched.
pub open spec fn batch_written(
    s0: Store,
    s1: Store,
    kvs: Seq<(Seq<char>, Seq<char>)>,
    t: Seq<char>,
) -> bool {
    &&& forall|a: int| 0 <= a < kvs.len() ==> s1.contains_key(phys_of(#[trigger] kvs[a].0, t))
        && s1.value_of(phys_of(kvs[a].0, t)) == kvs[a].1
    &&& forall|x: Seq<char>| !(exists|a: int| 0 <= a < kvs.len() && x == phys_of(
        #[trigger] kvs[a].0,
        t,
    )) ==> s1.contains_key(x) == s0.contains_key(x) && (s0.contains_key(x) ==> s1.value_of(x)
        == s0.value_of(x))
}

/// Writes a batch of pairs under one transaction: one intent record and one
/// versioned physical entry per pair, one commit at the end.
pub fn multi_set(db: &mut DBState, keyvals: StrMap<String>) -> (r: Result<String, String>)
    requires
        old(db).wf(),
        old(db).last_tx < u64::MAX,
        keyvals.wf(),
    ensures
        final(db).wf(),
        final(db).last_tx > old(db).last_tx,
        final(db).last_tx <= crate::engine::TX_CAP || final(db).last_tx == old(db).last_tx + 1,
        ({
            let t = final(db).newest_id();
            let kvs = keyvals.kvs();
            &&& r matches Ok(m) && m@ == multi_msg(kvs)
            &&& is_canon_id(t)
            &&& final(db).txs.as_map() == old(db).txs.as_map().insert(t, true)
            &&& committed(final(db).txs.as_map(), t)
            &&& batch_written(old(db).db, final(db).db, kvs, t)
            &&& final(db).map.as_map() == map_after(old(db).map.as_map(), kvs)
            &&& final(db).locks == old(db).locks
            &&& lines_view(final(db).wal@) == lines_view(old(db).wal@) + seq![
                status_line_of(t, false),
            ] + set_lines(t, kvs) + seq![status_line_of(t, true)]
            &&& forall|u: Seq<char>|
                old(db).txs.as_map().contains_key(u) && is_canon_id(u) ==> lex_lt(u, t)
            &&& forall|u: Seq<char>| committed(old(db).txs.as_map(), u)
                ==> committed(final(db).txs.as_map(), u)
        }),
{
    let ghost txs0 = old(db).txs.as_map();
    let ghost kvs = keyvals.kvs();
    let tx = wal_new_tx(db);
    let ghost mid = *db;
    let mut msg = String::new();
    let n = keyvals.len();
    let mut i: usize = 0;
    proof {
        assert(msg@ =~= multi_msg(kvs.take(0)));
    }
    while i < n
        invariant
            i <= n,
            n == keyvals.spec_len(),
            keyvals.wf(),
            kvs == keyvals.kvs(),
            txs0 == old(db).txs.as_map(),
            mid.db == old(db).db,
            mid.map == old(db).map,
            mid.locks == old(db).locks,
            mid.last_tx > old(db).last_tx,
            mid.last_tx <= crate::engine::TX_CAP || mid.last_tx == old(db).last_tx + 1,
            lines_view(mid.wal@) == lines_view(old(db).wal@).push(status_line_of(tx@, false)),
            db.wf(),
            tx@ == db.newest_id(),
            is_canon_id(tx@),
            no_colon(tx@),
            dec_val(tx@) == db.last_tx,
            db.last_tx == mid.last_tx,
            db.txs == mid.txs,
            db.txs.as_map() == txs0.insert(tx@, false),
            db.map.wf(),
            db.locks == mid.locks,
            msg@ == multi_msg(kvs.take(i as int)),
            lines_view(db.wal@) == lines_view(mid.wal@) + set_lines(tx@, kvs.take(i as int)),
            forall|a: int| 0 <= a < i ==> db.db.contains_key(phys_of(#[trigger] kvs[a].0, tx@))
                && db.db.value_of(phys_of(kvs[a].0, tx@)) == kvs[a].1,
            forall|x: Seq<char>| !(exists|a: int| 0 <= a < i && x == phys_of(
                #[trigger] kvs[a].0,
                tx@,
            )) ==> db.db.contains_key(x) == mid.db.contains_key(x) && (mid.db.contains_key(x)
                ==> db.db.value_of(x) == mid.db.value_of(x)),
            db.map.as_map() == map_after(mid.map.as_map(), kvs.take(i as int)),
        decreases n - i,
    {
        let ghost dbpre = *db;
        let k = keyvals.key_at(i).clone();
        let v = keyvals.val_at(i).clone();
        wal_append_set(db, &tx, k.as_str(), v.as_str());
        let pk = make_phys(k.as_str(), tx.id.as_str());
        db.db.put(pk, v.clone());
        db.map.insert(k.clone(), v.clone());
        msg.append("Set key: ");
        msg.append(k.as_str());
        msg.append(" to value: ");
        msg.append(v.as_str());
        msg.append(";");
        proof {
            assert(kvs.take(i + 1 as int).drop_last() =~= kvs.take(i as int));
            assert(kvs.take(i + 1 as int).last() == kvs[i as int]);
            reveal_strlit(";");
            assert(msg@ =~= multi_msg(kvs.take(i + 1 as int)));
            assert(set_lines(tx@, kvs.take(i + 1 as int)).drop_last() =~= set_lines(
                tx@,
                kvs.take(i as int),
            ));
            assert(lines_view(db.wal@) =~= lines_view(mid.wal@) + set_lines(
                tx@,
                kvs.take(i + 1 as int),
            ));
            assert forall|a: int| 0 <= a < i + 1 implies db.db.contains_key(
                phys_of(#[trigger] kvs[a].0, tx@),
            ) && db.db.value_of(phys_of(kvs[a].0, tx@)) == kvs[a].1 by {
                if a < i && phys_of(kvs[a].0, tx@) != phys_of(kvs[i as int].0, tx@) {
                }
                if a < i && phys_of(kvs[a].0, tx@) == phys_of(kvs[i as int].0, tx@) {
                    lemma_phys_inj(kvs[a].0, kvs[i as int].0, tx@);
                }
            }
            assert(db.map.as_map() == dbpre.map.as_map().insert(kvs[i as int].0, kvs[i as int].1));
            assert(db.map.as_map() == map_after(mid.map.as_map(), kvs.take(i + 1 as int)));
            assert(db.db.contains_key(phys_of(kvs[i as int].0, tx@)));
            assert forall|x: Seq<char>| !(exists|a: int| 0 <= a < i + 1 && x == phys_of(
                #[trigger] kvs[a].0,
                tx@,
            )) implies db.db.contains_key(x) == mid.db.contains_key(x) && (mid.db.contains_key(x)
                ==> db.db.value_of(x) == mid.db.value_of(x)) by {
                assert forall|a: int| 0 <= a < i + 1 implies x != phys_of(
                    #[trigger] kvs[a].0,
                    tx@,
                ) by {
                    if x == phys_of(kvs[a].0, tx@) {
                    }
                }
                assert(db.db.contains_key(x) == dbpre.db.contains_key(x));
                assert(dbpre.db.contains_key(x) == mid.db.contains_key(x));
            }
        }
        i = i + 1;
    }
    proof {
        assert(kvs.take(n as int) =~= kvs);
        assert(batch_written(old(db).db, db.db, kvs, tx@));
        assert(db.map.as_map() == map_after(old(db).map.as_map(), kvs));
    }
    let ghost db_pre = *db;
    let _ = wal_commit(db, &tx);
    proof {
        assert(db.map == db_pre.map);
        assert(db.db == db_pre.db);
        assert(db.txs.as_map() =~= txs0.insert(tx@, true));
        assert(lines_view(db.wal@) =~= lines_view(old(db).wal@) + seq![
            status_line_of(tx@, false),
        ] + set_lines(tx@, kvs) + seq![status_line_of(tx@, true)]);
        assert forall|u: Seq<char>| committed(txs0, u) implies committed(db.txs.as_map(), u) by {}
        assert(batch_written(old(db).db, db.db, kvs, tx@));
    }
    Ok(msg)
}

/// The intent records a batch writes, in order.
pub open spec fn set_lines(t: Seq<char>, kvs: Seq<(Seq<char>, Seq<char>)>) -> Seq<Seq<char>> {
    kvs.map_values(|p: (Seq<char>, Seq<char>)| set_line_of(t, p.0, p.1))
}

/// An index `j` of the store holds a version of `key` that a reader with id
/// `reader` accepts: at or below the seek bound, committed, and older than
/// the reader.
pub open spec fn hit_at(
    db: Store,
    txs: Map<Seq<char>, bool>,
    key: Seq<char>,
    reader: Seq<char>,
    j: int,
) -> bool {
    let k = db.kvs()[j].0;
    &&& lex_le(k, seek_bound(key))
    &&& has_colon(k)
    &&& user_part(k) == key
    &&& committed(txs, tx_part(k))
    &&& lex_lt(tx_part(k), reader)
}

/// A visible version occupies a store index that is a hit.
pub proof fn lemma_vis_entry(
    db: Store,
    txs: Map<Seq<char>, bool>,
    key: Seq<char>,
    u: Seq<char>,
    reader: Seq<char>,
) -> (m: int)
    requires
        db.wf(),
        vis(db, txs, key, u, reader),
    ensures
        0 <= m < db.kvs().len(),
        db.kvs()[m].0 == phys_of(key, u),
        tx_part(db.kvs()[m].0) == u,
        user_part(db.kvs()[m].0) == key,
        hit_at(db, txs, key, reader, m),
        db.kvs()[m].1 == db.value_of(phys_of(key, u)),
{
    let m = choose|m: int| 0 <= m < db.kvs().len() && db.kvs()[m].0 == phys_of(key, u);
    lemma_phys_split(key, u);
    crate::keys::lemma_phys_vs_bound(key, u);
    db.lemma_at(m);
    m
}

/// A hit index carries a visible version.
pub proof fn lemma_entry_vis(
    db: Store,
    txs: Map<Seq<char>, bool>,
    key: Seq<char>,
    reader: Seq<char>,
    m: int,
)
    requires
        db.wf(),
        0 <= m < db.kvs().len(),
        hit_at(db, txs, key, reader, m),
    ensures
        vis(db, txs, key, tx_part(db.kvs()[m].0), reader),
        db.value_of(phys_of(key, tx_part(db.kvs()[m].0))) == db.kvs()[m].1,
{
    let k = db.kvs()[m].0;
    lemma_split_recompose(k);
    db.lemma_at(m);
    crate::keys::lemma_phys_vs_bound(key, tx_part(k));
}

/// Reads the newest committed version of a key that is older than the
/// freshly allocated reader transaction.
pub fn get(db: &mut DBState, key: String) -> (r: Result<String, String>)
    requires
        old(db).wf(),
        old(db).last_tx < u64::MAX,
    ensures
        final(db).wf(),
        final(db).last_tx > old(db).last_tx,
        final(db).last_tx <= crate::engine::TX_CAP || final(db).last_tx == old(db).last_tx + 1,
        final(db).db == old(db).db,
        final(db).map == old(db).map,
        final(db).locks == old(db).locks,
        is_canon_id(final(db).newest_id()),
        ({
            let reader = final(db).newest_id();
            let s0 = old(db).db;
            let t0 = old(db).txs.as_map();
            match r {
                Ok(v) => (exists|t: Seq<char>|
                    #[trigger] vis(s0, t0, key@, t, reader) && v@ == s0.value_of(phys_of(key@, t))
                        && (forall|u: Seq<char>| vis(s0, t0, key@, u, reader) ==> lex_le(u, t)))
                    && final(db).txs.as_map() == t0.insert(reader, false)
                    && lines_view(final(db).wal@) == lines_view(old(db).wal@).push(
                    status_line_of(reader, false),
                ),
                Err(e) => (forall|t: Seq<char>| !vis(s0, t0, key@, t, reader)) && e@ == (
                "Not found!")@ && final(db).txs.as_map() == t0.insert(reader, true)
                    && lines_view(final(db).wal@) == lines_view(old(db).wal@) + seq![
                    status_line_of(reader, false),
                    status_line_of(reader, true),
                ],
            }
        }),
        forall|u: Seq<char>|
            old(db).txs.as_map().contains_key(u) && is_canon_id(u)
                ==> lex_lt(u, final(db).newest_id()),
        forall|u: Seq<char>| committed(old(db).txs.as_map(), u)
            ==> committed(final(db).txs.as_map(), u),
{
    let ghost txs0 = old(db).txs.as_map();
    let tx = wal_new_tx(db);
    proof {
        assert(!txs0.contains_key(tx@)) by {
            if txs0.contains_key(tx@) {
                assert(lex_lt(tx@, tx@));
                lemma_lex_irrefl(tx@);
            }
        }
        assert forall|t: Seq<char>| committed(db.txs.as_map(), t) == committed(txs0, t) by {
            if t == tx@ {
                assert(!committed(db.txs.as_map(), t));
                assert(!committed(txs0, t));
            }
        }
    }
    let bound = make_bound(key.as_str());
    let n = db.db.len();
    let mut i: usize = n;
    while i > 0
        invariant
            i <= n,
            n == db.db.spec_len(),
            db.wf(),
            db.db == old(db).db,
            db.map == old(db).map,
            db.locks == old(db).locks,
            db.last_tx > old(db).last_tx,
            db.last_tx <= crate::engine::TX_CAP || db.last_tx == old(db).last_tx + 1,
            tx@ == db.newest_id(),
            is_canon_id(tx@),
            no_colon(tx@),
            dec_val(tx@) == db.last_tx,
            bound@ == seek_bound(key@),
            txs0 == old(db).txs.as_map(),
            db.txs.as_map() == txs0.insert(tx@, false),
            forall|t: Seq<char>| committed(db.txs.as_map(), t) == committed(txs0, t),
            lines_view(db.wal@) == lines_view(old(db).wal@).push(status_line_of(tx@, false)),
            forall|j: int| i <= j < n ==> !hit_at(old(db).db, txs0, key@, tx@, j),
            forall|u: Seq<char>|
                old(db).txs.as_map().contains_key(u) && is_canon_id(u) ==> lex_lt(u, tx@),
        decreases i,
    {
        i = i - 1;
        let k = db.db.key_at(i);
        if str_le(k.as_str(), bound.as_str()) {
            match split_last_colon(k.as_str()) {
                Some(p) => {
                    let is_com = match db.txs.get(p.1.as_str()) {
                        Some(b) => *b,
                        None => false,
                    };
                    if str_eq(p.0.as_str(), key.as_str()) && str_lt(p.1.as_str(), tx.id.as_str())
                        && is_com {
                        let v = db.db.val_at(i).clone();
                        proof {
                            let s0 = old(db).db;
                            let ki = s0.kvs()[i as int].0;
                            lemma_entry_vis(s0, txs0, key@, tx@, i as int);
                            let ti = tx_part(ki);
                            assert(vis(s0, txs0, key@, ti, tx@));
                            assert(v@ == s0.value_of(phys_of(key@, ti)));
                            assert forall|u: Seq<char>| vis(s0, txs0, key@, u, tx@) implies lex_le(
                                u,
                                ti,
                            ) by {
                                let m = lemma_vis_entry(s0, txs0, key@, u, tx@);
                                if m > i {
                                    assert(!hit_at(s0, txs0, key@, tx@, m));
                                } else if m == i {
                                    assert(u == ti);
                                } else {
                                    assert(lex_lt(s0.kvs()[m].0, ki));
                                    lemma_phys_order(key@, u, ti);
                                    lemma_split_recompose(ki);
                                }
                            }
                        }
                        return Ok(v);
                    }
                },
                None => {
                },
            }
        }
        proof {
            let s0 = old(db).db;
            if hit_at(s0, txs0, key@, tx@, i as int) {
                lemma_entry_vis(s0, txs0, key@, tx@, i as int);
                assert(false);
            }
        }
    }
    let _ = wal_commit(db, &tx);
    proof {
        let s0 = old(db).db;
        assert forall|t: Seq<char>| !vis(s0, txs0, key@, t, tx@) by {
            if vis(s0, txs0, key@, t, tx@) {
                let m = lemma_vis_entry(s0, txs0, key@, t, tx@);
            }
        }
        assert(db.txs.as_map() =~= txs0.insert(tx@, true));
        assert(lines_view(db.wal@) =~= lines_view(old(db).wal@) + seq![
            status_line_of(tx@, false),
            status_line_of(tx@, true),
        ]);
        assert forall|u: Seq<char>| committed(txs0, u) implies committed(
            db.txs.as_map(),
            u,
        ) by {}
    }
    Err(String::from_str("Not found!"))
}


/// The reverse walk `scan` performs, from entry `j - 1` of the store
/// downward: entries above the seek bound of `end` and meta entries are
/// passed over; the walk stops at the first logical key below `start`; a
/// committed version older than the reader is taken once per logical key,
/// newest first.
pub open spec fn scan_walk(
    kvs: Seq<(Seq<char>, Seq<char>)>,
    txs: Map<Seq<char>, bool>,
    start: Seq<char>,
    end: Seq<char>,
    reader: Seq<char>,
    j: int,
    seen: Set<Seq<char>>,
) -> Seq<Seq<char>>
    decreases j,
{
    if j <= 0 || j > kvs.len() {
        Seq::empty()
    } else {
        let e = kvs[j - 1];
        if !lex_le(e.0, seek_bound(end)) || is_meta_seq(e.0) {
            scan_walk(kvs, txs, start, end, reader, j - 1, seen)
        } else {
            let u = if has_colon(e.0) {
                user_part(e.0)
            } else {
                e.0
            };
            if lex_lt(u, start) {
                Seq::empty()
            } else if has_colon(e.0) && lex_le(u, end) && committed(txs, tx_part(e.0)) && lex_lt(
                tx_part(e.0),
                reader,
            ) && !seen.contains(u) {
                seq![e.1] + scan_walk(kvs, txs, start, end, reader, j - 1, seen.insert(u))
            } else {
                scan_walk(kvs, txs, start, end, reader, j - 1, seen)
            }
        }
    }
}

/// Collects, in ascending key order, the newest committed value of every
/// logical key in the range, by the reverse walk `scan_walk` describes.
pub fn scan(db: &mut DBState, start: String, end: String) -> (r: Vec<String>)
    requires
        old(db).wf(),
        old(db).last_tx < u64::MAX,
    ensures
        final(db).wf(),
        final(db).last_tx > old(db).last_tx,
        final(db).last_tx <= crate::engine::TX_CAP || final(db).last_tx == old(db).last_tx + 1,
        final(db).db == old(db).db,
        final(db).map == old(db).map,
        final(db).locks == old(db).locks,
        is_canon_id(final(db).newest_id()),
        final(db).txs.as_map() == old(db).txs.as_map().insert(final(db).newest_id(), true),
        lines_view(final(db).wal@) == lines_view(old(db).wal@) + seq![
            status_line_of(final(db).newest_id(), false),
            status_line_of(final(db).newest_id(), true),
        ],
        lines_view(r@) == scan_walk(
            old(db).db.kvs(),
            old(db).txs.as_map(),
            start@,
            end@,
            final(db).newest_id(),
            old(db).db.kvs().len() as int,
            Set::empty(),
        ).reverse(),
        forall|u: Seq<char>| committed(old(db).txs.as_map(), u)
            ==> committed(final(db).txs.as_map(), u),
{
    let ghost txs0 = old(db).txs.as_map();
    let tx = wal_new_tx(db);
    proof {
        assert(!txs0.contains_key(tx@)) by {
            if txs0.contains_key(tx@) {
                assert(lex_lt(tx@, tx@));
                lemma_lex_irrefl(tx@);
            }
        }
        assert forall|t: Seq<char>| committed(db.txs.as_map(), t) == committed(txs0, t) by {
            if t == tx@ {
                assert(!committed(db.txs.as_map(), t));
                assert(!committed(txs0, t));
            }
        }
    }
    let bound = make_bound(end.as_str());
    let mut values: Vec<String> = Vec::new();
    let mut found: StrMap<bool> = StrMap::new();
    let n = db.db.len();
    let mut i: usize = n;
    let ghost kvs0 = old(db).db.kvs();
    let ghost walk_full = scan_walk(kvs0, txs0, start@, end@, tx@, n as int, Set::empty());
    proof {
        assert(found.as_map().dom() =~= Set::<Seq<char>>::empty());
        assert(lines_view(values@) =~= Seq::empty());
        assert(walk_full =~= Seq::empty() + walk_full);
    }
    while i > 0
        invariant_except_break
            walk_full == lines_view(values@) + scan_walk(
                kvs0,
                txs0,
                start@,
                end@,
                tx@,
                i as int,
                found.as_map().dom(),
            ),
        invariant
            i <= n,
            n == db.db.spec_len(),
            db.wf(),
            db.db == old(db).db,
            db.map == old(db).map,
            db.locks == old(db).locks,
            db.last_tx > old(db).last_tx,
            db.last_tx <= crate::engine::TX_CAP || db.last_tx == old(db).last_tx + 1,
            tx@ == db.newest_id(),
            is_canon_id(tx@),
            no_colon(tx@),
            dec_val(tx@) == db.last_tx,
            bound@ == seek_bound(end@),
            kvs0 == old(db).db.kvs(),
            txs0 == old(db).txs.as_map(),
            db.txs.as_map() == txs0.insert(tx@, false),
            forall|t: Seq<char>| committed(db.txs.as_map(), t) == committed(txs0, t),
            lines_view(db.wal@) == lines_view(old(db).wal@).push(status_line_of(tx@, false)),
            found.wf(),
            walk_full == scan_walk(kvs0, txs0, start@, end@, tx@, n as int, Set::empty()),
        ensures
            db.wf(),
            db.db == old(db).db,
            db.map == old(db).map,
            db.locks == old(db).locks,
            db.last_tx > old(db).last_tx,
            db.last_tx <= crate::engine::TX_CAP || db.last_tx == old(db).last_tx + 1,
            tx@ == db.newest_id(),
            is_canon_id(tx@),
            no_colon(tx@),
            dec_val(tx@) == db.last_tx,
            txs0 == old(db).txs.as_map(),
            db.txs.as_map() == txs0.insert(tx@, false),
            forall|t: Seq<char>| committed(db.txs.as_map(), t) == committed(txs0, t),
            lines_view(db.wal@) == lines_view(old(db).wal@).push(status_line_of(tx@, false)),
            walk_full == lines_view(values@),
            walk_full == scan_walk(kvs0, txs0, start@, end@, tx@, n as int, Set::empty()),
        decreases i,
    {
        let ghost seen0 = found.as_map().dom();
        i = i - 1;
        let ghost e = kvs0[i as int];
        let k = db.db.key_at(i);
        if str_le(k.as_str(), bound.as_str()) && !crate::keys::is_meta(k.as_str()) {
            let parts = split_last_colon(k.as_str());
            let u: String = match &parts {
                Some(p) => p.0.clone(),
                None => k.clone(),
            };
            proof {
                assert(u@ == (if has_colon(e.0) { user_part(e.0) } else { e.0 }));
            }
            if str_lt(u.as_str(), start.as_str()) {
                proof {
                    assert(scan_walk(kvs0, txs0, start@, end@, tx@, i + 1 as int, seen0)
                        =~= Seq::empty());
                    assert(walk_full =~= lines_view(values@));
                }
                break;
            }
            match parts {
                Some(p) => {
                    let is_com = match db.txs.get(p.1.as_str()) {
                        Some(b) => *b,
                        None => false,
                    };
                    if str_le(u.as_str(), end.as_str()) && is_com && str_lt(
                        p.1.as_str(),
                        tx.id.as_str(),
                    ) && !found.contains_key(u.as_str()) {
                        let v = db.db.val_at(i).clone();
                        values.push(v);
                        found.insert(u, true);
                        proof {
                            assert(found.as_map().dom() =~= seen0.insert(user_part(e.0)));
                            assert(scan_walk(kvs0, txs0, start@, end@, tx@, i + 1 as int, seen0)
                                == seq![e.1] + scan_walk(
                                kvs0,
                                txs0,
                                start@,
                                end@,
                                tx@,
                                i as int,
                                found.as_map().dom(),
                            ));
                            assert(lines_view(values@).drop_last() =~= lines_view(
                                values@.drop_last(),
                            ));
                            assert(lines_view(values@) =~= lines_view(values@.drop_last()).push(
                                e.1,
                            ));
                            assert(lines_view(values@.drop_last()) + (seq![e.1] + scan_walk(
                                kvs0,
                                txs0,
                                start@,
                                end@,
                                tx@,
                                i as int,
                                found.as_map().dom(),
                            )) =~= lines_view(values@) + scan_walk(
                                kvs0,
                                txs0,
                                start@,
                                end@,
                                tx@,
                                i as int,
                                found.as_map().dom(),
                            ));
                        }
                    } else {
                        proof {
                            assert(scan_walk(kvs0, txs0, start@, end@, tx@, i + 1 as int, seen0)
                                == scan_walk(kvs0, txs0, start@, end@, tx@, i as int, seen0));
                        }
                    }
                },
                None => {
                    proof {
                        assert(scan_walk(kvs0, txs0, start@, end@, tx@, i + 1 as int, seen0)
                            == scan_walk(kvs0, txs0, start@, end@, tx@, i as int, seen0));
                    }
                },
            }
        } else {
            proof {
                assert(scan_walk(kvs0, txs0, start@, end@, tx@, i + 1 as int, seen0)
                    == scan_walk(kvs0, txs0, start@, end@, tx@, i as int, seen0));
            }
        }
    }
    let _ = wal_commit(db, &tx);
    let m = values.len();
    let mut out: Vec<String> = Vec::new();
    let mut j: usize = m;
    while j > 0
        invariant
            j <= m,
            m == values@.len(),
            out@.len() == m - j,
            forall|a: int| 0 <= a < out@.len() ==> out@[a]@ == values@[m - 1 - a]@,
        decreases j,
    {
        j = j - 1;
        let v = values[j].clone();
        out.push(v);
    }
    proof {
        assert(db.txs.as_map() =~= txs0.insert(tx@, true));
        assert(lines_view(db.wal@) =~= lines_view(old(db).wal@) + seq![
            status_line_of(tx@, false),
            status_line_of(tx@, true),
        ]);
        assert(lines_view(out@) =~= lines_view(values@).reverse());
    }
    out
}

} // verus!
