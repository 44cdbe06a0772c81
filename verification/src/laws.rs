//! The engine's guarantees, stated and proved over the same specifications
//! the verbs' contracts use.

use vstd::prelude::*;

use crate::engine::{vis, DBState};
use crate::keys::is_meta_seq;
use crate::kv::scan_walk;
use crate::numstr::{dec_val, is_canon_id, pad_seq, lemma_canon_below_nine, lemma_canon_is_canon,
    lemma_dec_lex, lemma_digits_no_colon, lemma_pad_seq_val, lemma_u64_fits_pad20};
use crate::engine::store_upd;
use crate::store::Store;
use crate::strutil::{has_colon, lex_le, lex_lt, phys_of, tx_part, user_part,
    lemma_lex_asym, lemma_lex_irrefl, lemma_lex_total, lemma_lex_trans};
use crate::wal::{committed, lines_view, recover_txs};

verus! {

/// Recovery soundness: the commit-status table always equals what a replay
/// of the current log computes, so a process that restarts on this log and
/// store decides every read's visibility exactly as the running process
/// would. A transaction's writes are visible after the restart precisely
/// when its last status record is the COMMIT marker.
pub proof fn lemma_recovery_soundness(db: DBState)
    requires
        db.wf(),
    ensures
        recover_txs(lines_view(db.wal@)) == db.txs.as_map(),
        forall|key: Seq<char>, t: Seq<char>, reader: Seq<char>|
            vis(db.db, recover_txs(lines_view(db.wal@)), key, t, reader) == vis(
                db.db,
                db.txs.as_map(),
                key,
                t,
                reader,
            ),
{
}

/// No uncommitted visibility: a version is visible only when its writer
/// committed and its writer's id is strictly below the reader's. `get`'s
/// contract returns values of visible versions alone, so it never returns
/// a value written by a transaction at or above the reader, nor by one
/// still pending.
pub proof fn lemma_no_uncommitted_visibility(
    s0: Store,
    t0: Map<Seq<char>, bool>,
    key: Seq<char>,
    t: Seq<char>,
    reader: Seq<char>,
)
    requires
        vis(s0, t0, key, t, reader),
    ensures
        committed(t0, t),
        lex_lt(t, reader),
        !(t0.contains_key(t) && !t0[t]),
{
}

/// Newest wins: when `t2` is the newest visible version of a key, any
/// witness satisfying `get`'s success clause is `t2` itself, so `get`
/// returns `t2`'s value — in particular for two committed writes
/// `t1 < t2` of the same key.
pub proof fn lemma_newest_wins(
    s0: Store,
    t0: Map<Seq<char>, bool>,
    key: Seq<char>,
    reader: Seq<char>,
    t1: Seq<char>,
    t2: Seq<char>,
    t: Seq<char>,
)
    requires
        vis(s0, t0, key, t1, reader),
        vis(s0, t0, key, t2, reader),
        lex_lt(t1, t2),
        forall|u: Seq<char>| vis(s0, t0, key, u, reader) ==> lex_le(u, t2),
        vis(s0, t0, key, t, reader),
        forall|u: Seq<char>| vis(s0, t0, key, u, reader) ==> lex_le(u, t),
    ensures
        t == t2,
{
    assert(lex_le(t, t2));
    assert(lex_le(t2, t));
    if t != t2 {
        lemma_lex_asym(t, t2);
        lemma_lex_irrefl(t);
    }
}

/// Round trip: after `set(key, value)` commits under the id `t`, a read
/// whose reader id is allocated later sees `t` as the newest visible
/// version of `key`, so `get(key)` returns `value`. The one restriction:
/// every previously committed id must be canonical — an id recovered from
/// a foreign log, such as an unpadded nineteen-digit one, can sort above
/// every fresh canonical id and shadow the write.
pub proof fn lemma_round_trip(
    db0: DBState,
    db1: DBState,
    key: Seq<char>,
    value: Seq<char>,
    reader: Seq<char>,
)
    requires
        db0.wf(),
        db1.wf(),
        is_canon_id(db1.newest_id()),
        db1.last_tx > db0.last_tx,
        store_upd(db0.db, db1.db, phys_of(key, db1.newest_id()), value),
        db1.txs.as_map() == db0.txs.as_map().insert(db1.newest_id(), true),
        is_canon_id(reader),
        dec_val(reader) > db1.last_tx,
        forall|u: Seq<char>| committed(db0.txs.as_map(), u) ==> is_canon_id(u),
    ensures
        ({
            let t = db1.newest_id();
            &&& vis(db1.db, db1.txs.as_map(), key, t, reader)
            &&& db1.db.value_of(phys_of(key, t)) == value
            &&& forall|u: Seq<char>| vis(db1.db, db1.txs.as_map(), key, u, reader) ==> lex_le(u, t)
        }),
{
    let t = db1.newest_id();
    lemma_u64_fits_pad20();
    lemma_pad_seq_val(db1.last_tx as nat, 20);
    lemma_digits_no_colon(t);
    lemma_canon_below_nine(t);
    lemma_dec_lex(t, reader);
    assert(vis(db1.db, db1.txs.as_map(), key, t, reader));
    assert forall|u: Seq<char>| vis(db1.db, db1.txs.as_map(), key, u, reader) implies lex_le(
        u,
        t,
    ) by {
        if u != t {
            assert(committed(db0.txs.as_map(), u));
            assert(is_canon_id(u));
            assert(dec_val(u) <= db0.last_tx);
            lemma_dec_lex(u, t);
        }
    }
}

/// Monotonic transaction ids: a counter strictly above the state's own is
/// rendered as an id lexicographically above every canonical id the state
/// holds — those allocated in this run and those recovered from the log.
/// `wal_new_tx` allocates exactly such an id.
pub proof fn lemma_monotonic_ids(db: DBState, t: Seq<char>, n: u64)
    requires
        db.wf(),
        db.txs.as_map().contains_key(t),
        is_canon_id(t),
        n > db.last_tx,
    ensures
        lex_lt(t, pad_seq(n as nat, 20)),
{
    lemma_canon_is_canon(n as nat);
    lemma_u64_fits_pad20();
    lemma_pad_seq_val(n as nat, 20);
    lemma_dec_lex(t, pad_seq(n as nat, 20));
}

/// A value is a sound scan source: it is stored under a non-meta physical
/// key whose logical part lies in `[start, end]`, whose writer committed,
/// and whose writer's id is older than the reader's.
pub open spec fn scan_source(
    kvs: Seq<(Seq<char>, Seq<char>)>,
    txs: Map<Seq<char>, bool>,
    start: Seq<char>,
    end: Seq<char>,
    reader: Seq<char>,
    v: Seq<char>,
) -> bool {
    exists|m: int|
        0 <= m < kvs.len() && v == (#[trigger] kvs[m]).1 && !is_meta_seq(kvs[m].0) && has_colon(
            kvs[m].0,
        ) && lex_le(start, user_part(kvs[m].0)) && lex_le(user_part(kvs[m].0), end) && committed(
            txs,
            tx_part(kvs[m].0),
        ) && lex_lt(tx_part(kvs[m].0), reader)
}

/// Scan soundness: every value the scan walk collects is a sound scan
/// source. With the meta exclusion built into `scan_source`, no scan
/// result carries data stored under a meta-prefixed physical key.
pub proof fn lemma_scan_sound(
    kvs: Seq<(Seq<char>, Seq<char>)>,
    txs: Map<Seq<char>, bool>,
    start: Seq<char>,
    end: Seq<char>,
    reader: Seq<char>,
    j: int,
    seen: Set<Seq<char>>,
)
    ensures
        forall|x: int| 0 <= x < scan_walk(kvs, txs, start, end, reader, j, seen).len()
            ==> scan_source(
            kvs,
            txs,
            start,
            end,
            reader,
            #[trigger] scan_walk(kvs, txs, start, end, reader, j, seen)[x],
        ),
    decreases j,
{
    if 0 < j <= kvs.len() {
        let e = kvs[j - 1];
        let w = scan_walk(kvs, txs, start, end, reader, j, seen);
        if !crate::strutil::lex_le(e.0, crate::keys::seek_bound(end)) || is_meta_seq(e.0) {
            lemma_scan_sound(kvs, txs, start, end, reader, j - 1, seen);
            let rest = scan_walk(kvs, txs, start, end, reader, j - 1, seen);
            assert forall|x: int| 0 <= x < w.len() implies scan_source(
                kvs,
                txs,
                start,
                end,
                reader,
                w[x],
            ) by {
                assert(w[x] == rest[x]);
            }
        } else {
            let u = if has_colon(e.0) {
                user_part(e.0)
            } else {
                e.0
            };
            if lex_lt(u, start) {
            } else if has_colon(e.0) && lex_le(u, end) && committed(txs, tx_part(e.0)) && lex_lt(
                tx_part(e.0),
                reader,
            ) && !seen.contains(u) {
                lemma_scan_sound(kvs, txs, start, end, reader, j - 1, seen.insert(u));
                let rest = scan_walk(kvs, txs, start, end, reader, j - 1, seen.insert(u));
                lemma_lex_total(u, start);
                assert forall|x: int| 0 <= x < w.len() implies scan_source(
                    kvs,
                    txs,
                    start,
                    end,
                    reader,
                    w[x],
                ) by {
                    if x == 0 {
                        assert(w[0] == e.1);
                        assert(0 <= j - 1 < kvs.len() && w[0] == kvs[j - 1].1);
                    } else {
                        assert(w[x] == rest[x - 1]);
                    }
                }
            } else {
                lemma_scan_sound(kvs, txs, start, end, reader, j - 1, seen);
                let rest = scan_walk(kvs, txs, start, end, reader, j - 1, seen);
                assert forall|x: int| 0 <= x < w.len() implies scan_source(
                    kvs,
                    txs,
                    start,
                    end,
                    reader,
                    w[x],
                ) by {
                    assert(w[x] == rest[x]);
                }
            }
        }
    }
}

/// Auto-increment uniqueness: an insert leaves the counter at the
/// successor of the id it returned, so the next successful insert into the
/// same table returns a strictly larger, hence distinct, id.
pub proof fn lemma_autoincrement_unique(s1: Store, table: Seq<char>, id1: nat)
    requires
        s1.contains_key(crate::keys::autoinc_of(table)),
        s1.value_of(crate::keys::autoinc_of(table)) == crate::numstr::dec_seq(id1 + 1),
    ensures
        crate::rows::counter_val(s1, table) == id1 + 1,
        crate::rows::counter_val(s1, table) != id1,
        id1 + 1 < u64::MAX ==> crate::rows::counter_ok(s1, table),
{
    crate::numstr::lemma_dec_seq_val(id1 + 1);
}

/// Meta exclusion for point reads: a version of a non-meta logical key
/// lives under a non-meta physical key, so `get` on a non-meta key never
/// returns data stored under the meta prefix. (Scans, row reads and index
/// reads skip meta entries outright.)
pub proof fn lemma_get_meta_exclusion(key: Seq<char>, t: Seq<char>)
    requires
        !is_meta_seq(key),
    ensures
        !is_meta_seq(phys_of(key, t)),
{
    let p = phys_of(key, t);
    if p.len() >= 2 {
        if key.len() >= 2 {
            assert(p[0] == key[0] && p[1] == key[1]);
        } else if key.len() == 1 {
            assert(p[1] == ':');
            crate::strutil::lemma_char_inj(':', '*');
        } else {
            assert(p[0] == ':');
            crate::strutil::lemma_char_inj(':', '*');
        }
    }
}


/// Store entry `m` holds a version some reader accepts: a non-meta
/// colon-bearing key whose writer committed before the reader's id.
pub open spec fn vis_at(
    kvs: Seq<(Seq<char>, Seq<char>)>,
    txs: Map<Seq<char>, bool>,
    reader: Seq<char>,
    m: int,
) -> bool {
    &&& 0 <= m < kvs.len()
    &&& !is_meta_seq(kvs[m].0)
    &&& has_colon(kvs[m].0)
    &&& committed(txs, tx_part(kvs[m].0))
    &&& lex_lt(tx_part(kvs[m].0), reader)
}

/// `v` is the value of the newest accepted version of logical key `u`: the
/// highest store index carrying one.
pub open spec fn newest_of(
    kvs: Seq<(Seq<char>, Seq<char>)>,
    txs: Map<Seq<char>, bool>,
    reader: Seq<char>,
    u: Seq<char>,
    v: Seq<char>,
) -> bool {
    exists|m: int|
        #[trigger] vis_at(kvs, txs, reader, m) && user_part(kvs[m].0) == u && v == kvs[m].1 && (
        forall|m2: int| #[trigger] vis_at(kvs, txs, reader, m2) && user_part(kvs[m2].0) == u
            ==> m2 <= m)
}

pub open spec fn in_range(start: Seq<char>, end: Seq<char>, u: Seq<char>) -> bool {
    lex_le(start, u) && lex_le(u, end)
}

/// Keys strictly ascending: the shape a well-formed store's pairs have.
pub open spec fn sorted_kvs(kvs: Seq<(Seq<char>, Seq<char>)>) -> bool {
    forall|a: int, b: int| 0 <= a < b < kvs.len()
        ==> lex_lt((#[trigger] kvs[a]).0, (#[trigger] kvs[b]).0)
}

/// Every version suffix in the store is a canonical transaction id.
pub open spec fn ids_canonical(kvs: Seq<(Seq<char>, Seq<char>)>) -> bool {
    forall|m: int| 0 <= m < kvs.len() && has_colon((#[trigger] kvs[m]).0) && !is_meta_seq(kvs[m].0)
        ==> is_canon_id(tx_part(kvs[m].0))
}

/// The logical keys a scan can meet, together with the range ends.
pub open spec fn scan_family(
    kvs: Seq<(Seq<char>, Seq<char>)>,
    start: Seq<char>,
    end: Seq<char>,
    u: Seq<char>,
) -> bool {
    ||| u == start
    ||| u == end
    ||| exists|m: int| 0 <= m < kvs.len() && !is_meta_seq((#[trigger] kvs[m]).0) && (if has_colon(
        kvs[m].0,
    ) {
        user_part(kvs[m].0) == u
    } else {
        kvs[m].0 == u
    })
}

/// No key a scan can meet is a prefix of another: the shape under which the
/// reverse seek bound and the stop rule are exact.
pub open spec fn keys_separated(
    kvs: Seq<(Seq<char>, Seq<char>)>,
    start: Seq<char>,
    end: Seq<char>,
) -> bool {
    forall|a: Seq<char>, b: Seq<char>|
        #[trigger] scan_family(kvs, start, end, a) && #[trigger] scan_family(kvs, start, end, b)
            && a != b ==> !crate::strutil::is_prefix(a, b)
}

/// Under separated keys and a canonical id, a version of `u` lies at or
/// below `end`'s seek bound exactly when `u` lies at or below `end`.
proof fn lemma_version_vs_bound(u: Seq<char>, t: Seq<char>, end: Seq<char>)
    requires
        is_canon_id(t),
        u != end ==> !crate::strutil::is_prefix(u, end) && !crate::strutil::is_prefix(end, u),
    ensures
        lex_le(phys_of(u, t), crate::keys::seek_bound(end)) == lex_le(u, end),
{
    let p = phys_of(u, t);
    let bd = crate::keys::seek_bound(end);
    if u == end {
        crate::keys::lemma_phys_vs_bound(u, t);
        lemma_canon_below_nine(t);
    } else {
        lemma_lex_total(u, end);
        if lex_lt(u, end) {
            let i = crate::strutil::lemma_lex_first_diff(u, end);
            assert(forall|j: int| 0 <= j < u.len() ==> p[j] == u[j]);
            assert(forall|j: int| 0 <= j < end.len() ==> bd[j] == end[j]);
            crate::strutil::lemma_lex_at_index(p, bd, i);
        } else {
            let i = crate::strutil::lemma_lex_first_diff(end, u);
            assert(forall|j: int| 0 <= j < u.len() ==> p[j] == u[j]);
            assert(forall|j: int| 0 <= j < end.len() ==> bd[j] == end[j]);
            crate::strutil::lemma_lex_at_index(bd, p, i);
            assert(lex_lt(bd, p));
            lemma_lex_asym(bd, p);
            if p == bd {
                lemma_lex_irrefl(p);
            }
            lemma_lex_asym(end, u);
        }
    }
}

/// The logical keys the scan walk takes, newest-first, parallel to the
/// values `scan_walk` collects.
pub open spec fn scan_walk_keys(
    kvs: Seq<(Seq<char>, Seq<char>)>,
    txs: Map<Seq<char>, bool>,
    start: Seq<char>,
    end: Seq<char>,
    reader: Seq<char>,
    j: int,
    seen: Set<Seq<char>>,
) -> Seq<Seq<char>>
    decreases j,
{
    if j <= 0 || j > kvs.len() {
        Seq::empty()
    } else {
        let e = kvs[j - 1];
        if !lex_le(e.0, crate::keys::seek_bound(end)) || is_meta_seq(e.0) {
            scan_walk_keys(kvs, txs, start, end, reader, j - 1, seen)
        } else {
            let u = if has_colon(e.0) {
                user_part(e.0)
            } else {
                e.0
            };
            if lex_lt(u, start) {
                Seq::empty()
            } else if has_colon(e.0) && lex_le(u, end) && committed(txs, tx_part(e.0)) && lex_lt(
                tx_part(e.0),
                reader,
            ) && !seen.contains(u) {
                seq![u] + scan_walk_keys(kvs, txs, start, end, reader, j - 1, seen.insert(u))
            } else {
                scan_walk_keys(kvs, txs, start, end, reader, j - 1, seen)
            }
        }
    }
}

/// Scan range, completeness: under three provisos — the store's keys
/// ascend, every version suffix is canonical, and the keys the scan can
/// meet are pairwise prefix-independent — every logical key in
/// `[start, end]` carrying an accepted version not yet emitted appears
/// among the keys the walk takes.
pub proof fn lemma_scan_complete(
    kvs: Seq<(Seq<char>, Seq<char>)>,
    txs: Map<Seq<char>, bool>,
    start: Seq<char>,
    end: Seq<char>,
    reader: Seq<char>,
    j: int,
    seen: Set<Seq<char>>,
)
    requires
        sorted_kvs(kvs),
        ids_canonical(kvs),
        keys_separated(kvs, start, end),
        0 <= j <= kvs.len(),
        forall|m: int| j <= m < kvs.len() && #[trigger] vis_at(kvs, txs, reader, m) && in_range(
            start,
            end,
            user_part(kvs[m].0),
        ) ==> seen.contains(user_part(kvs[m].0)),
    ensures
        forall|m: int| 0 <= m < j && #[trigger] vis_at(kvs, txs, reader, m) && in_range(
            start,
            end,
            user_part(kvs[m].0),
        ) && !seen.contains(user_part(kvs[m].0)) ==> exists|x: int|
            0 <= x < scan_walk_keys(kvs, txs, start, end, reader, j, seen).len()
                && #[trigger] scan_walk_keys(kvs, txs, start, end, reader, j, seen)[x]
                == user_part(kvs[m].0),
    decreases j,
{
    if j <= 0 {
    } else {
        let e = kvs[j - 1];
        let wk = scan_walk_keys(kvs, txs, start, end, reader, j, seen);
        let bd = crate::keys::seek_bound(end);
        if !lex_le(e.0, bd) || is_meta_seq(e.0) {
            assert(!(vis_at(kvs, txs, reader, j - 1) && in_range(start, end, user_part(e.0))))
                by {
                if vis_at(kvs, txs, reader, j - 1) && in_range(start, end, user_part(e.0)) {
                    crate::kv::lemma_split_recompose(e.0);
                    assert(scan_family(kvs, start, end, user_part(e.0)));
                    assert(scan_family(kvs, start, end, end));
                    lemma_version_vs_bound(user_part(e.0), tx_part(e.0), end);
                }
            }
            lemma_scan_complete(kvs, txs, start, end, reader, j - 1, seen);
            assert(wk == scan_walk_keys(kvs, txs, start, end, reader, j - 1, seen));
        } else {
            let u = if has_colon(e.0) {
                user_part(e.0)
            } else {
                e.0
            };
            if lex_lt(u, start) {
                assert forall|m: int| 0 <= m < j && #[trigger] vis_at(kvs, txs, reader, m)
                    && in_range(start, end, user_part(kvs[m].0)) implies false by {
                    lemma_below_start(kvs, txs, start, end, reader, j, m);
                    lemma_lex_asym(user_part(kvs[m].0), start);
                }
            } else if has_colon(e.0) && lex_le(u, end) && committed(txs, tx_part(e.0)) && lex_lt(
                tx_part(e.0),
                reader,
            ) && !seen.contains(u) {
                let seen2 = seen.insert(u);
                assert forall|m: int| j - 1 <= m < kvs.len() && #[trigger] vis_at(
                    kvs,
                    txs,
                    reader,
                    m,
                ) && in_range(start, end, user_part(kvs[m].0)) implies seen2.contains(
                    user_part(kvs[m].0),
                ) by {
                    if m == j - 1 {
                        crate::kv::lemma_split_recompose(e.0);
                    }
                }
                lemma_scan_complete(kvs, txs, start, end, reader, j - 1, seen2);
                let rk = scan_walk_keys(kvs, txs, start, end, reader, j - 1, seen2);
                assert(wk == seq![u] + rk);
                assert forall|m: int| 0 <= m < j && #[trigger] vis_at(kvs, txs, reader, m)
                    && in_range(start, end, user_part(kvs[m].0)) && !seen.contains(
                    user_part(kvs[m].0),
                ) implies exists|x: int| 0 <= x < wk.len() && #[trigger] wk[x] == user_part(
                    kvs[m].0,
                ) by {
                    let um = user_part(kvs[m].0);
                    crate::kv::lemma_split_recompose(e.0);
                    if um == u {
                        assert(wk[0] == u);
                    } else {
                        assert(m < j - 1);
                        assert(!seen2.contains(um));
                        let x = choose|x: int| 0 <= x < rk.len() && #[trigger] rk[x] == um;
                        assert(wk[x + 1] == rk[x]);
                    }
                }
            } else {
                assert forall|m: int| j - 1 <= m < kvs.len() && #[trigger] vis_at(
                    kvs,
                    txs,
                    reader,
                    m,
                ) && in_range(start, end, user_part(kvs[m].0)) implies seen.contains(
                    user_part(kvs[m].0),
                ) by {
                    if m == j - 1 {
                        crate::kv::lemma_split_recompose(e.0);
                        if !seen.contains(u) {
                            assert(lex_le(start, u));
                            assert(lex_le(u, end));
                            assert(false);
                        }
                    }
                }
                lemma_scan_complete(kvs, txs, start, end, reader, j - 1, seen);
                assert(wk == scan_walk_keys(kvs, txs, start, end, reader, j - 1, seen));
                assert forall|m: int| 0 <= m < j && #[trigger] vis_at(kvs, txs, reader, m)
                    && in_range(start, end, user_part(kvs[m].0)) && !seen.contains(
                    user_part(kvs[m].0),
                ) implies exists|x: int| 0 <= x < wk.len() && #[trigger] wk[x] == user_part(
                    kvs[m].0,
                ) by {
                    assert(m < j - 1) by {
                        if m == j - 1 {
                            crate::kv::lemma_split_recompose(e.0);
                        }
                    }
                }
            }
        }
    }
}

/// When the walk stops at an entry whose logical key sorts below `start`,
/// every version at or below it belongs to a logical key below `start`.
proof fn lemma_below_start(
    kvs: Seq<(Seq<char>, Seq<char>)>,
    txs: Map<Seq<char>, bool>,
    start: Seq<char>,
    end: Seq<char>,
    reader: Seq<char>,
    j: int,
    m: int,
)
    requires
        sorted_kvs(kvs),
        keys_separated(kvs, start, end),
        0 < j <= kvs.len(),
        !is_meta_seq(kvs[j - 1].0),
        lex_lt(
            if has_colon(kvs[j - 1].0) {
                user_part(kvs[j - 1].0)
            } else {
                kvs[j - 1].0
            },
            start,
        ),
        0 <= m < j,
    ensures
        vis_at(kvs, txs, reader, m) ==> lex_lt(user_part(kvs[m].0), start),
{
    let e = kvs[j - 1];
    let u = if has_colon(e.0) {
        user_part(e.0)
    } else {
        e.0
    };
    if vis_at(kvs, txs, reader, m) {
        let um = user_part(kvs[m].0);
        crate::kv::lemma_split_recompose(kvs[m].0);
        assert(scan_family(kvs, start, end, um));
        if m == j - 1 {
        } else {
            assert(lex_lt(kvs[m].0, e.0));
            if has_colon(e.0) {
                crate::kv::lemma_split_recompose(e.0);
                assert(scan_family(kvs, start, end, u));
                if um != u {
                    lemma_lex_total(um, u);
                    if lex_lt(u, um) {
                        crate::strutil::lemma_phys_sep(u, tx_part(e.0), um, tx_part(kvs[m].0));
                        lemma_lex_asym(e.0, kvs[m].0);
                    }
                    lemma_lex_trans(um, u, start);
                }
            } else {
                assert(scan_family(kvs, start, end, u));
                if um != u {
                    lemma_lex_total(um, u);
                    if lex_lt(u, um) {
                        crate::strutil::lemma_plain_below_phys(u, um, tx_part(kvs[m].0));
                        lemma_lex_asym(e.0, kvs[m].0);
                    }
                    lemma_lex_trans(um, u, start);
                }
            }
        }
    }
}

/// Scan range, pairing and order: under the same provisos, the walk's
/// values and keys run in parallel — each value is the newest accepted
/// version of its key, each key lies in the range and was not seen before,
/// each taken key names a store entry below `j`, and the keys strictly
/// descend (so the reversed result ascends).
pub proof fn lemma_scan_paired(
    kvs: Seq<(Seq<char>, Seq<char>)>,
    txs: Map<Seq<char>, bool>,
    start: Seq<char>,
    end: Seq<char>,
    reader: Seq<char>,
    j: int,
    seen: Set<Seq<char>>,
)
    requires
        sorted_kvs(kvs),
        ids_canonical(kvs),
        keys_separated(kvs, start, end),
        0 <= j <= kvs.len(),
        forall|m: int| j <= m < kvs.len() && #[trigger] vis_at(kvs, txs, reader, m) && in_range(
            start,
            end,
            user_part(kvs[m].0),
        ) ==> seen.contains(user_part(kvs[m].0)),
    ensures
        scan_walk_keys(kvs, txs, start, end, reader, j, seen).len() == scan_walk(
            kvs,
            txs,
            start,
            end,
            reader,
            j,
            seen,
        ).len(),
        forall|x: int| 0 <= x < scan_walk_keys(kvs, txs, start, end, reader, j, seen).len()
            ==> in_range(start, end, #[trigger] scan_walk_keys(kvs, txs, start, end, reader, j, seen)[x])
            && !seen.contains(scan_walk_keys(kvs, txs, start, end, reader, j, seen)[x])
            && newest_of(
            kvs,
            txs,
            reader,
            scan_walk_keys(kvs, txs, start, end, reader, j, seen)[x],
            scan_walk(kvs, txs, start, end, reader, j, seen)[x],
        ) && (exists|m: int| 0 <= m < j && #[trigger] vis_at(kvs, txs, reader, m) && user_part(
            kvs[m].0,
        ) == scan_walk_keys(kvs, txs, start, end, reader, j, seen)[x]),
        forall|x1: int, x2: int|
            0 <= x1 < x2 < scan_walk_keys(kvs, txs, start, end, reader, j, seen).len() ==> lex_lt(
                #[trigger] scan_walk_keys(kvs, txs, start, end, reader, j, seen)[x2],
                #[trigger] scan_walk_keys(kvs, txs, start, end, reader, j, seen)[x1],
            ),
    decreases j,
{
    if j <= 0 {
    } else {
        let e = kvs[j - 1];
        let w = scan_walk(kvs, txs, start, end, reader, j, seen);
        let wk = scan_walk_keys(kvs, txs, start, end, reader, j, seen);
        let bd = crate::keys::seek_bound(end);
        if !lex_le(e.0, bd) || is_meta_seq(e.0) {
            assert(!(vis_at(kvs, txs, reader, j - 1) && in_range(start, end, user_part(e.0))))
                by {
                if vis_at(kvs, txs, reader, j - 1) && in_range(start, end, user_part(e.0)) {
                    crate::kv::lemma_split_recompose(e.0);
                    assert(scan_family(kvs, start, end, user_part(e.0)));
                    assert(scan_family(kvs, start, end, end));
                    lemma_version_vs_bound(user_part(e.0), tx_part(e.0), end);
                }
            }
            lemma_scan_paired(kvs, txs, start, end, reader, j - 1, seen);
        } else {
            let u = if has_colon(e.0) {
                user_part(e.0)
            } else {
                e.0
            };
            if lex_lt(u, start) {
            } else if has_colon(e.0) && lex_le(u, end) && committed(txs, tx_part(e.0)) && lex_lt(
                tx_part(e.0),
                reader,
            ) && !seen.contains(u) {
                let seen2 = seen.insert(u);
                assert forall|m: int| j - 1 <= m < kvs.len() && #[trigger] vis_at(
                    kvs,
                    txs,
                    reader,
                    m,
                ) && in_range(start, end, user_part(kvs[m].0)) implies seen2.contains(
                    user_part(kvs[m].0),
                ) by {
                    if m == j - 1 {
                        crate::kv::lemma_split_recompose(e.0);
                    }
                }
                lemma_scan_paired(kvs, txs, start, end, reader, j - 1, seen2);
                let rw = scan_walk(kvs, txs, start, end, reader, j - 1, seen2);
                let rk = scan_walk_keys(kvs, txs, start, end, reader, j - 1, seen2);
                assert(w == seq![e.1] + rw);
                assert(wk == seq![u] + rk);
                crate::kv::lemma_split_recompose(e.0);
                lemma_lex_total(u, start);
                assert(vis_at(kvs, txs, reader, j - 1));
                assert forall|m2: int| #[trigger] vis_at(kvs, txs, reader, m2) && user_part(
                    kvs[m2].0,
                ) == u implies m2 <= j - 1 by {
                    if m2 >= j {
                        assert(in_range(start, end, user_part(kvs[m2].0)));
                        assert(seen.contains(u));
                    }
                }
                assert(newest_of(kvs, txs, reader, u, e.1));
                assert forall|x: int| 0 <= x < wk.len() implies in_range(start, end, #[trigger] wk[x])
                    && !seen.contains(wk[x]) && newest_of(kvs, txs, reader, wk[x], w[x]) && (
                exists|m: int| 0 <= m < j && #[trigger] vis_at(kvs, txs, reader, m) && user_part(
                    kvs[m].0,
                ) == wk[x]) by {
                    if x == 0 {
                        assert(wk[0] == u && w[0] == e.1);
                        assert(vis_at(kvs, txs, reader, j - 1) && user_part(kvs[j - 1].0) == u);
                    } else {
                        assert(wk[x] == rk[x - 1] && w[x] == rw[x - 1]);
                        assert(!seen2.contains(rk[x - 1]));
                    }
                }
                assert forall|x1: int, x2: int| 0 <= x1 < x2 < wk.len() implies lex_lt(
                    #[trigger] wk[x2],
                    #[trigger] wk[x1],
                ) by {
                    if x1 == 0 {
                        let k2 = rk[x2 - 1];
                        assert(wk[x2] == k2);
                        let m = choose|m: int|
                            0 <= m < j - 1 && #[trigger] vis_at(kvs, txs, reader, m) && user_part(
                                kvs[m].0,
                            ) == k2;
                        crate::kv::lemma_split_recompose(kvs[m].0);
                        assert(scan_family(kvs, start, end, k2));
                        assert(scan_family(kvs, start, end, u));
                        assert(k2 != u) by {
                            assert(!seen2.contains(k2));
                        }
                        lemma_lex_total(k2, u);
                        if lex_lt(u, k2) {
                            assert(lex_lt(kvs[m].0, e.0));
                            crate::strutil::lemma_phys_sep(u, tx_part(e.0), k2, tx_part(kvs[m].0));
                            lemma_lex_asym(e.0, kvs[m].0);
                        }
                    } else {
                        assert(wk[x1] == rk[x1 - 1] && wk[x2] == rk[x2 - 1]);
                    }
                }
            } else {
                assert forall|m: int| j - 1 <= m < kvs.len() && #[trigger] vis_at(
                    kvs,
                    txs,
                    reader,
                    m,
                ) && in_range(start, end, user_part(kvs[m].0)) implies seen.contains(
                    user_part(kvs[m].0),
                ) by {
                    if m == j - 1 {
                        crate::kv::lemma_split_recompose(e.0);
                        if !seen.contains(u) {
                            assert(lex_le(start, u));
                            assert(lex_le(u, end));
                            assert(false);
                        }
                    }
                }
                lemma_scan_paired(kvs, txs, start, end, reader, j - 1, seen);
            }
        }
    }
}


/// Recovery soundness, operationally: a state built over the same store
/// from a replay of `db`'s log decides every read's visibility exactly as
/// `db` does.
pub proof fn lemma_restart_equivalence(db: DBState, db2: DBState)
    requires
        db.wf(),
        db2.txs.as_map() == recover_txs(lines_view(db.wal@)),
        forall|k: Seq<char>| db2.db.contains_key(k) == db.db.contains_key(k),
        forall|k: Seq<char>| db.db.contains_key(k) ==> db2.db.value_of(k) == db.db.value_of(k),
    ensures
        db2.txs.as_map() == db.txs.as_map(),
        forall|key: Seq<char>, t: Seq<char>, reader: Seq<char>|
            vis(db2.db, db2.txs.as_map(), key, t, reader) == vis(db.db, db.txs.as_map(), key, t, reader),
        forall|key: Seq<char>, t: Seq<char>| db.db.contains_key(phys_of(key, t))
            ==> #[trigger] db2.db.value_of(phys_of(key, t)) == db.db.value_of(phys_of(key, t)),
{
    assert forall|key: Seq<char>, t: Seq<char>, reader: Seq<char>|
        vis(db2.db, db2.txs.as_map(), key, t, reader) == vis(
        db.db,
        db.txs.as_map(),
        key,
        t,
        reader,
    ) by {
        assert(db2.db.contains_key(phys_of(key, t)) == db.db.contains_key(phys_of(key, t)));
    }
}

/// A store entry that the startup cache walk accepts: non-meta, versioned,
/// and committed.
pub open spec fn cache_entry(
    kvs: Seq<(Seq<char>, Seq<char>)>,
    txs: Map<Seq<char>, bool>,
    m: int,
) -> bool {
    &&& 0 <= m < kvs.len()
    &&& !is_meta_seq(kvs[m].0)
    &&& has_colon(kvs[m].0)
    &&& committed(txs, tx_part(kvs[m].0))
}

/// The startup cache holds exactly the logical keys with a committed
/// version, and for each the value of its newest committed version: the
/// ascending walk lets the last, hence newest, version win.
pub proof fn lemma_cache_newest(
    kvs: Seq<(Seq<char>, Seq<char>)>,
    txs: Map<Seq<char>, bool>,
    u: Seq<char>,
)
    requires
        sorted_kvs(kvs),
    ensures
        crate::engine::cache_of(kvs, txs).contains_key(u) == exists|m: int|
            #[trigger] cache_entry(kvs, txs, m) && user_part(kvs[m].0) == u,
        crate::engine::cache_of(kvs, txs).contains_key(u) ==> exists|m: int|
            #[trigger] cache_entry(kvs, txs, m) && user_part(kvs[m].0) == u && crate::engine::cache_of(
            kvs,
            txs,
        )[u] == kvs[m].1 && (forall|m2: int|
            #[trigger] cache_entry(kvs, txs, m2) && user_part(kvs[m2].0) == u ==> lex_le(
                tx_part(kvs[m2].0),
                tx_part(kvs[m].0),
            )),
    decreases kvs.len(),
{
    if kvs.len() > 0 {
        let d = kvs.drop_last();
        assert(forall|p: int| 0 <= p < d.len() ==> d[p] == kvs[p]);
        assert(sorted_kvs(d)) by {
            assert(forall|a: int, b: int| 0 <= a < b < d.len() ==> lex_lt(
                (#[trigger] d[a]).0,
                (#[trigger] d[b]).0,
            ));
        }
        lemma_cache_newest(d, txs, u);
        let e = kvs.last();
        let n = kvs.len() as int;
        let c = crate::engine::cache_of(kvs, txs);
        let cd = crate::engine::cache_of(d, txs);
        assert forall|m: int| 0 <= m < n - 1 implies (cache_entry(kvs, txs, m) == cache_entry(
            d,
            txs,
            m,
        )) by {
            assert(d[m] == kvs[m]);
        }
        if !is_meta_seq(e.0) && has_colon(e.0) && committed(txs, tx_part(e.0)) {
            assert(cache_entry(kvs, txs, n - 1));
            assert(c == cd.insert(user_part(e.0), e.1));
            if user_part(e.0) == u {
                assert(c.contains_key(u) && c[u] == e.1);
                assert forall|m2: int| #[trigger] cache_entry(kvs, txs, m2) && user_part(
                    kvs[m2].0,
                ) == u implies lex_le(tx_part(kvs[m2].0), tx_part(e.0)) by {
                    if m2 < n - 1 {
                        assert(lex_lt(kvs[m2].0, e.0));
                        crate::kv::lemma_split_recompose(kvs[m2].0);
                        crate::kv::lemma_split_recompose(e.0);
                        crate::strutil::lemma_phys_order(u, tx_part(kvs[m2].0), tx_part(e.0));
                    } else {
                        lemma_lex_irrefl(tx_part(e.0));
                    }
                }
            } else {
                if c.contains_key(u) {
                    let m = choose|m: int|
                        #[trigger] cache_entry(d, txs, m) && user_part(d[m].0) == u && cd[u]
                            == d[m].1 && (forall|m2: int|
                            #[trigger] cache_entry(d, txs, m2) && user_part(d[m2].0) == u
                                ==> lex_le(tx_part(d[m2].0), tx_part(d[m].0)));
                    assert(cache_entry(kvs, txs, m) && user_part(kvs[m].0) == u);
                    assert forall|m2: int| #[trigger] cache_entry(kvs, txs, m2) && user_part(
                        kvs[m2].0,
                    ) == u implies lex_le(tx_part(kvs[m2].0), tx_part(kvs[m].0)) by {
                        assert(m2 < n - 1);
                        assert(cache_entry(d, txs, m2) && user_part(d[m2].0) == u);
                    }
                }
                if exists|m: int| #[trigger] cache_entry(kvs, txs, m) && user_part(kvs[m].0)
                    == u {
                    let m = choose|m: int|
                        #[trigger] cache_entry(kvs, txs, m) && user_part(kvs[m].0) == u;
                    assert(m < n - 1);
                    assert(cache_entry(d, txs, m) && user_part(d[m].0) == u);
                }
            }
        } else {
            assert(c == cd);
            if exists|m: int| #[trigger] cache_entry(kvs, txs, m) && user_part(kvs[m].0) == u {
                let m = choose|m: int|
                    #[trigger] cache_entry(kvs, txs, m) && user_part(kvs[m].0) == u;
                assert(m < n - 1);
                assert(cache_entry(d, txs, m) && user_part(d[m].0) == u);
            }
            if c.contains_key(u) {
                let m = choose|m: int|
                    #[trigger] cache_entry(d, txs, m) && user_part(d[m].0) == u && cd[u] == d[m].1
                        && (forall|m2: int|
                        #[trigger] cache_entry(d, txs, m2) && user_part(d[m2].0) == u ==> lex_le(
                            tx_part(d[m2].0),
                            tx_part(d[m].0),
                        ));
                assert(cache_entry(kvs, txs, m) && user_part(kvs[m].0) == u);
                assert forall|m2: int| #[trigger] cache_entry(kvs, txs, m2) && user_part(
                    kvs[m2].0,
                ) == u implies lex_le(tx_part(kvs[m2].0), tx_part(kvs[m].0)) by {
                    assert(m2 < n - 1);
                    assert(cache_entry(d, txs, m2) && user_part(d[m2].0) == u);
                }
            }
        }
    }
}


/// The row walk preserves a column the accumulator already holds.
proof fn lemma_row_walk_keeps_one(
    kvs: Seq<(Seq<char>, Seq<char>)>,
    txs: Map<Seq<char>, bool>,
    table: Seq<char>,
    id: nat,
    j: int,
    acc: Map<Seq<char>, Seq<char>>,
    c: Seq<char>,
)
    requires
        acc.contains_key(c),
    ensures
        crate::rows::row_walk(kvs, txs, table, id, j, acc) is Some
            ==> crate::rows::row_walk(kvs, txs, table, id, j, acc).unwrap().contains_key(c)
            && crate::rows::row_walk(kvs, txs, table, id, j, acc).unwrap()[c] == acc[c],
    decreases j,
{
    if 0 < j <= kvs.len() {
        let e = kvs[j - 1];
        if !lex_le(e.0, crate::rows::row_bound(table, id)) || is_meta_seq(e.0) {
            lemma_row_walk_keeps_one(kvs, txs, table, id, j - 1, acc, c);
        } else if !(has_colon(e.0) && crate::keys::field1(e.0).len() > 0
            && crate::numstr::all_digits(crate::keys::field1(e.0)) && dec_val(
            crate::keys::field1(e.0),
        ) <= u64::MAX) {
        } else {
            let pk = dec_val(crate::keys::field1(e.0));
            if pk == id {
                if has_colon(crate::strutil::rest_fields(e.0)) {
                    let c0 = crate::keys::field2(e.0);
                    if committed(txs, tx_part(e.0)) && !acc.contains_key(c0) {
                        lemma_row_walk_keeps_one(kvs, txs, table, id, j - 1, acc.insert(c0, e.1), c);
                    } else {
                        lemma_row_walk_keeps_one(kvs, txs, table, id, j - 1, acc, c);
                    }
                }
            } else if pk < id {
            } else {
                lemma_row_walk_keeps_one(kvs, txs, table, id, j - 1, acc, c);
            }
        }
    }
}

/// Meta exclusion for row reads: every column a completed row walk hands
/// back beyond its accumulator was read from a non-meta, committed store
/// entry carrying that column.
pub proof fn lemma_row_meta_exclusion(
    kvs: Seq<(Seq<char>, Seq<char>)>,
    txs: Map<Seq<char>, bool>,
    table: Seq<char>,
    id: nat,
    j: int,
    acc: Map<Seq<char>, Seq<char>>,
)
    ensures
        crate::rows::row_walk(kvs, txs, table, id, j, acc) matches Some(m) ==> forall|c: Seq<char>|
            #[trigger] m.contains_key(c) ==> acc.contains_key(c) || exists|i: int|
                0 <= i < kvs.len() && !is_meta_seq((#[trigger] kvs[i]).0) && committed(
                    txs,
                    tx_part(kvs[i].0),
                ) && crate::keys::field2(kvs[i].0) == c && kvs[i].1 == m[c],
    decreases j,
{
    if 0 < j <= kvs.len() {
        let e = kvs[j - 1];
        if !lex_le(e.0, crate::rows::row_bound(table, id)) || is_meta_seq(e.0) {
            lemma_row_meta_exclusion(kvs, txs, table, id, j - 1, acc);
        } else if !(has_colon(e.0) && crate::keys::field1(e.0).len() > 0
            && crate::numstr::all_digits(crate::keys::field1(e.0)) && dec_val(
            crate::keys::field1(e.0),
        ) <= u64::MAX) {
        } else {
            let pk = dec_val(crate::keys::field1(e.0));
            if pk == id {
                if has_colon(crate::strutil::rest_fields(e.0)) {
                    let c0 = crate::keys::field2(e.0);
                    if committed(txs, tx_part(e.0)) && !acc.contains_key(c0) {
                        let acc2 = acc.insert(c0, e.1);
                        lemma_row_meta_exclusion(kvs, txs, table, id, j - 1, acc2);
                        lemma_row_walk_keeps_one(kvs, txs, table, id, j - 1, acc2, c0);
                        if crate::rows::row_walk(kvs, txs, table, id, j, acc) is Some {
                            let m = crate::rows::row_walk(kvs, txs, table, id, j, acc).unwrap();
                            assert forall|c: Seq<char>| #[trigger] m.contains_key(c) implies
                                acc.contains_key(c) || exists|i: int|
                                0 <= i < kvs.len() && !is_meta_seq((#[trigger] kvs[i]).0)
                                    && committed(txs, tx_part(kvs[i].0)) && crate::keys::field2(
                                    kvs[i].0,
                                ) == c && kvs[i].1 == m[c] by {
                                if c == c0 {
                                    assert(m.contains_key(c0) && m[c0] == e.1);
                                    assert(0 <= j - 1 < kvs.len() && !is_meta_seq(kvs[j - 1].0)
                                        && committed(txs, tx_part(kvs[j - 1].0))
                                        && crate::keys::field2(kvs[j - 1].0) == c && kvs[j - 1].1
                                        == m[c]);
                                } else if !acc.contains_key(c) {
                                    assert(!acc2.contains_key(c));
                                }
                            }
                        }
                    } else {
                        lemma_row_meta_exclusion(kvs, txs, table, id, j - 1, acc);
                    }
                }
            } else if pk < id {
            } else {
                lemma_row_meta_exclusion(kvs, txs, table, id, j - 1, acc);
            }
        }
    }
}

/// Meta exclusion for index reads: a primary id the index walk yields was
/// read from a non-meta, committed store entry.
pub proof fn lemma_by_col_meta_exclusion(
    kvs: Seq<(Seq<char>, Seq<char>)>,
    txs: Map<Seq<char>, bool>,
    bound: Seq<char>,
    j: int,
)
    ensures
        crate::rows::by_col_walk(kvs, txs, bound, j) matches Some(Some(idn)) ==> exists|i: int|
            0 <= i < kvs.len() && !is_meta_seq((#[trigger] kvs[i]).0) && dec_val(kvs[i].1) == idn,
    decreases j,
{
    if 0 < j <= kvs.len() {
        let e = kvs[j - 1];
        if !lex_le(e.0, bound) || is_meta_seq(e.0) {
            lemma_by_col_meta_exclusion(kvs, txs, bound, j - 1);
        } else {
            let t = if has_colon(e.0) {
                tx_part(e.0)
            } else {
                e.0
            };
            if committed(txs, t) {
                if e.1.len() > 0 && crate::numstr::all_digits(e.1) && dec_val(e.1) <= u64::MAX {
                    assert(0 <= j - 1 < kvs.len() && !is_meta_seq(kvs[j - 1].0) && dec_val(
                        kvs[j - 1].1,
                    ) == dec_val(e.1));
                }
            } else {
                lemma_by_col_meta_exclusion(kvs, txs, bound, j - 1);
            }
        }
    }
}


/// Record `i` of the log is a status record of transaction `t`.
pub open spec fn status_of(lines: Seq<Seq<char>>, t: Seq<char>, i: int) -> bool {
    0 <= i < lines.len() && crate::wal::is_status_line(lines[i]) && crate::wal::status_tx(
        lines[i],
    ) == t
}

/// The trail decides: a transaction is in the recovered table exactly when
/// the log holds a status record of it, and its recovered flag is the flag
/// of the last such record. In particular a transaction's writes are
/// visible after replay iff its trail ends with the COMMIT marker.
pub proof fn lemma_recover_last_status(lines: Seq<Seq<char>>, t: Seq<char>)
    ensures
        recover_txs(lines).contains_key(t) == exists|i: int| status_of(lines, t, i),
        recover_txs(lines).contains_key(t) ==> exists|i: int|
            #[trigger] status_of(lines, t, i) && recover_txs(lines)[t]
                == crate::wal::status_commits(lines[i]) && (forall|i2: int|
                #[trigger] status_of(lines, t, i2) ==> i2 <= i),
    decreases lines.len(),
{
    if lines.len() > 0 {
        let d = lines.drop_last();
        assert(forall|p: int| 0 <= p < d.len() ==> d[p] == lines[p]);
        lemma_recover_last_status(d, t);
        let l = lines.last();
        let n = lines.len() as int;
        assert forall|i: int| 0 <= i < n - 1 implies (status_of(lines, t, i) == status_of(
            d,
            t,
            i,
        )) by {
            assert(d[i] == lines[i]);
        }
        if crate::wal::is_status_line(l) && crate::wal::status_tx(l) == t {
            assert(status_of(lines, t, n - 1));
            assert(recover_txs(lines).contains_key(t));
            assert(recover_txs(lines)[t] == crate::wal::status_commits(l));
            assert forall|i2: int| #[trigger] status_of(lines, t, i2) implies i2 <= n - 1 by {}
        } else {
            if exists|i: int| status_of(lines, t, i) {
                let i = choose|i: int| status_of(lines, t, i);
                assert(i < n - 1);
                assert(status_of(d, t, i));
            }
            if recover_txs(lines).contains_key(t) {
                assert(recover_txs(d).contains_key(t));
                let i = choose|i: int|
                    #[trigger] status_of(d, t, i) && recover_txs(d)[t]
                        == crate::wal::status_commits(d[i]) && (forall|i2: int|
                        #[trigger] status_of(d, t, i2) ==> i2 <= i);
                assert(status_of(lines, t, i));
                assert(recover_txs(lines)[t] == crate::wal::status_commits(lines[i]));
                assert forall|i2: int| #[trigger] status_of(lines, t, i2) implies i2 <= i by {
                    assert(i2 < n - 1);
                    assert(status_of(d, t, i2));
                }
            }
        }
    }
}

/// When a key has exactly two visible versions, the newer is the maximal
/// one, so `get`'s success clause forces its value. Together with
/// `lemma_newest_wins` this decides the read for the two-writes shape.
pub proof fn lemma_two_versions_max(
    s0: Store,
    t0: Map<Seq<char>, bool>,
    key: Seq<char>,
    reader: Seq<char>,
    t1: Seq<char>,
    t2: Seq<char>,
)
    requires
        vis(s0, t0, key, t1, reader),
        vis(s0, t0, key, t2, reader),
        lex_lt(t1, t2),
        forall|u: Seq<char>| #[trigger] vis(s0, t0, key, u, reader) ==> u == t1 || u == t2,
    ensures
        forall|u: Seq<char>| #[trigger] vis(s0, t0, key, u, reader) ==> lex_le(u, t2),
{
}


/// Field extraction from a canonical row key
/// `<table>:<digits>:<column>:<tx>` with colon-free parts: what a caller
/// needs to establish `row_regime` for a store of such keys.
pub proof fn lemma_row_key_fields(table: Seq<char>, d: Seq<char>, c: Seq<char>, t: Seq<char>)
    requires
        crate::strutil::no_colon(table),
        crate::strutil::no_colon(d),
        crate::strutil::no_colon(c),
        crate::strutil::no_colon(t),
    ensures
        ({
            let k = phys_of(crate::keys::joined3(table, d, c), t);
            &&& has_colon(k)
            &&& tx_part(k) == t
            &&& user_part(k) == crate::keys::joined3(table, d, c)
            &&& crate::keys::field1(k) == d
            &&& has_colon(crate::strutil::rest_fields(k))
            &&& crate::keys::field2(k) == c
        }),
{
    let u = crate::keys::joined3(table, d, c);
    let k = phys_of(u, t);
    crate::strutil::lemma_phys_split(u, t);
    assert(has_colon(k)) by {
        assert(k[u.len() as int] == ':');
    }
    let n0 = table.len() as int;
    assert(k[n0] == ':');
    assert(forall|j: int| 0 <= j < n0 ==> k[j] == table[j]);
    assert(crate::strutil::first_colon_at(k, n0));
    crate::strutil::lemma_first_colon_exists(k);
    crate::strutil::lemma_first_colon_unique(k, crate::strutil::first_colon(k), n0);
    let r1 = crate::strutil::rest_fields(k);
    assert(r1 =~= d + seq![':'] + c + seq![':'] + t);
    let n1 = d.len() as int;
    assert(r1[n1] == ':');
    assert(forall|j: int| 0 <= j < n1 ==> r1[j] == d[j]);
    assert(crate::strutil::first_colon_at(r1, n1));
    assert(has_colon(r1));
    crate::strutil::lemma_first_colon_exists(r1);
    crate::strutil::lemma_first_colon_unique(r1, crate::strutil::first_colon(r1), n1);
    assert(crate::keys::field1(k) =~= d);
    let r2 = crate::strutil::rest_fields(r1);
    assert(r2 =~= c + seq![':'] + t);
    let n2 = c.len() as int;
    assert(r2[n2] == ':');
    assert(forall|j: int| 0 <= j < n2 ==> r2[j] == c[j]);
    assert(crate::strutil::first_colon_at(r2, n2));
    assert(has_colon(r2));
    crate::strutil::lemma_first_colon_exists(r2);
    crate::strutil::lemma_first_colon_unique(r2, crate::strutil::first_colon(r2), n2);
    assert(crate::keys::field2(k) =~= c);
}

/// Canonical row keys of one table order as their id digits when those
/// have equal length.
proof fn lemma_row_key_lt(
    table: Seq<char>,
    d1: Seq<char>,
    c1: Seq<char>,
    t1: Seq<char>,
    d2: Seq<char>,
    c2: Seq<char>,
    t2: Seq<char>,
)
    requires
        d1.len() == d2.len(),
        d1 != d2,
        lex_lt(d1, d2),
    ensures
        lex_lt(
            phys_of(crate::keys::joined3(table, d1, c1), t1),
            phys_of(crate::keys::joined3(table, d2, c2), t2),
        ),
{
    let k1 = phys_of(crate::keys::joined3(table, d1, c1), t1);
    let k2 = phys_of(crate::keys::joined3(table, d2, c2), t2);
    assert(!crate::strutil::is_prefix(d1, d2)) by {
        if crate::strutil::is_prefix(d1, d2) {
            assert(d1 =~= d2);
        }
    }
    let i = crate::strutil::lemma_lex_first_diff(d1, d2);
    let n0 = table.len() as int;
    assert(forall|j: int| 0 <= j < n0 ==> k1[j] == table[j] && k2[j] == table[j]);
    assert(k1[n0] == ':' && k2[n0] == ':');
    assert(forall|j: int| 0 <= j < d1.len() ==> k1[n0 + 1 + j] == d1[j]);
    assert(forall|j: int| 0 <= j < d2.len() ==> k2[n0 + 1 + j] == d2[j]);
    crate::strutil::lemma_lex_at_index(k1, k2, n0 + 1 + i);
}

/// A canonical row key lies at or below the row bound of `id` exactly when
/// its id digits are worth at most `id`, provided the digit widths agree.
proof fn lemma_row_key_vs_bound(
    table: Seq<char>,
    d: Seq<char>,
    c: Seq<char>,
    t: Seq<char>,
    id: nat,
)
    requires
        crate::numstr::all_digits(d),
        d.len() == crate::numstr::dec_seq(id + 1).len(),
    ensures
        lex_le(
            phys_of(crate::keys::joined3(table, d, c), t),
            crate::rows::row_bound(table, id),
        ) == (dec_val(d) <= id),
{
    let k = phys_of(crate::keys::joined3(table, d, c), t);
    let bd = crate::rows::row_bound(table, id);
    let e1 = crate::numstr::dec_seq(id + 1);
    crate::numstr::lemma_dec_seq_val(id + 1);
    let n0 = table.len() as int;
    assert(forall|j: int| 0 <= j < n0 ==> k[j] == table[j] && bd[j] == table[j]);
    assert(k[n0] == ':' && bd[n0] == ':');
    assert(forall|j: int| 0 <= j < d.len() ==> k[n0 + 1 + j] == d[j]);
    assert(forall|j: int| 0 <= j < e1.len() ==> bd[n0 + 1 + j] == e1[j]);
    assert(bd.len() == n0 + 1 + e1.len());
    if dec_val(d) <= id {
        crate::numstr::lemma_dec_lex(d, e1);
        assert(d != e1);
        assert(!crate::strutil::is_prefix(d, e1)) by {
            if crate::strutil::is_prefix(d, e1) {
                assert(d =~= e1);
            }
        }
        let i = crate::strutil::lemma_lex_first_diff(d, e1);
        crate::strutil::lemma_lex_at_index(k, bd, n0 + 1 + i);
    } else {
        if dec_val(d) == id + 1 {
            crate::numstr::lemma_dec_inj(d, e1);
            assert(forall|j: int| 0 <= j < bd.len() ==> bd[j] == k[j]);
            assert(bd.len() < k.len()) by {
                assert(k.len() == n0 + 1 + d.len() + 1 + c.len() + 1 + t.len());
            }
            crate::strutil::lemma_lex_prefix_at(bd, k);
            lemma_lex_asym(bd, k);
            if k == bd {
                lemma_lex_irrefl(k);
            }
        } else {
            crate::numstr::lemma_dec_lex(e1, d);
            assert(e1 != d);
            assert(!crate::strutil::is_prefix(e1, d)) by {
                if crate::strutil::is_prefix(e1, d) {
                    assert(e1 =~= d);
                }
            }
            let i = crate::strutil::lemma_lex_first_diff(e1, d);
            crate::strutil::lemma_lex_at_index(bd, k, n0 + 1 + i);
            assert(lex_lt(bd, k));
            lemma_lex_asym(bd, k);
            if k == bd {
                lemma_lex_irrefl(k);
            }
        }
    }
}


/// Store entry `i` is a committed version of row `id`, column `c`, matched
/// the way the row walk matches entries: by its parsed id field and its
/// column field.
pub open spec fn row_src(
    kvs: Seq<(Seq<char>, Seq<char>)>,
    txs: Map<Seq<char>, bool>,
    id: nat,
    c: Seq<char>,
    i: int,
) -> bool {
    &&& 0 <= i < kvs.len()
    &&& !is_meta_seq(kvs[i].0)
    &&& has_colon(kvs[i].0)
    &&& dec_val(crate::keys::field1(kvs[i].0)) == id
    &&& crate::keys::field2(kvs[i].0) == c
    &&& committed(txs, tx_part(kvs[i].0))
}

/// A store in the uniform row regime of one table: every non-meta entry is
/// a canonical row key of `table` whose id digits have width `L` and a
/// value in the counter's range.
pub open spec fn row_regime(kvs: Seq<(Seq<char>, Seq<char>)>, table: Seq<char>, L: nat) -> bool {
    forall|i: int| 0 <= i < kvs.len() && !is_meta_seq((#[trigger] kvs[i]).0) ==> ({
        let k = kvs[i].0;
        &&& has_colon(k)
        &&& crate::keys::field1(k).len() == L
        &&& crate::numstr::all_digits(crate::keys::field1(k))
        &&& dec_val(crate::keys::field1(k)) <= u64::MAX
        &&& has_colon(crate::strutil::rest_fields(k))
        &&& crate::strutil::no_colon(crate::keys::field2(k))
        &&& crate::strutil::no_colon(tx_part(k))
        &&& k == phys_of(
            crate::keys::joined3(table, crate::keys::field1(k), crate::keys::field2(k)),
            tx_part(k),
        )
    })
}

/// In a sorted uniform-regime store, parsed id fields ascend with position.
proof fn lemma_regime_pk_mono(
    kvs: Seq<(Seq<char>, Seq<char>)>,
    table: Seq<char>,
    L: nat,
    i1: int,
    i2: int,
)
    requires
        sorted_kvs(kvs),
        row_regime(kvs, table, L),
        0 <= i1 < i2 < kvs.len(),
        !is_meta_seq(kvs[i1].0),
        !is_meta_seq(kvs[i2].0),
    ensures
        dec_val(crate::keys::field1(kvs[i1].0)) <= dec_val(crate::keys::field1(kvs[i2].0)),
{
    let f1 = crate::keys::field1(kvs[i1].0);
    let f2 = crate::keys::field1(kvs[i2].0);
    if dec_val(f1) > dec_val(f2) {
        crate::numstr::lemma_dec_lex(f2, f1);
        assert(f2 != f1) by {
            if f2 == f1 {
                lemma_lex_irrefl(f1);
            }
        }
        lemma_row_key_lt(
            table,
            f2,
            crate::keys::field2(kvs[i2].0),
            tx_part(kvs[i2].0),
            f1,
            crate::keys::field2(kvs[i1].0),
            tx_part(kvs[i1].0),
        );
        assert(lex_lt(kvs[i2].0, kvs[i1].0));
        assert(lex_lt(kvs[i1].0, kvs[i2].0));
        lemma_lex_asym(kvs[i1].0, kvs[i2].0);
    }
}

/// The row walk over a sorted uniform-regime store, generalized over its
/// position and accumulator: it completes, and the result holds exactly
/// the accumulated columns plus those with a committed version below `j`,
/// each mapped to the value of its highest-index committed version.
proof fn lemma_row_walk_newest_rec(
    kvs: Seq<(Seq<char>, Seq<char>)>,
    txs: Map<Seq<char>, bool>,
    table: Seq<char>,
    id: nat,
    L: nat,
    j: int,
    acc: Map<Seq<char>, Seq<char>>,
)
    requires
        sorted_kvs(kvs),
        row_regime(kvs, table, L),
        L >= 1,
        crate::numstr::dec_seq(id + 1).len() == L,
        0 <= j <= kvs.len(),
        forall|c: Seq<char>| #[trigger] acc.contains_key(c) ==> exists|i: int|
            j <= i < kvs.len() && #[trigger] row_src(kvs, txs, id, c, i) && acc[c] == kvs[i].1 && (
            forall|i2: int| #[trigger] row_src(kvs, txs, id, c, i2) ==> i2 <= i),
        forall|i: int| j <= i < kvs.len() && #[trigger] row_src(
            kvs,
            txs,
            id,
            crate::keys::field2(kvs[i].0),
            i,
        ) ==> acc.contains_key(crate::keys::field2(kvs[i].0)),
    ensures
        crate::rows::row_walk(kvs, txs, table, id, j, acc) is Some,
        ({
            let m = crate::rows::row_walk(kvs, txs, table, id, j, acc).unwrap();
            &&& forall|c: Seq<char>| #[trigger] m.contains_key(c) == (acc.contains_key(c)
                || exists|i: int| 0 <= i < j && #[trigger] row_src(kvs, txs, id, c, i))
            &&& forall|c: Seq<char>| #[trigger] m.contains_key(c) ==> exists|i: int|
                #[trigger] row_src(kvs, txs, id, c, i) && m[c] == kvs[i].1 && (forall|i2: int|
                    #[trigger] row_src(kvs, txs, id, c, i2) ==> i2 <= i)
        }),
    decreases j,
{
    if j <= 0 {
    } else {
        let e = kvs[j - 1];
        let w = crate::rows::row_walk(kvs, txs, table, id, j, acc);
        if is_meta_seq(e.0) {
            lemma_row_walk_newest_rec(kvs, txs, table, id, L, j - 1, acc);
            let m = crate::rows::row_walk(kvs, txs, table, id, j - 1, acc).unwrap();
            assert forall|c: Seq<char>| #[trigger] m.contains_key(c) == (acc.contains_key(c)
                || exists|i: int| 0 <= i < j && #[trigger] row_src(kvs, txs, id, c, i)) by {
                if exists|i: int| 0 <= i < j && #[trigger] row_src(kvs, txs, id, c, i) {
                    let i = choose|i: int| 0 <= i < j && #[trigger] row_src(kvs, txs, id, c, i);
                    assert(i < j - 1);
                }
            }
        } else {
            let f1 = crate::keys::field1(e.0);
            let c0 = crate::keys::field2(e.0);
            let t0 = tx_part(e.0);
            let pk = dec_val(f1);
            lemma_row_key_vs_bound(table, f1, c0, t0, id);
            assert(lex_le(e.0, crate::rows::row_bound(table, id)) == (pk <= id));
            if pk > id {
                assert(!row_src(kvs, txs, id, c0, j - 1));
                assert forall|i: int| j - 1 <= i < kvs.len() && #[trigger] row_src(
                    kvs,
                    txs,
                    id,
                    crate::keys::field2(kvs[i].0),
                    i,
                ) implies acc.contains_key(crate::keys::field2(kvs[i].0)) by {
                    if i == j - 1 {
                        assert(false);
                    }
                }
                lemma_row_walk_newest_rec(kvs, txs, table, id, L, j - 1, acc);
                let m = crate::rows::row_walk(kvs, txs, table, id, j - 1, acc).unwrap();
                assert forall|c: Seq<char>| #[trigger] m.contains_key(c) == (acc.contains_key(c)
                    || exists|i: int| 0 <= i < j && #[trigger] row_src(kvs, txs, id, c, i)) by {
                    if exists|i: int| 0 <= i < j && #[trigger] row_src(kvs, txs, id, c, i) {
                        let i = choose|i: int|
                            0 <= i < j && #[trigger] row_src(kvs, txs, id, c, i);
                        assert(i < j - 1);
                    }
                }
            } else if pk < id {
                assert(w == Some(acc));
                assert forall|c: Seq<char>| #[trigger] acc.contains_key(c) == (acc.contains_key(c)
                    || exists|i: int| 0 <= i < j && #[trigger] row_src(kvs, txs, id, c, i)) by {
                    if exists|i: int| 0 <= i < j && #[trigger] row_src(kvs, txs, id, c, i) {
                        let i = choose|i: int|
                            0 <= i < j && #[trigger] row_src(kvs, txs, id, c, i);
                        if i == j - 1 {
                            assert(false);
                        } else {
                            lemma_regime_pk_mono(kvs, table, L, i, j - 1);
                            assert(false);
                        }
                    }
                }
            } else {
                if committed(txs, t0) && !acc.contains_key(c0) {
                    let acc2 = acc.insert(c0, e.1);
                    assert(row_src(kvs, txs, id, c0, j - 1));
                    assert forall|i2: int| #[trigger] row_src(kvs, txs, id, c0, i2) implies i2
                        <= j - 1 by {
                        if i2 >= j {
                            assert(crate::keys::field2(kvs[i2].0) == c0);
                            assert(acc.contains_key(c0));
                        }
                    }
                    assert forall|c: Seq<char>| #[trigger] acc2.contains_key(c) implies exists|
                        i: int,
                    |
                        j - 1 <= i < kvs.len() && #[trigger] row_src(kvs, txs, id, c, i) && acc2[c]
                            == kvs[i].1 && (forall|i2: int|
                            #[trigger] row_src(kvs, txs, id, c, i2) ==> i2 <= i) by {
                        if c == c0 {
                            assert(j - 1 <= j - 1 < kvs.len() && row_src(kvs, txs, id, c0, j - 1)
                                && acc2[c0] == kvs[j - 1].1 && (forall|i2: int|
                                #[trigger] row_src(kvs, txs, id, c0, i2) ==> i2 <= j - 1));
                        } else {
                            assert(acc.contains_key(c));
                            let i = choose|i: int|
                                j <= i < kvs.len() && #[trigger] row_src(kvs, txs, id, c, i)
                                    && acc[c] == kvs[i].1 && (forall|i2: int|
                                    #[trigger] row_src(kvs, txs, id, c, i2) ==> i2 <= i);
                            assert(j - 1 <= i < kvs.len() && row_src(kvs, txs, id, c, i) && acc2[c]
                                == kvs[i].1 && (forall|i2: int|
                                #[trigger] row_src(kvs, txs, id, c, i2) ==> i2 <= i));
                        }
                    }
                    assert forall|i: int| j - 1 <= i < kvs.len() && #[trigger] row_src(
                        kvs,
                        txs,
                        id,
                        crate::keys::field2(kvs[i].0),
                        i,
                    ) implies acc2.contains_key(crate::keys::field2(kvs[i].0)) by {
                        if i == j - 1 {
                            assert(acc2.contains_key(c0));
                        } else {
                            assert(acc.contains_key(crate::keys::field2(kvs[i].0)));
                        }
                    }
                    lemma_row_walk_newest_rec(kvs, txs, table, id, L, j - 1, acc2);
                    let m = crate::rows::row_walk(kvs, txs, table, id, j - 1, acc2).unwrap();
                    assert(w == Some(m));
                    assert forall|c: Seq<char>| #[trigger] m.contains_key(c) == (
                    acc.contains_key(c) || exists|i: int|
                        0 <= i < j && #[trigger] row_src(kvs, txs, id, c, i)) by {
                        if m.contains_key(c) {
                            if acc2.contains_key(c) && !acc.contains_key(c) {
                                assert(c == c0);
                                assert(row_src(kvs, txs, id, c0, j - 1));
                            }
                        }
                        if exists|i: int| 0 <= i < j && #[trigger] row_src(kvs, txs, id, c, i) {
                            let i = choose|i: int|
                                0 <= i < j && #[trigger] row_src(kvs, txs, id, c, i);
                            if i == j - 1 {
                                assert(c == c0);
                                assert(acc2.contains_key(c));
                            }
                        }
                    }
                } else {
                    assert forall|i: int| j - 1 <= i < kvs.len() && #[trigger] row_src(
                        kvs,
                        txs,
                        id,
                        crate::keys::field2(kvs[i].0),
                        i,
                    ) implies acc.contains_key(crate::keys::field2(kvs[i].0)) by {
                        if i == j - 1 {
                            assert(crate::keys::field2(kvs[i].0) == c0);
                            assert(committed(txs, t0));
                        }
                    }
                    lemma_row_walk_newest_rec(kvs, txs, table, id, L, j - 1, acc);
                    let m = crate::rows::row_walk(kvs, txs, table, id, j - 1, acc).unwrap();
                    assert(w == Some(m));
                    assert forall|c: Seq<char>| #[trigger] m.contains_key(c) == (
                    acc.contains_key(c) || exists|i: int|
                        0 <= i < j && #[trigger] row_src(kvs, txs, id, c, i)) by {
                        if exists|i: int| 0 <= i < j && #[trigger] row_src(kvs, txs, id, c, i) {
                            let i = choose|i: int|
                                0 <= i < j && #[trigger] row_src(kvs, txs, id, c, i);
                            if i == j - 1 {
                                assert(c == c0);
                                assert(acc.contains_key(c0));
                            }
                        }
                    }
                }
            }
        }
    }
}

/// Row reads, declaratively: over a sorted store in the uniform row regime
/// of one table, `get_row`'s walk completes, holds exactly the columns of
/// row `id` with a committed version, and maps each to the value of its
/// newest committed version — the highest store index, which under the
/// regime carries the lexicographically greatest transaction id.
pub proof fn lemma_row_newest(
    kvs: Seq<(Seq<char>, Seq<char>)>,
    txs: Map<Seq<char>, bool>,
    table: Seq<char>,
    id: nat,
    L: nat,
)
    requires
        sorted_kvs(kvs),
        crate::strutil::no_colon(table),
        row_regime(kvs, table, L),
        L >= 1,
        crate::numstr::dec_seq(id + 1).len() == L,
    ensures
        crate::rows::row_walk(kvs, txs, table, id, kvs.len() as int, Map::empty()) is Some,
        ({
            let m = crate::rows::row_walk(kvs, txs, table, id, kvs.len() as int, Map::empty()).unwrap();
            &&& forall|c: Seq<char>| #[trigger] m.contains_key(c) == exists|i: int|
                #[trigger] row_src(kvs, txs, id, c, i)
            &&& forall|c: Seq<char>| #[trigger] m.contains_key(c) ==> exists|i: int|
                #[trigger] row_src(kvs, txs, id, c, i) && m[c] == kvs[i].1 && (forall|i2: int|
                    #[trigger] row_src(kvs, txs, id, c, i2) ==> i2 <= i && lex_le(
                        tx_part(kvs[i2].0),
                        tx_part(kvs[i].0),
                    ))
        }),
{
    assert(forall|c: Seq<char>| !Map::<Seq<char>, Seq<char>>::empty().contains_key(c));
    lemma_row_walk_newest_rec(kvs, txs, table, id, L, kvs.len() as int, Map::empty());
    let m = crate::rows::row_walk(kvs, txs, table, id, kvs.len() as int, Map::empty()).unwrap();
    assert forall|c: Seq<char>| #[trigger] m.contains_key(c) implies exists|i: int|
        #[trigger] row_src(kvs, txs, id, c, i) && m[c] == kvs[i].1 && (forall|i2: int|
            #[trigger] row_src(kvs, txs, id, c, i2) ==> i2 <= i && lex_le(
                tx_part(kvs[i2].0),
                tx_part(kvs[i].0),
            )) by {
        let i = choose|i: int|
            #[trigger] row_src(kvs, txs, id, c, i) && m[c] == kvs[i].1 && (forall|i2: int|
                #[trigger] row_src(kvs, txs, id, c, i2) ==> i2 <= i);
        assert forall|i2: int| #[trigger] row_src(kvs, txs, id, c, i2) implies i2 <= i && lex_le(
            tx_part(kvs[i2].0),
            tx_part(kvs[i].0),
        ) by {
            assert(i2 <= i);
            if i2 < i {
                crate::numstr::lemma_dec_inj(
                    crate::keys::field1(kvs[i2].0),
                    crate::keys::field1(kvs[i].0),
                );
                assert(lex_lt(kvs[i2].0, kvs[i].0));
                crate::strutil::lemma_phys_order(
                    crate::keys::joined3(table, crate::keys::field1(kvs[i].0), c),
                    tx_part(kvs[i2].0),
                    tx_part(kvs[i].0),
                );
            }
        }
    }
}

} // verus!
