//! The table/row layer: rows and secondary indexes encoded as versioned
//! entries of the same physical store, and the per-table auto-increment
//! counter that assigns primary ids.

use vstd::prelude::*;

use crate::engine::{DBState, store_upd, wal_commit, wal_new_tx};
use crate::keys::{autoinc_key, autoinc_of, is_meta_seq, joined3, join3, make_bound, make_phys,
    marker_key, marker_of, seek_bound};
use crate::numstr::{all_digits, dec_seq, dec_str, dec_val, is_canon_id, parse_u64};
use crate::smap::{StrMap, lemma_assoc_last_occurrence};
use crate::store::{Store, store_after, lemma_store_after_empty, lemma_store_after_step};
use crate::strutil::{has_colon, lex_le, lex_lt, no_colon, phys_of, split_first_colon,
    split_last_colon, str_le, tx_part};
use crate::wal::{committed, lines_view, status_line_of};

verus! {

/// The stored auto-increment counter of a table parses as a number with
/// room to grow; an absent counter reads as zero.
pub open spec fn counter_ok(s: Store, table: Seq<char>) -> bool {
    s.contains_key(autoinc_of(table)) ==> {
        let v = s.value_of(autoinc_of(table));
        v.len() > 0 && all_digits(v) && dec_val(v) < u64::MAX
    }
}

/// The next primary id a table hands out.
pub open spec fn counter_val(s: Store, table: Seq<char>) -> nat {
    if s.contains_key(autoinc_of(table)) {
        dec_val(s.value_of(autoinc_of(table)))
    } else {
        0
    }
}

/// Reads the table's counter, writes back its successor, and returns the
/// pre-increment value. The table's lock cell is taken (and created on
/// first use) around the read-modify-write.
pub fn table_next_id(db: &mut DBState, table: &str) -> (r: u64)
    requires
        old(db).wf(),
        counter_ok(old(db).db, table@),
    ensures
        final(db).wf(),
        r == counter_val(old(db).db, table@),
        store_upd(old(db).db, final(db).db, autoinc_of(table@), dec_seq(r as nat + 1)),
        final(db).txs == old(db).txs,
        final(db).map == old(db).map,
        final(db).wal == old(db).wal,
        final(db).last_tx == old(db).last_tx,
        final(db).locks.as_map() == (if old(db).locks.as_map().contains_key(autoinc_of(table@)) {
            old(db).locks.as_map()
        } else {
            old(db).locks.as_map().insert(autoinc_of(table@), true)
        }),
{
    let ck = autoinc_key(table);
    let _ = get_lock_cell(db, ck.as_str());
    let next: u64 = match db.db.get_opt(ck.as_str()) {
        Some(v) => {
            match parse_u64(v.as_str()) {
                Some(n) => n,
                None => {
                    proof {
                        assert(false);
                    }
                    0
                },
            }
        },
        None => 0,
    };
    let nv = dec_str(next + 1);
    db.db.put(ck, nv);
    next
}

/// Takes the lock cell of a key in the state's lock table.
fn get_lock_cell(db: &mut DBState, key: &str) -> (r: bool)
    requires
        old(db).wf(),
    ensures
        final(db).wf(),
        final(db).locks.as_map() == (if old(db).locks.as_map().contains_key(key@) {
            old(db).locks.as_map()
        } else {
            old(db).locks.as_map().insert(key@, true)
        }),
        final(db).txs == old(db).txs,
        final(db).map == old(db).map,
        final(db).db == old(db).db,
        final(db).wal == old(db).wal,
        final(db).last_tx == old(db).last_tx,
{
    let b = crate::engine::get_mutex(&mut db.locks, key);
    *b
}

/// Writes one secondary-index entry `<table>:<column>:<value> -> <id>`
/// under the given transaction.
pub fn insert_secondary_index(
    db: &mut DBState,
    table: &str,
    col: &str,
    val: &str,
    id: u64,
    tx: &crate::wal::WalTx,
) -> (r: Result<String, String>)
    requires
        old(db).wf(),
    ensures
        final(db).wf(),
        r matches Ok(m) && m@ == ("Successfully inserted secondary index")@,
        store_upd(
            old(db).db,
            final(db).db,
            phys_of(joined3(table@, col@, val@), tx@),
            dec_seq(id as nat),
        ),
        final(db).txs == old(db).txs,
        final(db).map == old(db).map,
        final(db).wal == old(db).wal,
        final(db).locks == old(db).locks,
        final(db).last_tx == old(db).last_tx,
{
    let ek = join3(table, col, val);
    let pk = make_phys(ek.as_str(), tx.id.as_str());
    db.db.put(pk, dec_str(id));
    Ok(String::from_str("Successfully inserted secondary index"))
}

/// A colon-free table name gives a colon-free counter key, which therefore
/// differs from every versioned physical key.
pub proof fn lemma_autoinc_no_colon(table: Seq<char>)
    requires
        no_colon(table),
    ensures
        no_colon(autoinc_of(table)),
{
    reveal_strlit("**autoincrement**");
    let p = ("**autoincrement**")@;
    let ak = autoinc_of(table);
    assert forall|j: int| 0 <= j < ak.len() implies ak[j] != ':' by {
        if j < p.len() {
            assert(ak[j] == p[j]);
            crate::strutil::lemma_char_inj(p[j], ':');
        } else {
            assert(ak[j] == table[j - p.len()]);
        }
    }
}

/// The row-column and index writes of one insert, in order: for each
/// column, the versioned column entry and then its index entry.
pub open spec fn row_puts(
    table: Seq<char>,
    id: nat,
    kvs: Seq<(Seq<char>, Seq<char>)>,
    t: Seq<char>,
) -> Seq<(Seq<char>, Seq<char>)>
    decreases kvs.len(),
{
    if kvs.len() == 0 {
        Seq::empty()
    } else {
        row_puts(table, id, kvs.drop_last(), t) + seq![
            (phys_of(joined3(table, dec_seq(id), kvs.last().0), t), kvs.last().1),
            (phys_of(joined3(table, kvs.last().0, kvs.last().1), t), dec_seq(id)),
        ]
    }
}

/// Everything one `insert_row` writes, in order: the bumped counter, the
/// row marker, and the column and index entries.
pub open spec fn insert_puts(
    table: Seq<char>,
    id: nat,
    kvs: Seq<(Seq<char>, Seq<char>)>,
    t: Seq<char>,
) -> Seq<(Seq<char>, Seq<char>)> {
    seq![
        (autoinc_of(table), dec_seq(id + 1)),
        (phys_of(marker_of(table), t), dec_seq(id)),
    ] + row_puts(table, id, kvs, t)
}

/// Every key a `row_puts` batch writes holds a colon.
proof fn lemma_row_puts_keys(
    table: Seq<char>,
    id: nat,
    kvs: Seq<(Seq<char>, Seq<char>)>,
    t: Seq<char>,
)
    ensures
        forall|m: int| 0 <= m < row_puts(table, id, kvs, t).len()
            ==> has_colon((#[trigger] row_puts(table, id, kvs, t)[m]).0),
    decreases kvs.len(),
{
    if kvs.len() > 0 {
        lemma_row_puts_keys(table, id, kvs.drop_last(), t);
        let ps = row_puts(table, id, kvs, t);
        let pd = row_puts(table, id, kvs.drop_last(), t);
        assert forall|m: int| 0 <= m < ps.len() implies has_colon((#[trigger] ps[m]).0) by {
            if m < pd.len() {
                assert(ps[m] == pd[m]);
            } else {
                let u1 = joined3(table, dec_seq(id), kvs.last().0);
                let u2 = joined3(table, kvs.last().0, kvs.last().1);
                assert(phys_of(u1, t)[u1.len() as int] == ':');
                assert(phys_of(u2, t)[u2.len() as int] == ':');
            }
        }
    }
}

/// Inserts a row: allocates a transaction and a primary id, writes the row
/// marker, one versioned entry per column, and one index entry per column,
/// then commits.
pub fn insert_row(db: &mut DBState, table: &str, colvals: &StrMap<String>) -> (r: Result<
    u64,
    String,
>)
    requires
        old(db).wf(),
        old(db).last_tx < u64::MAX,
        colvals.wf(),
        counter_ok(old(db).db, table@),
    ensures
        final(db).wf(),
        final(db).last_tx > old(db).last_tx,
        final(db).last_tx <= crate::engine::TX_CAP || final(db).last_tx == old(db).last_tx + 1,
        ({
            let t = final(db).newest_id();
            let id = counter_val(old(db).db, table@);
            &&& r matches Ok(n) && n == id
            &&& is_canon_id(t)
            &&& final(db).txs.as_map() == old(db).txs.as_map().insert(t, true)
            &&& committed(final(db).txs.as_map(), t)
            &&& store_after(old(db).db, final(db).db, insert_puts(table@, id, colvals.kvs(), t))
            &&& lines_view(final(db).wal@) == lines_view(old(db).wal@) + seq![
                status_line_of(t, false),
                status_line_of(t, true),
            ]
            &&& final(db).map == old(db).map
            &&& final(db).locks.as_map() == (if old(db).locks.as_map().contains_key(
                autoinc_of(table@),
            ) {
                old(db).locks.as_map()
            } else {
                old(db).locks.as_map().insert(autoinc_of(table@), true)
            })
            &&& (no_colon(table@) ==> final(db).db.contains_key(autoinc_of(table@))
                && final(db).db.value_of(autoinc_of(table@)) == dec_seq(id + 1))
            &&& (no_colon(table@) ==> counter_val(final(db).db, table@) == id + 1)
            &&& (no_colon(table@) && id + 1 < u64::MAX ==> counter_ok(final(db).db, table@))
            &&& forall|u: Seq<char>|
                old(db).txs.as_map().contains_key(u) && is_canon_id(u) ==> lex_lt(u, t)
            &&& forall|u: Seq<char>| committed(old(db).txs.as_map(), u)
                ==> committed(final(db).txs.as_map(), u)
        }),
{
    let ghost txs0 = old(db).txs.as_map();
    let ghost kvs = colvals.kvs();
    let tx = wal_new_tx(db);
    let id = table_next_id(db, table);
    let ghost t = tx@;
    let ghost base = seq![
        (autoinc_of(table@), dec_seq(id as nat + 1)),
        (phys_of(marker_of(table@), t), dec_seq(id as nat)),
    ];
    proof {
        lemma_store_after_empty(old(db).db);
        lemma_store_after_step(
            old(db).db,
            old(db).db,
            db.db,
            Seq::empty(),
            autoinc_of(table@),
            dec_seq(id as nat + 1),
        );
        assert(Seq::<(Seq<char>, Seq<char>)>::empty().push(
            (autoinc_of(table@), dec_seq(id as nat + 1)),
        ) =~= base.take(1));
    }
    let idstr = dec_str(id);
    let mk = marker_key(table);
    let pk = make_phys(mk.as_str(), tx.id.as_str());
    let ghost db1 = *db;
    db.db.put(pk, idstr.clone());
    proof {
        lemma_store_after_step(
            old(db).db,
            db1.db,
            db.db,
            base.take(1),
            phys_of(marker_of(table@), t),
            dec_seq(id as nat),
        );
        assert(base.take(1).push((phys_of(marker_of(table@), t), dec_seq(id as nat))) =~= base);
        assert(base + row_puts(table@, id as nat, kvs.take(0), t) =~= base);
    }
    let n = colvals.len();
    let mut i: usize = 0;
    while i < n
        invariant
            i <= n,
            n == colvals.spec_len(),
            colvals.wf(),
            kvs == colvals.kvs(),
            txs0 == old(db).txs.as_map(),
            t == tx@,
            idstr@ == dec_seq(id as nat),
            db.wf(),
            tx@ == db.newest_id(),
            is_canon_id(tx@),
            no_colon(tx@),
            dec_val(tx@) == db.last_tx,
            db.last_tx > old(db).last_tx,
            db.last_tx <= crate::engine::TX_CAP || db.last_tx == old(db).last_tx + 1,
            db.txs.as_map() == txs0.insert(tx@, false),
            db.map == old(db).map,
            db.locks.as_map() == (if old(db).locks.as_map().contains_key(autoinc_of(table@)) {
                old(db).locks.as_map()
            } else {
                old(db).locks.as_map().insert(autoinc_of(table@), true)
            }),
            lines_view(db.wal@) == lines_view(old(db).wal@).push(status_line_of(tx@, false)),
            store_after(old(db).db, db.db, base + row_puts(table@, id as nat, kvs.take(i as int), t)),
        decreases n - i,
    {
        let c = colvals.key_at(i).clone();
        let v = colvals.val_at(i).clone();
        let rk = join3(table, idstr.as_str(), c.as_str());
        let pk1 = make_phys(rk.as_str(), tx.id.as_str());
        let ghost dba = *db;
        db.db.put(pk1, v.clone());
        proof {
            lemma_store_after_step(
                old(db).db,
                dba.db,
                db.db,
                base + row_puts(table@, id as nat, kvs.take(i as int), t),
                phys_of(joined3(table@, dec_seq(id as nat), kvs[i as int].0), t),
                kvs[i as int].1,
            );
        }
        let ghost dbb = *db;
        let _ = insert_secondary_index(db, table, c.as_str(), v.as_str(), id, &tx);
        proof {
            lemma_store_after_step(
                old(db).db,
                dbb.db,
                db.db,
                (base + row_puts(table@, id as nat, kvs.take(i as int), t)).push(
                    (phys_of(joined3(table@, dec_seq(id as nat), kvs[i as int].0), t), kvs[i as int].1),
                ),
                phys_of(joined3(table@, kvs[i as int].0, kvs[i as int].1), t),
                dec_seq(id as nat),
            );
            assert(kvs.take(i + 1 as int).drop_last() =~= kvs.take(i as int));
            assert(kvs.take(i + 1 as int).last() == kvs[i as int]);
            assert((base + row_puts(table@, id as nat, kvs.take(i as int), t)).push(
                (phys_of(joined3(table@, dec_seq(id as nat), kvs[i as int].0), t), kvs[i as int].1),
            ).push(
                (phys_of(joined3(table@, kvs[i as int].0, kvs[i as int].1), t), dec_seq(id as nat)),
            ) =~= base + row_puts(table@, id as nat, kvs.take(i + 1 as int), t));
        }
        i = i + 1;
    }
    let _ = wal_commit(db, &tx);
    proof {
        assert(kvs.take(n as int) =~= kvs);
        assert(base + row_puts(table@, id as nat, kvs, t) =~= insert_puts(
            table@,
            id as nat,
            kvs,
            t,
        ));
        assert(db.txs.as_map() =~= txs0.insert(tx@, true));
        assert(lines_view(db.wal@) =~= lines_view(old(db).wal@) + seq![
            status_line_of(tx@, false),
            status_line_of(tx@, true),
        ]);
        assert forall|u: Seq<char>| committed(txs0, u) implies committed(db.txs.as_map(), u) by {}
        if no_colon(table@) {
            let ps = insert_puts(table@, id as nat, kvs, t);
            lemma_row_puts_keys(table@, id as nat, kvs, t);
            lemma_autoinc_no_colon(table@);
            assert forall|m: int| 0 < m < ps.len() implies (#[trigger] ps[m]).0 != autoinc_of(
                table@,
            ) by {
                if m == 1 {
                    let u = marker_of(table@);
                    assert(phys_of(u, t)[u.len() as int] == ':');
                } else {
                    assert(ps[m] == row_puts(table@, id as nat, kvs, t)[m - 2]);
                    assert(has_colon(ps[m].0));
                }
            }
            lemma_assoc_last_occurrence(ps, 0);
            assert(db.db.contains_key(autoinc_of(table@)));
            assert(db.db.value_of(autoinc_of(table@)) == dec_seq(id as nat + 1));
            crate::numstr::lemma_dec_seq_val(id as nat + 1);
        }
    }
    Ok(id)
}

/// The versioned column writes of one `update_row`, in order.
pub open spec fn update_puts(
    table: Seq<char>,
    id: nat,
    kvs: Seq<(Seq<char>, Seq<char>)>,
    t: Seq<char>,
) -> Seq<(Seq<char>, Seq<char>)> {
    kvs.map_values(
        |p: (Seq<char>, Seq<char>)| (phys_of(joined3(table, dec_seq(id), p.0), t), p.1),
    )
}

/// Updates columns of an existing row: a fresh transaction writes one new
/// versioned entry per column and commits. Old versions stay behind it;
/// the newest-committed-first read hides them.
pub fn update_row(db: &mut DBState, table: &str, id: u64, colvals: &StrMap<String>) -> (r: Result<
    String,
    String,
>)
    requires
        old(db).wf(),
        old(db).last_tx < u64::MAX,
        colvals.wf(),
    ensures
        final(db).wf(),
        final(db).last_tx > old(db).last_tx,
        final(db).last_tx <= crate::engine::TX_CAP || final(db).last_tx == old(db).last_tx + 1,
        ({
            let t = final(db).newest_id();
            &&& r matches Ok(m) && m@ == ("Row successfully updated")@
            &&& is_canon_id(t)
            &&& final(db).txs.as_map() == old(db).txs.as_map().insert(t, true)
            &&& committed(final(db).txs.as_map(), t)
            &&& store_after(old(db).db, final(db).db, update_puts(table@, id as nat, colvals.kvs(), t))
            &&& lines_view(final(db).wal@) == lines_view(old(db).wal@) + seq![
                status_line_of(t, false),
                status_line_of(t, true),
            ]
            &&& final(db).map == old(db).map
            &&& final(db).locks == old(db).locks
            &&& forall|u: Seq<char>| committed(old(db).txs.as_map(), u)
                ==> committed(final(db).txs.as_map(), u)
        }),
{
    let ghost txs0 = old(db).txs.as_map();
    let ghost kvs = colvals.kvs();
    let tx = wal_new_tx(db);
    let ghost t = tx@;
    let idstr = dec_str(id);
    proof {
        lemma_store_after_empty(old(db).db);
        assert(update_puts(table@, id as nat, kvs.take(0), t) =~= Seq::empty());
    }
    let n = colvals.len();
    let mut i: usize = 0;
    while i < n
        invariant
            i <= n,
            n == colvals.spec_len(),
            colvals.wf(),
            kvs == colvals.kvs(),
            txs0 == old(db).txs.as_map(),
            t == tx@,
            idstr@ == dec_seq(id as nat),
            db.wf(),
            tx@ == db.newest_id(),
            is_canon_id(tx@),
            no_colon(tx@),
            dec_val(tx@) == db.last_tx,
            db.last_tx > old(db).last_tx,
            db.last_tx <= crate::engine::TX_CAP || db.last_tx == old(db).last_tx + 1,
            db.txs.as_map() == txs0.insert(tx@, false),
            db.map == old(db).map,
            db.locks == old(db).locks,
            lines_view(db.wal@) == lines_view(old(db).wal@).push(status_line_of(tx@, false)),
            store_after(old(db).db, db.db, update_puts(table@, id as nat, kvs.take(i as int), t)),
        decreases n - i,
    {
        let c = colvals.key_at(i).clone();
        let v = colvals.val_at(i).clone();
        let rk = join3(table, idstr.as_str(), c.as_str());
        let pk1 = make_phys(rk.as_str(), tx.id.as_str());
        let ghost dba = *db;
        db.db.put(pk1, v.clone());
        proof {
            lemma_store_after_step(
                old(db).db,
                dba.db,
                db.db,
                update_puts(table@, id as nat, kvs.take(i as int), t),
                phys_of(joined3(table@, dec_seq(id as nat), kvs[i as int].0), t),
                kvs[i as int].1,
            );
            assert(update_puts(table@, id as nat, kvs.take(i as int), t).push(
                (phys_of(joined3(table@, dec_seq(id as nat), kvs[i as int].0), t), kvs[i as int].1),
            ) =~= update_puts(table@, id as nat, kvs.take(i + 1 as int), t));
        }
        i = i + 1;
    }
    let _ = wal_commit(db, &tx);
    proof {
        assert(kvs.take(n as int) =~= kvs);
        assert(db.txs.as_map() =~= txs0.insert(tx@, true));
        assert(lines_view(db.wal@) =~= lines_view(old(db).wal@) + seq![
            status_line_of(tx@, false),
            status_line_of(tx@, true),
        ]);
        assert forall|u: Seq<char>| committed(txs0, u) implies committed(db.txs.as_map(), u) by {}
    }
    Ok(String::from_str("Row successfully updated"))
}


/// The seek bound of a row read: `<table>:<id + 1>`.
pub open spec fn row_bound(table: Seq<char>, id: nat) -> Seq<char> {
    table + seq![':'] + dec_seq(id + 1)
}

/// The reverse walk `get_row` performs from entry `j - 1` downward,
/// collecting the newest committed value per column of row `id`. `None`
/// means the walk meets an entry whose primary-id field does not parse, or
/// a matching entry with no column field: on such stores the lookup is not
/// defined and the engine refuses the call.
pub open spec fn row_walk(
    kvs: Seq<(Seq<char>, Seq<char>)>,
    txs: Map<Seq<char>, bool>,
    table: Seq<char>,
    id: nat,
    j: int,
    acc: Map<Seq<char>, Seq<char>>,
) -> Option<Map<Seq<char>, Seq<char>>>
    decreases j,
{
    if j <= 0 || j > kvs.len() {
        Some(acc)
    } else {
        let e = kvs[j - 1];
        if !lex_le(e.0, row_bound(table, id)) || is_meta_seq(e.0) {
            row_walk(kvs, txs, table, id, j - 1, acc)
        } else if !(has_colon(e.0) && crate::keys::field1(e.0).len() > 0 && all_digits(
            crate::keys::field1(e.0),
        ) && dec_val(crate::keys::field1(e.0)) <= u64::MAX) {
            None
        } else {
            let pk = dec_val(crate::keys::field1(e.0));
            if pk == id {
                if !has_colon(crate::strutil::rest_fields(e.0)) {
                    None
                } else {
                    let c = crate::keys::field2(e.0);
                    if committed(txs, tx_part(e.0)) && !acc.contains_key(c) {
                        row_walk(kvs, txs, table, id, j - 1, acc.insert(c, e.1))
                    } else {
                        row_walk(kvs, txs, table, id, j - 1, acc)
                    }
                }
            } else if pk < id {
                Some(acc)
            } else {
                row_walk(kvs, txs, table, id, j - 1, acc)
            }
        }
    }
}

/// Reads a row: walks versions of its columns newest-first and keeps the
/// first committed value of each column.
pub fn get_row(db: &mut DBState, table: &str, id: u64) -> (r: StrMap<String>)
    requires
        old(db).wf(),
        old(db).last_tx < u64::MAX,
        id < u64::MAX,
        row_walk(
            old(db).db.kvs(),
            old(db).txs.as_map(),
            table@,
            id as nat,
            old(db).db.kvs().len() as int,
            Map::empty(),
        ) is Some,
    ensures
        final(db).wf(),
        final(db).last_tx > old(db).last_tx,
        final(db).last_tx <= crate::engine::TX_CAP || final(db).last_tx == old(db).last_tx + 1,
        final(db).db == old(db).db,
        final(db).map == old(db).map,
        final(db).locks == old(db).locks,
        is_canon_id(final(db).newest_id()),
        final(db).txs.as_map() == old(db).txs.as_map().insert(final(db).newest_id(), true),
        lines_view(final(db).wal@) == lines_view(old(db).wal@) + seq![
            status_line_of(final(db).newest_id(), false),
            status_line_of(final(db).newest_id(), true),
        ],
        r.wf(),
        Some(r.as_map()) == row_walk(
            old(db).db.kvs(),
            old(db).txs.as_map(),
            table@,
            id as nat,
            old(db).db.kvs().len() as int,
            Map::empty(),
        ),
        forall|u: Seq<char>| committed(old(db).txs.as_map(), u)
            ==> committed(final(db).txs.as_map(), u),
{
    let ghost txs0 = old(db).txs.as_map();
    let tx = wal_new_tx(db);
    proof {
        assert(!txs0.contains_key(tx@)) by {
            if txs0.contains_key(tx@) {
                assert(lex_lt(tx@, tx@));
                crate::strutil::lemma_lex_irrefl(tx@);
            }
        }
        assert forall|t: Seq<char>| committed(db.txs.as_map(), t) == committed(txs0, t) by {
            if t == tx@ {
                assert(!committed(db.txs.as_map(), t));
                assert(!committed(txs0, t));
            }
        }
    }
    let idp = dec_str(id + 1);
    let mut bound = table.to_owned();
    bound.append(":");
    bound.append(idp.as_str());
    proof {
        reveal_strlit(":");
        assert(bound@ =~= row_bound(table@, id as nat));
    }
    let mut record: StrMap<String> = StrMap::new();
    let n = db.db.len();
    let mut i: usize = n;
    let ghost kvs0 = old(db).db.kvs();
    let ghost walk_full = row_walk(kvs0, txs0, table@, id as nat, n as int, Map::empty());
    while i > 0
        invariant_except_break
            walk_full == row_walk(kvs0, txs0, table@, id as nat, i as int, record.as_map()),
        invariant
            i <= n,
            n == db.db.spec_len(),
            db.wf(),
            db.db == old(db).db,
            db.map == old(db).map,
            db.locks == old(db).locks,
            db.last_tx > old(db).last_tx,
            db.last_tx <= crate::engine::TX_CAP || db.last_tx == old(db).last_tx + 1,
            tx@ == db.newest_id(),
            is_canon_id(tx@),
            no_colon(tx@),
            dec_val(tx@) == db.last_tx,
            bound@ == row_bound(table@, id as nat),
            kvs0 == old(db).db.kvs(),
            txs0 == old(db).txs.as_map(),
            db.txs.as_map() == txs0.insert(tx@, false),
            forall|t: Seq<char>| committed(db.txs.as_map(), t) == committed(txs0, t),
            lines_view(db.wal@) == lines_view(old(db).wal@).push(status_line_of(tx@, false)),
            record.wf(),
            walk_full == row_walk(kvs0, txs0, table@, id as nat, n as int, Map::empty()),
            walk_full is Some,
        ensures
            db.wf(),
            db.db == old(db).db,
            db.map == old(db).map,
            db.locks == old(db).locks,
            db.last_tx > old(db).last_tx,
            db.last_tx <= crate::engine::TX_CAP || db.last_tx == old(db).last_tx + 1,
            tx@ == db.newest_id(),
            is_canon_id(tx@),
            no_colon(tx@),
            dec_val(tx@) == db.last_tx,
            txs0 == old(db).txs.as_map(),
            db.txs.as_map() == txs0.insert(tx@, false),
            lines_view(db.wal@) == lines_view(old(db).wal@).push(status_line_of(tx@, false)),
            record.wf(),
            walk_full == Some(record.as_map()),
            walk_full == row_walk(kvs0, txs0, table@, id as nat, n as int, Map::empty()),
        decreases i,
    {
        let ghost acc0 = record.as_map();
        i = i - 1;
        let ghost e = kvs0[i as int];
        let k = db.db.key_at(i);
        if str_le(k.as_str(), bound.as_str()) && !crate::keys::is_meta(k.as_str()) {
            let parsed: Option<(u64, String)> = match split_first_colon(k.as_str()) {
                Some(p) => {
                    match split_first_colon(p.1.as_str()) {
                        Some(q) => {
                            match parse_u64(q.0.as_str()) {
                                Some(pkv) => {
                                    let c = match split_first_colon(q.1.as_str()) {
                                        Some(w) => w.0,
                                        None => q.1,
                                    };
                                    Some((pkv, c))
                                },
                                None => None,
                            }
                        },
                        None => {
                            match parse_u64(p.1.as_str()) {
                                Some(pkv) => {
                                    if pkv == id {
                                        None
                                    } else {
                                        Some((pkv, String::new()))
                                    }
                                },
                                None => None,
                            }
                        },
                    }
                },
                None => None,
            };
            match parsed {
                Some(pc) => {
                    let pkv = pc.0;
                    if pkv == id {
                        proof {
                            assert(has_colon(crate::strutil::rest_fields(e.0)));
                            assert(pc.1@ == crate::keys::field2(e.0));
                        }
                        let t = match split_last_colon(k.as_str()) {
                            Some(w) => w.1,
                            None => {
                                proof {
                                    assert(false);
                                }
                                String::new()
                            },
                        };
                        let is_com = match db.txs.get(t.as_str()) {
                            Some(b) => *b,
                            None => false,
                        };
                        if is_com && !record.contains_key(pc.1.as_str()) {
                            let v = db.db.val_at(i).clone();
                            record.insert(pc.1, v);
                            proof {
                                assert(row_walk(kvs0, txs0, table@, id as nat, i + 1 as int, acc0)
                                    == row_walk(
                                    kvs0,
                                    txs0,
                                    table@,
                                    id as nat,
                                    i as int,
                                    record.as_map(),
                                ));
                            }
                        } else {
                            proof {
                                assert(row_walk(kvs0, txs0, table@, id as nat, i + 1 as int, acc0)
                                    == row_walk(kvs0, txs0, table@, id as nat, i as int, acc0));
                            }
                        }
                    } else if pkv < id {
                        proof {
                            assert(row_walk(kvs0, txs0, table@, id as nat, i + 1 as int, acc0)
                                == Some(acc0));
                        }
                        break;
                    } else {
                        proof {
                            assert(row_walk(kvs0, txs0, table@, id as nat, i + 1 as int, acc0)
                                == row_walk(kvs0, txs0, table@, id as nat, i as int, acc0));
                        }
                    }
                },
                None => {
                    proof {
                        assert(row_walk(kvs0, txs0, table@, id as nat, i + 1 as int, acc0)
                            is None);
                        assert(false);
                    }
                },
            }
        } else {
            proof {
                assert(row_walk(kvs0, txs0, table@, id as nat, i + 1 as int, acc0)
                    == row_walk(kvs0, txs0, table@, id as nat, i as int, acc0));
            }
        }
    }
    let _ = wal_commit(db, &tx);
    proof {
        assert(db.txs.as_map() =~= txs0.insert(tx@, true));
        assert(lines_view(db.wal@) =~= lines_view(old(db).wal@) + seq![
            status_line_of(tx@, false),
            status_line_of(tx@, true),
        ]);
        assert forall|u: Seq<char>| committed(txs0, u) implies committed(
            db.txs.as_map(),
            u,
        ) by {}
    }
    record
}

/// The reverse walk `get_by_col` performs: the first committed entry at or
/// below the index bound yields the stored primary id. The outer `None`
/// means that id is not numeric, so the dereference is not defined.
pub open spec fn by_col_walk(
    kvs: Seq<(Seq<char>, Seq<char>)>,
    txs: Map<Seq<char>, bool>,
    bound: Seq<char>,
    j: int,
) -> Option<Option<nat>>
    decreases j,
{
    if j <= 0 || j > kvs.len() {
        Some(None)
    } else {
        let e = kvs[j - 1];
        if !lex_le(e.0, bound) || is_meta_seq(e.0) {
            by_col_walk(kvs, txs, bound, j - 1)
        } else {
            let t = if has_colon(e.0) {
                tx_part(e.0)
            } else {
                e.0
            };
            if committed(txs, t) {
                if e.1.len() > 0 && all_digits(e.1) && dec_val(e.1) <= u64::MAX {
                    Some(Some(dec_val(e.1)))
                } else {
                    None
                }
            } else {
                by_col_walk(kvs, txs, bound, j - 1)
            }
        }
    }
}

/// Looks a row up through a secondary index: the newest committed index
/// entry at or below `<table>:<column>:<value>:9` names the row that is
/// then read with `get_row`.
pub fn get_by_col(db: &mut DBState, table: &str, col: String, value: String) -> (r: Option<
    StrMap<String>,
>)
    requires
        old(db).wf(),
        old(db).last_tx < u64::MAX,
        ({
            let w = by_col_walk(
                old(db).db.kvs(),
                old(db).txs.as_map(),
                seek_bound(joined3(table@, col@, value@)),
                old(db).db.kvs().len() as int,
            );
            &&& w is Some
            &&& (w matches Some(Some(idn)) ==> idn < u64::MAX && row_walk(
                old(db).db.kvs(),
                old(db).txs.as_map(),
                table@,
                idn,
                old(db).db.kvs().len() as int,
                Map::empty(),
            ) is Some)
        }),
    ensures
        final(db).wf(),
        final(db).db == old(db).db,
        final(db).map == old(db).map,
        final(db).locks == old(db).locks,
        ({
            let w = by_col_walk(
                old(db).db.kvs(),
                old(db).txs.as_map(),
                seek_bound(joined3(table@, col@, value@)),
                old(db).db.kvs().len() as int,
            );
            match r {
                Some(rec) => w matches Some(Some(idn)) && rec.wf() && Some(rec.as_map())
                    == row_walk(
                    old(db).db.kvs(),
                    old(db).txs.as_map(),
                    table@,
                    idn,
                    old(db).db.kvs().len() as int,
                    Map::empty(),
                ) && final(db).txs.as_map() == old(db).txs.as_map().insert(
                    final(db).newest_id(),
                    true,
                ) && final(db).last_tx > old(db).last_tx && (final(db).last_tx
                    <= crate::engine::TX_CAP || final(db).last_tx == old(db).last_tx + 1),
                None => w == Some(None::<nat>) && *final(db) == *old(db),
            }
        }),
        forall|u: Seq<char>| committed(old(db).txs.as_map(), u)
            ==> committed(final(db).txs.as_map(), u),
{
    let ghost txs0 = old(db).txs.as_map();
    let ghost kvs0 = old(db).db.kvs();
    let sk = join3(table, col.as_str(), value.as_str());
    let bound = make_bound(sk.as_str());
    let n = db.db.len();
    let ghost walk_full = by_col_walk(kvs0, txs0, bound@, n as int);
    let mut i: usize = n;
    while i > 0
        invariant
            i <= n,
            n == db.db.spec_len(),
            db.wf(),
            *db == *old(db),
            db.last_tx < u64::MAX,
            kvs0 == old(db).db.kvs(),
            txs0 == old(db).txs.as_map(),
            bound@ == seek_bound(joined3(table@, col@, value@)),
            walk_full == by_col_walk(kvs0, txs0, bound@, n as int),
            walk_full == by_col_walk(kvs0, txs0, bound@, i as int),
            walk_full is Some,
            (walk_full matches Some(Some(idn)) ==> idn < u64::MAX && row_walk(
                kvs0,
                txs0,
                table@,
                idn,
                kvs0.len() as int,
                Map::empty(),
            ) is Some),
        decreases i,
    {
        i = i - 1;
        let ghost e = kvs0[i as int];
        let k = db.db.key_at(i);
        if str_le(k.as_str(), bound.as_str()) && !crate::keys::is_meta(k.as_str()) {
            let t = match split_last_colon(k.as_str()) {
                Some(w) => w.1,
                None => k.clone(),
            };
            let is_com = crate::engine::is_committed(db, t.as_str());
            if is_com {
                let v = db.db.val_at(i);
                match parse_u64(v.as_str()) {
                    Some(row_id) => {
                        proof {
                            assert(by_col_walk(kvs0, txs0, bound@, i + 1 as int) == Some(
                                Some(dec_val(e.1)),
                            ));
                        }
                        let rec = get_row(db, table, row_id);
                        return Some(rec);
                    },
                    None => {
                        proof {
                            assert(by_col_walk(kvs0, txs0, bound@, i + 1 as int) is None);
                            assert(false);
                        }
                    },
                }
            }
        }
        proof {
            assert(by_col_walk(kvs0, txs0, bound@, i + 1 as int) == by_col_walk(
                kvs0,
                txs0,
                bound@,
                i as int,
            ));
        }
    }
    None
}

} // verus!
