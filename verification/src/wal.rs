//! The write-ahead log's record shapes and recovery. The log is a sequence
//! of text records: `<tx>:false` opens a transaction, `<tx>:true` commits
//! it, and `<tx>:<key>:<value>` records a mutation intent. Recovery reads
//! the lifecycle records alone: the last status record of a transaction
//! decides whether it is committed.
//!
//! The format does not escape its separator: a key or value containing a
//! colon cannot forge a status record (an intent record then has three or
//! more fields, never exactly two), but on disk each record is one line,
//! so a key or value containing a line break splits into two records at
//! the next replay. Callers must keep line breaks out of keys and values.

use vstd::prelude::*;

use crate::smap::StrMap;
use crate::strutil::{first_colon_at, last_colon_at, no_colon, split_first_colon, find_first_colon,
    str_concat, str_eq, lemma_first_colon_unique};

verus! {

/// A transaction handle: the id under which log records and physical
/// versions are written.
pub struct WalTx {
    pub id: String,
}

impl View for WalTx {
    type V = Seq<char>;

    open spec fn view(&self) -> Seq<char> {
        self.id@
    }
}

/// `i` is the position of the one and only colon of `s`.
pub open spec fn one_colon_at(s: Seq<char>, i: int) -> bool {
    first_colon_at(s, i) && last_colon_at(s, i)
}

/// A status record: exactly one colon.
pub open spec fn is_status_line(s: Seq<char>) -> bool {
    exists|i: int| one_colon_at(s, i)
}

pub open spec fn status_idx(s: Seq<char>) -> int {
    choose|i: int| one_colon_at(s, i)
}

/// The transaction id of a status record.
pub open spec fn status_tx(s: Seq<char>) -> Seq<char> {
    s.take(status_idx(s))
}

/// Whether a status record marks a commit: its second field reads `true`.
pub open spec fn status_commits(s: Seq<char>) -> bool {
    s.skip(status_idx(s) + 1) == ("true")@
}

/// The status record of a transaction: `<tx>:true` or `<tx>:false`.
pub open spec fn status_line_of(t: Seq<char>, flag: bool) -> Seq<char> {
    t + seq![':'] + (if flag { ("true")@ } else { ("false")@ })
}

/// A mutation-intent record: `<tx>:<key>:<value>`.
pub open spec fn set_line_of(t: Seq<char>, k: Seq<char>, v: Seq<char>) -> Seq<char> {
    t + seq![':'] + k + seq![':'] + v
}

/// The commit-status map a replay of the given records computes. Records
/// that are not status records are skipped; the last status record of an id
/// wins.
pub open spec fn recover_txs(lines: Seq<Seq<char>>) -> Map<Seq<char>, bool>
    decreases lines.len(),
{
    if lines.len() == 0 {
        Map::empty()
    } else {
        let m = recover_txs(lines.drop_last());
        let l = lines.last();
        if is_status_line(l) {
            m.insert(status_tx(l), status_commits(l))
        } else {
            m
        }
    }
}

/// A transaction is committed when the status table holds `true` for it.
pub open spec fn committed(txs: Map<Seq<char>, bool>, t: Seq<char>) -> bool {
    txs.contains_key(t) && txs[t]
}

/// The records of a log, as mathematical values.
pub open spec fn lines_view(lines: Seq<String>) -> Seq<Seq<char>> {
    lines.map_values(|s: String| s@)
}

/// A status record built from a colon-free id parses back to its parts.
pub proof fn lemma_status_line_of(t: Seq<char>, flag: bool)
    requires
        no_colon(t),
    ensures
        is_status_line(status_line_of(t, flag)),
        status_tx(status_line_of(t, flag)) == t,
        status_commits(status_line_of(t, flag)) == flag,
{
    reveal_strlit("true");
    reveal_strlit("false");
    let s = status_line_of(t, flag);
    let n = t.len() as int;
    assert(s[n] == ':');
    assert(forall|j: int| 0 <= j < n ==> s[j] == t[j] && s[j] != ':');
    let tail = if flag { ("true")@ } else { ("false")@ };
    assert(forall|j: int| n < j < s.len() ==> s[j] == tail[j - n - 1]);
    assert(forall|j: int| 0 <= j < tail.len() ==> tail[j] != ':') by {
        crate::strutil::lemma_char_inj('t', ':');
        crate::strutil::lemma_char_inj('r', ':');
        crate::strutil::lemma_char_inj('u', ':');
        crate::strutil::lemma_char_inj('e', ':');
        crate::strutil::lemma_char_inj('f', ':');
        crate::strutil::lemma_char_inj('a', ':');
        crate::strutil::lemma_char_inj('l', ':');
        crate::strutil::lemma_char_inj('s', ':');
    }
    assert(one_colon_at(s, n));
    lemma_one_colon_unique(s, n);
    assert(s.take(n) =~= t);
    assert(s.skip(n + 1) =~= tail);
    if !flag {
        assert(("false")@ != ("true")@);
    }
}

/// The one colon's position is what `status_idx` picks.
pub proof fn lemma_one_colon_unique(s: Seq<char>, j: int)
    requires
        one_colon_at(s, j),
    ensures
        is_status_line(s),
        status_idx(s) == j,
{
    assert(is_status_line(s));
    assert(one_colon_at(s, status_idx(s)));
    lemma_first_colon_unique(s, status_idx(s), j);
}

/// A mutation-intent record holds at least two colons, so replay skips it.
pub proof fn lemma_set_line_not_status(t: Seq<char>, k: Seq<char>, v: Seq<char>)
    ensures
        !is_status_line(set_line_of(t, k, v)),
{
    let s = set_line_of(t, k, v);
    let p = t.len() as int;
    let q = t.len() + 1 + k.len() as int;
    assert(s[p] == ':');
    assert(s[q] == ':');
    if is_status_line(s) {
        let i = choose|i: int| one_colon_at(s, i);
        assert(i == p || s[p] != ':');
        assert(i == q || s[q] != ':');
        assert(false);
    }
}

/// Replaying one more record updates the recovered map accordingly.
pub proof fn lemma_recover_push(lines: Seq<Seq<char>>, l: Seq<char>)
    ensures
        is_status_line(l) ==> recover_txs(lines.push(l)) == recover_txs(lines).insert(
            status_tx(l),
            status_commits(l),
        ),
        !is_status_line(l) ==> recover_txs(lines.push(l)) == recover_txs(lines),
{
    assert(lines.push(l).drop_last() =~= lines);
    assert(lines.push(l).last() == l);
}

/// Replays log records into a commit-status table.
pub fn wal_recover(lines: &Vec<String>) -> (r: StrMap<bool>)
    ensures
        r.wf(),
        r.as_map() == recover_txs(lines_view(lines@)),
{
    let mut txs: StrMap<bool> = StrMap::new();
    let n = lines.len();
    let mut i: usize = 0;
    proof {
        assert(lines_view(lines@).take(0) =~= Seq::empty());
    }
    while i < n
        invariant
            i <= n,
            n == lines@.len(),
            txs.wf(),
            txs.as_map() == recover_txs(lines_view(lines@).take(i as int)),
        decreases n - i,
    {
        let line: &String = &lines[i];
        let ghost lv = lines_view(lines@);
        proof {
            assert(lv.take(i + 1 as int).drop_last() =~= lv.take(i as int));
            assert(lv.take(i + 1 as int).last() == line@);
        }
        match split_first_colon(line.as_str()) {
            Some(p) => {
                match find_first_colon(p.1.as_str()) {
                    Some(_) => {
                        proof {
                            lemma_not_status(line@);
                        }
                    },
                    None => {
                        proof {
                            lemma_is_status(line@);
                        }
                        let flag = str_eq(p.1.as_str(), "true");
                        proof {
                            assert(p.0@ =~= status_tx(line@));
                            assert(p.1@ =~= line@.skip(status_idx(line@) + 1));
                        }
                        txs.insert(p.0, flag);
                    },
                }
            },
            None => {
                proof {
                    assert(!is_status_line(line@));
                }
            },
        }
        i = i + 1;
    }
    proof {
        assert(lines_view(lines@).take(n as int) =~= lines_view(lines@));
    }
    txs
}

/// A record whose remainder after the first colon holds another colon is
/// not a status record.
proof fn lemma_not_status(s: Seq<char>)
    requires
        crate::strutil::has_colon(s),
        crate::strutil::has_colon(crate::strutil::rest_fields(s)),
    ensures
        !is_status_line(s),
{
    crate::strutil::lemma_first_colon_exists(s);
    let i = crate::strutil::first_colon(s);
    let r = crate::strutil::rest_fields(s);
    let j = choose|j: int| 0 <= j < r.len() && r[j] == ':';
    assert(s[i + 1 + j] == ':');
    if is_status_line(s) {
        let m = choose|m: int| one_colon_at(s, m);
        lemma_first_colon_unique(s, m, i);
        assert(s[i + 1 + j] != ':');
    }
}

/// A record whose remainder after the first colon is colon-free is a
/// status record.
proof fn lemma_is_status(s: Seq<char>)
    requires
        crate::strutil::has_colon(s),
        no_colon(crate::strutil::rest_fields(s)),
    ensures
        is_status_line(s),
        status_idx(s) == crate::strutil::first_colon(s),
{
    crate::strutil::lemma_first_colon_exists(s);
    let i = crate::strutil::first_colon(s);
    let r = crate::strutil::rest_fields(s);
    assert(forall|j: int| i < j < s.len() ==> s[j] == r[j - i - 1]);
    assert(one_colon_at(s, i));
    lemma_one_colon_unique(s, i);
}

} // verus!
