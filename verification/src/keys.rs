//! The physical key codec. A user-level entry is stored under
//! `<key>:<tx>`; row columns under `<table>:<id>:<column>:<tx>`; secondary
//! indexes under `<table>:<column>:<value>:<tx>`. Keys that start with `**`
//! are meta keys and carry system state such as auto-increment counters.

use vstd::prelude::*;

use crate::numstr::{all_digits, dec_val, parse_u64};
use crate::strutil::{has_colon, head_field, lemma_lex_common_prefix, rest_fields,
    split_first_colon, split_last_colon, str_concat, tx_part, user_part, phys_of};

verus! {

/// True of a physical key that belongs to system metadata.
pub open spec fn is_meta_seq(k: Seq<char>) -> bool {
    k.len() >= 2 && k[0] == '*' && k[1] == '*'
}

/// Reports whether a physical key is a meta key (one that starts with `**`).
pub fn is_meta(k: &str) -> (r: bool)
    ensures
        r == is_meta_seq(k@),
{
    if k.unicode_len() < 2 {
        return false;
    }
    let c0 = k.get_char(0);
    let c1 = k.get_char(1);
    c0 == '*' && c1 == '*'
}

/// Relies on `core::str::from_utf8` (and `str::to_owned`): on valid UTF-8
/// input it returns the string whose bytes are exactly the input, that is,
/// the decoding of those bytes.
#[verifier::external_body]
pub fn bytes_to_string(v: &[u8]) -> (r: String)
    requires
        vstd::utf8::valid_utf8(v@),
    ensures
        r@ == vstd::utf8::decode_utf8(v@),
{
    std::str::from_utf8(v).unwrap().to_owned()
}

/// The logical-key portion of a physical key: everything before the last
/// colon, or the whole key when it has none.
pub fn data_value(val: &str) -> (r: String)
    ensures
        has_colon(val@) ==> r@ == user_part(val@),
        !has_colon(val@) ==> r@ == val@,
{
    match split_last_colon(val) {
        Some(p) => p.0,
        None => val.to_owned(),
    }
}

/// The transaction-id suffix of a physical key: everything after the last
/// colon.
pub fn data_tx_id(val: &str) -> (r: String)
    requires
        has_colon(val@),
    ensures
        r@ == tx_part(val@),
{
    match split_last_colon(val) {
        Some(p) => p.1,
        None => {
            proof {
                assert(false);
            }
            String::new()
        },
    }
}

/// The transaction-id suffix of a row-layer key: the last colon-separated
/// field, or the whole key when it has no colon.
pub fn row_tx_id(s: &str) -> (r: String)
    ensures
        has_colon(s@) ==> r@ == tx_part(s@),
        !has_colon(s@) ==> r@ == s@,
{
    match split_last_colon(s) {
        Some(p) => p.1,
        None => s.to_owned(),
    }
}

/// The second colon-separated field of an encoded key.
pub open spec fn field1(s: Seq<char>) -> Seq<char> {
    head_field(rest_fields(s))
}

/// The third colon-separated field of an encoded key.
pub open spec fn field2(s: Seq<char>) -> Seq<char> {
    head_field(rest_fields(rest_fields(s)))
}

/// The second colon-separated field of an encoded key, as text.
pub fn table_name(s: &str) -> (r: String)
    requires
        has_colon(s@),
    ensures
        r@ == field1(s@),
{
    match split_first_colon(s) {
        Some(p) => {
            match split_first_colon(p.1.as_str()) {
                Some(q) => q.0,
                None => p.1,
            }
        },
        None => {
            proof {
                assert(false);
            }
            String::new()
        },
    }
}

/// The primary-id field of a row-layer key, parsed as a number.
pub fn primary_key(s: &str) -> (r: u64)
    requires
        has_colon(s@),
        field1(s@).len() > 0,
        all_digits(field1(s@)),
        dec_val(field1(s@)) <= u64::MAX,
    ensures
        r == dec_val(field1(s@)),
{
    let f = table_name(s);
    match parse_u64(f.as_str()) {
        Some(n) => n,
        None => {
            proof {
                assert(false);
            }
            0
        },
    }
}

/// The column-name field of a row-layer key.
pub fn col(s: &str) -> (r: String)
    requires
        has_colon(s@),
        has_colon(rest_fields(s@)),
    ensures
        r@ == field2(s@),
{
    match split_first_colon(s) {
        Some(p) => {
            match split_first_colon(p.1.as_str()) {
                Some(q) => {
                    match split_first_colon(q.1.as_str()) {
                        Some(t) => t.0,
                        None => q.1,
                    }
                },
                None => {
                    proof {
                        assert(false);
                    }
                    String::new()
                },
            }
        },
        None => {
            proof {
                assert(false);
            }
            String::new()
        },
    }
}

/// Builds the physical key `<key>:<tx>`.
pub fn make_phys(key: &str, tx: &str) -> (r: String)
    ensures
        r@ == phys_of(key@, tx@),
{
    let mut s = key.to_owned();
    s.append(":");
    s.append(tx);
    proof {
        reveal_strlit(":");
        assert(s@ =~= phys_of(key@, tx@));
    }
    s
}

/// The synthetic upper bound a reverse seek starts from: `<key>:9`. The `9`
/// sentinel sorts above every canonical tx id, whose first digit is 0 or 1.
pub open spec fn seek_bound(k: Seq<char>) -> Seq<char> {
    k + seq![':', '9']
}

/// Builds the reverse-seek bound `<key>:9`.
pub fn make_bound(key: &str) -> (r: String)
    ensures
        r@ == seek_bound(key@),
{
    let mut s = key.to_owned();
    s.append(":9");
    proof {
        reveal_strlit(":9");
        assert(s@ =~= seek_bound(key@));
    }
    s
}

/// A physical key of `u` lies at or below `u`'s seek bound exactly when its
/// tx suffix lies at or below the one-character sentinel.
pub proof fn lemma_phys_vs_bound(u: Seq<char>, t: Seq<char>)
    ensures
        crate::strutil::lex_le(phys_of(u, t), seek_bound(u)) == crate::strutil::lex_le(
            t,
            seq!['9'],
        ),
{
    assert(phys_of(u, t) =~= (u + seq![':']) + t);
    assert(seek_bound(u) =~= (u + seq![':']) + seq!['9']);
    lemma_lex_common_prefix(u + seq![':'], t, seq!['9']);
    if t == seq!['9'] {
        assert(phys_of(u, t) =~= seek_bound(u));
    }
    if phys_of(u, t) == seek_bound(u) {
        assert(t =~= phys_of(u, t).skip(u.len() + 1 as int));
        assert(seq!['9'] =~= seek_bound(u).skip(u.len() + 1 as int));
    }
}

/// The meta key that stores a table's auto-increment counter.
pub open spec fn autoinc_of(table: Seq<char>) -> Seq<char> {
    ("**autoincrement**")@ + table
}

/// Builds the auto-increment counter key of a table.
pub fn autoinc_key(table: &str) -> (r: String)
    ensures
        r@ == autoinc_of(table@),
        is_meta_seq(r@),
{
    let s = str_concat("**autoincrement**", table);
    proof {
        reveal_strlit("**autoincrement**");
    }
    s
}

/// Three fields joined by colons, the shape of row-column keys
/// `<table>:<id>:<column>` and index keys `<table>:<column>:<value>`.
pub open spec fn joined3(a: Seq<char>, b: Seq<char>, c: Seq<char>) -> Seq<char> {
    a + seq![':'] + b + seq![':'] + c
}

/// Builds `<a>:<b>:<c>`.
pub fn join3(a: &str, b: &str, c: &str) -> (r: String)
    ensures
        r@ == joined3(a@, b@, c@),
{
    let mut s = a.to_owned();
    s.append(":");
    s.append(b);
    s.append(":");
    s.append(c);
    proof {
        reveal_strlit(":");
        assert(s@ =~= joined3(a@, b@, c@));
    }
    s
}

/// The row-marker logical key `<table>:id`.
pub open spec fn marker_of(table: Seq<char>) -> Seq<char> {
    table + (":id")@
}

/// Builds the row-marker logical key `<table>:id`.
pub fn marker_key(table: &str) -> (r: String)
    ensures
        r@ == marker_of(table@),
{
    let mut s = table.to_owned();
    s.append(":id");
    s
}

} // verus!
