//! Character-sequence utilities: the lexicographic order that the store keys
//! and transaction ids follow, and colon-based splitting used by the physical
//! key encoding and the log format.

use vstd::prelude::*;

verus! {

/// Strict lexicographic order on character sequences, by code point.
pub open spec fn lex_lt(a: Seq<char>, b: Seq<char>) -> bool
    decreases a.len(),
{
    if b.len() == 0 {
        false
    } else if a.len() == 0 {
        true
    } else if a[0] == b[0] {
        lex_lt(a.skip(1), b.skip(1))
    } else {
        (a[0] as u32) < (b[0] as u32)
    }
}

/// Reflexive closure of `lex_lt`.
pub open spec fn lex_le(a: Seq<char>, b: Seq<char>) -> bool {
    lex_lt(a, b) || a == b
}

/// Distinct characters have distinct code points.
pub proof fn lemma_char_inj(a: char, b: char)
    ensures
        ((a as u32) == (b as u32)) == (a == b),
{
    vstd::utf8::char_u32_cast(a, a as u32);
    vstd::utf8::char_u32_cast(b, b as u32);
}

pub proof fn lemma_lex_irrefl(a: Seq<char>)
    ensures
        !lex_lt(a, a),
    decreases a.len(),
{
    if a.len() > 0 {
        lemma_lex_irrefl(a.skip(1));
    }
}

/// Any two sequences are ordered or equal.
pub proof fn lemma_lex_total(a: Seq<char>, b: Seq<char>)
    ensures
        lex_lt(a, b) || lex_lt(b, a) || a == b,
    decreases a.len(),
{
    if a.len() == 0 && b.len() == 0 {
        assert(a =~= b);
    } else if a.len() > 0 && b.len() > 0 {
        if a[0] == b[0] {
            lemma_lex_total(a.skip(1), b.skip(1));
            if a.skip(1) == b.skip(1) {
                assert(a =~= seq![a[0]] + a.skip(1));
                assert(b =~= seq![b[0]] + b.skip(1));
            }
        } else {
            lemma_char_inj(a[0], b[0]);
        }
    }
}

pub proof fn lemma_lex_asym(a: Seq<char>, b: Seq<char>)
    ensures
        lex_lt(a, b) ==> !lex_lt(b, a),
    decreases a.len(),
{
    if a.len() > 0 && b.len() > 0 && a[0] == b[0] {
        lemma_lex_asym(a.skip(1), b.skip(1));
    }
}

pub proof fn lemma_lex_trans(a: Seq<char>, b: Seq<char>, c: Seq<char>)
    ensures
        lex_lt(a, b) && lex_lt(b, c) ==> lex_lt(a, c),
    decreases a.len(),
{
    if a.len() > 0 && b.len() > 0 && c.len() > 0 {
        lemma_lex_trans(a.skip(1), b.skip(1), c.skip(1));
    }
}

/// Comparing two sequences that share a common prefix compares the tails.
pub proof fn lemma_lex_common_prefix(x: Seq<char>, a: Seq<char>, b: Seq<char>)
    ensures
        lex_lt(x + a, x + b) == lex_lt(a, b),
    decreases x.len(),
{
    if x.len() == 0 {
        assert(x + a =~= a);
        assert(x + b =~= b);
    } else {
        assert((x + a).skip(1) =~= x.skip(1) + a);
        assert((x + b).skip(1) =~= x.skip(1) + b);
        lemma_lex_common_prefix(x.skip(1), a, b);
    }
}

/// Positional characterization: if two sequences agree below `i` and `i` is
/// in range of both, the order is decided at `i` when the characters differ.
pub proof fn lemma_lex_at_index(a: Seq<char>, b: Seq<char>, i: int)
    requires
        0 <= i < a.len(),
        0 <= i < b.len(),
        forall|j: int| 0 <= j < i ==> a[j] == b[j],
        a[i] != b[i],
    ensures
        lex_lt(a, b) == ((a[i] as u32) < (b[i] as u32)),
    decreases i,
{
    if i > 0 {
        lemma_lex_at_index(a.skip(1), b.skip(1), i - 1);
    }
}

/// If one sequence runs out while agreeing with the other, the shorter is
/// smaller.
pub proof fn lemma_lex_prefix_at(a: Seq<char>, b: Seq<char>)
    requires
        a.len() < b.len(),
        forall|j: int| 0 <= j < a.len() ==> a[j] == b[j],
    ensures
        lex_lt(a, b),
    decreases a.len(),
{
    if a.len() > 0 {
        lemma_lex_prefix_at(a.skip(1), b.skip(1));
    }
}

/// True when the sequence holds a colon somewhere.
pub open spec fn has_colon(s: Seq<char>) -> bool {
    exists|i: int| 0 <= i < s.len() && s[i] == ':'
}

/// True when the sequence holds no colon at all.
pub open spec fn no_colon(s: Seq<char>) -> bool {
    forall|i: int| 0 <= i < s.len() ==> s[i] != ':'
}

/// `i` is the position of the last colon of `s`.
pub open spec fn last_colon_at(s: Seq<char>, i: int) -> bool {
    0 <= i < s.len() && s[i] == ':' && (forall|j: int| i < j < s.len() ==> s[j] != ':')
}

/// `i` is the position of the first colon of `s`.
pub open spec fn first_colon_at(s: Seq<char>, i: int) -> bool {
    0 <= i < s.len() && s[i] == ':' && (forall|j: int| 0 <= j < i ==> s[j] != ':')
}

pub proof fn lemma_last_colon_unique(s: Seq<char>, i: int, j: int)
    requires
        last_colon_at(s, i),
        last_colon_at(s, j),
    ensures
        i == j,
{
}

pub proof fn lemma_first_colon_unique(s: Seq<char>, i: int, j: int)
    requires
        first_colon_at(s, i),
        first_colon_at(s, j),
    ensures
        i == j,
{
}

/// Index of the last colon (meaningful only when `has_colon(s)`).
pub open spec fn last_colon(s: Seq<char>) -> int {
    choose|i: int| last_colon_at(s, i)
}

/// A sequence with a colon has a first one.
pub proof fn lemma_first_colon_exists(s: Seq<char>)
    requires
        has_colon(s),
    ensures
        first_colon_at(s, first_colon(s)),
    decreases s.len(),
{
    if s[0] == ':' {
        assert(first_colon_at(s, 0));
    } else {
        assert(has_colon(s.skip(1))) by {
            let i = choose|i: int| 0 <= i < s.len() && s[i] == ':';
            assert(s.skip(1)[i - 1] == ':');
        }
        lemma_first_colon_exists(s.skip(1));
        let j = first_colon(s.skip(1));
        assert(s[j + 1] == s.skip(1)[j]);
        assert forall|a: int| 0 <= a < j + 1 implies s[a] != ':' by {
            if a >= 1 {
                assert(s[a] == s.skip(1)[a - 1]);
            }
        }
        assert(first_colon_at(s, j + 1));
    }
}

/// A sequence with a colon has a last one.
pub proof fn lemma_last_colon_exists(s: Seq<char>)
    requires
        has_colon(s),
    ensures
        last_colon_at(s, last_colon(s)),
    decreases s.len(),
{
    let n = s.len() as int;
    if s[n - 1] == ':' {
        assert(last_colon_at(s, n - 1));
    } else {
        assert(has_colon(s.drop_last())) by {
            let i = choose|i: int| 0 <= i < s.len() && s[i] == ':';
            assert(s.drop_last()[i] == ':');
        }
        lemma_last_colon_exists(s.drop_last());
        let j = last_colon(s.drop_last());
        assert(s[j] == s.drop_last()[j]);
        assert forall|a: int| j < a < n implies s[a] != ':' by {
            if a < n - 1 {
                assert(s[a] == s.drop_last()[a]);
            }
        }
        assert(last_colon_at(s, j));
    }
}

/// Index of the first colon (meaningful only when `has_colon(s)`).
pub open spec fn first_colon(s: Seq<char>) -> int {
    choose|i: int| first_colon_at(s, i)
}

/// Everything before the last colon.
pub open spec fn user_part(s: Seq<char>) -> Seq<char> {
    s.take(last_colon(s))
}

/// Everything after the last colon.
pub open spec fn tx_part(s: Seq<char>) -> Seq<char> {
    s.skip(last_colon(s) + 1)
}

/// Everything before the first colon; the whole sequence when there is none.
pub open spec fn head_field(s: Seq<char>) -> Seq<char> {
    if has_colon(s) {
        s.take(first_colon(s))
    } else {
        s
    }
}

/// Everything after the first colon (meaningful only when `has_colon(s)`).
pub open spec fn rest_fields(s: Seq<char>) -> Seq<char> {
    s.skip(first_colon(s) + 1)
}

/// A physical key: the logical part, a colon, and the producing tx id.
pub open spec fn phys_of(u: Seq<char>, t: Seq<char>) -> Seq<char> {
    u + seq![':'] + t
}

/// When the suffix holds no colon, splitting a physical key at its last
/// colon recovers the two components.
pub proof fn lemma_phys_split(u: Seq<char>, t: Seq<char>)
    requires
        no_colon(t),
    ensures
        last_colon_at(phys_of(u, t), u.len() as int),
        user_part(phys_of(u, t)) == u,
        tx_part(phys_of(u, t)) == t,
{
    let p = phys_of(u, t);
    assert(p[u.len() as int] == ':');
    assert(forall|j: int| u.len() < j < p.len() ==> p[j] == t[j - u.len() - 1] && p[j] != ':');
    assert(last_colon_at(p, u.len() as int));
    lemma_last_colon_unique(p, last_colon(p), u.len() as int);
    assert(p.take(u.len() as int) =~= u);
    assert(p.skip(u.len() + 1 as int) =~= t);
}

/// Physical keys of the same logical key are ordered as their tx ids.
pub proof fn lemma_phys_order(u: Seq<char>, t1: Seq<char>, t2: Seq<char>)
    ensures
        lex_lt(phys_of(u, t1), phys_of(u, t2)) == lex_lt(t1, t2),
{
    assert(phys_of(u, t1) =~= (u + seq![':']) + t1);
    assert(phys_of(u, t2) =~= (u + seq![':']) + t2);
    lemma_lex_common_prefix(u + seq![':'], t1, t2);
}

/// Length of a string slice in characters, as an executable value.
pub fn str_char_len(s: &str) -> (n: usize)
    ensures
        n == s@.len(),
{
    s.unicode_len()
}

/// Decides strict lexicographic order between two string slices.
pub fn str_lt(a: &str, b: &str) -> (r: bool)
    ensures
        r == lex_lt(a@, b@),
{
    let alen = a.unicode_len();
    let blen = b.unicode_len();
    let mut i: usize = 0;
    while i < alen && i < blen
        invariant
            i <= alen,
            i <= blen,
            alen == a@.len(),
            blen == b@.len(),
            forall|j: int| 0 <= j < i ==> a@[j] == b@[j],
        decreases alen - i,
    {
        let ca = a.get_char(i);
        let cb = b.get_char(i);
        if ca != cb {
            proof {
                lemma_lex_at_index(a@, b@, i as int);
            }
            return (ca as u32) < (cb as u32);
        }
        i = i + 1;
    }
    proof {
        if alen < blen {
            lemma_lex_prefix_at(a@, b@);
        } else if alen == blen {
            assert(a@ =~= b@);
            lemma_lex_irrefl(a@);
        } else {
            lemma_lex_at_ge(a@, b@);
        }
    }
    alen < blen
}

/// A sequence that extends beyond another while agreeing with it is not
/// smaller.
proof fn lemma_lex_at_ge(a: Seq<char>, b: Seq<char>)
    requires
        b.len() <= a.len(),
        forall|j: int| 0 <= j < b.len() ==> a[j] == b[j],
    ensures
        !lex_lt(a, b),
    decreases b.len(),
{
    if b.len() > 0 {
        lemma_lex_at_ge(a.skip(1), b.skip(1));
    }
}

/// Decides `lex_le` between two string slices.
pub fn str_le(a: &str, b: &str) -> (r: bool)
    ensures
        r == lex_le(a@, b@),
{
    let r = str_lt(b, a);
    proof {
        lemma_lex_total(a@, b@);
        lemma_lex_asym(a@, b@);
        lemma_lex_irrefl(a@);
    }
    !r
}

/// Decides equality of the character sequences of two string slices.
pub fn str_eq(a: &str, b: &str) -> (r: bool)
    ensures
        r == (a@ == b@),
{
    let alen = a.unicode_len();
    let blen = b.unicode_len();
    if alen != blen {
        return false;
    }
    let mut i: usize = 0;
    while i < alen
        invariant
            i <= alen,
            alen == a@.len(),
            alen == b@.len(),
            forall|j: int| 0 <= j < i ==> a@[j] == b@[j],
        decreases alen - i,
    {
        if a.get_char(i) != b.get_char(i) {
            return false;
        }
        i = i + 1;
    }
    proof {
        assert(a@ =~= b@);
    }
    true
}

/// Concatenates two string slices into an owned string.
pub fn str_concat(a: &str, b: &str) -> (r: String)
    ensures
        r@ == a@ + b@,
{
    let mut s = a.to_owned();
    s.append(b);
    s
}

/// Finds the last colon of a string slice, if any.
pub fn find_last_colon(s: &str) -> (r: Option<usize>)
    ensures
        match r {
            Some(i) => last_colon_at(s@, i as int),
            None => no_colon(s@),
        },
{
    let n = s.unicode_len();
    let mut i: usize = n;
    while i > 0
        invariant
            i <= n,
            n == s@.len(),
            forall|j: int| i <= j < n ==> s@[j] != ':',
        decreases i,
    {
        i = i - 1;
        if s.get_char(i) == ':' {
            return Some(i);
        }
    }
    None
}

/// Finds the first colon of a string slice, if any.
pub fn find_first_colon(s: &str) -> (r: Option<usize>)
    ensures
        match r {
            Some(i) => first_colon_at(s@, i as int),
            None => no_colon(s@),
        },
{
    let n = s.unicode_len();
    let mut i: usize = 0;
    while i < n
        invariant
            i <= n,
            n == s@.len(),
            forall|j: int| 0 <= j < i ==> s@[j] != ':',
        decreases n - i,
    {
        if s.get_char(i) == ':' {
            return Some(i);
        }
        i = i + 1;
    }
    None
}

/// Splits at the last colon: the part before and the part after.
pub fn split_last_colon(s: &str) -> (r: Option<(String, String)>)
    ensures
        match r {
            Some(p) => has_colon(s@) && p.0@ == user_part(s@) && p.1@ == tx_part(s@),
            None => no_colon(s@),
        },
{
    let n = s.unicode_len();
    match find_last_colon(s) {
        Some(i) => {
            proof {
                lemma_last_colon_unique(s@, last_colon(s@), i as int);
            }
            let before = s.substring_char(0, i).to_owned();
            let after = s.substring_char(i + 1, n).to_owned();
            proof {
                assert(before@ =~= user_part(s@));
                assert(after@ =~= tx_part(s@));
            }
            Some((before, after))
        },
        None => None,
    }
}

/// Splits at the first colon: the head field and the remainder.
pub fn split_first_colon(s: &str) -> (r: Option<(String, String)>)
    ensures
        match r {
            Some(p) => has_colon(s@) && p.0@ == head_field(s@) && p.1@ == rest_fields(s@),
            None => no_colon(s@),
        },
{
    let n = s.unicode_len();
    match find_first_colon(s) {
        Some(i) => {
            proof {
                lemma_first_colon_unique(s@, first_colon(s@), i as int);
            }
            let before = s.substring_char(0, i).to_owned();
            let after = s.substring_char(i + 1, n).to_owned();
            proof {
                assert(before@ =~= head_field(s@));
                assert(after@ =~= rest_fields(s@));
            }
            Some((before, after))
        },
        None => None,
    }
}


/// `a` is an initial segment of `b`.
pub open spec fn is_prefix(a: Seq<char>, b: Seq<char>) -> bool {
    a.len() <= b.len() && forall|j: int| 0 <= j < a.len() ==> a[j] == b[j]
}

/// Two ordered sequences, neither a prefix of the other, differ first at
/// some position inside both; everything below it agrees.
pub proof fn lemma_lex_first_diff(a: Seq<char>, b: Seq<char>) -> (i: int)
    requires
        lex_lt(a, b),
        !is_prefix(a, b),
    ensures
        0 <= i < a.len(),
        i < b.len(),
        forall|j: int| 0 <= j < i ==> a[j] == b[j],
        (a[i] as u32) < (b[i] as u32),
    decreases a.len(),
{
    if a.len() == 0 {
        assert(is_prefix(a, b));
        0
    } else if b.len() == 0 {
        0
    } else if a[0] == b[0] {
        assert(!is_prefix(a.skip(1), b.skip(1))) by {
            if is_prefix(a.skip(1), b.skip(1)) {
                assert forall|j: int| 0 <= j < a.len() implies a[j] == b[j] by {
                    if j > 0 {
                        assert(a.skip(1)[j - 1] == b.skip(1)[j - 1]);
                    }
                }
                assert(is_prefix(a, b));
            }
        }
        let i = lemma_lex_first_diff(a.skip(1), b.skip(1));
        assert forall|j: int| 0 <= j < i + 1 implies a[j] == b[j] by {
            if j > 0 {
                assert(a.skip(1)[j - 1] == b.skip(1)[j - 1]);
            }
        }
        assert(a[i + 1] == a.skip(1)[i]);
        assert(b[i + 1] == b.skip(1)[i]);
        i + 1
    } else {
        0
    }
}

/// Prefix-independent logical keys order their physical keys as
/// themselves, whatever the suffixes.
pub proof fn lemma_phys_sep(u1: Seq<char>, t1: Seq<char>, u2: Seq<char>, t2: Seq<char>)
    requires
        lex_lt(u1, u2),
        !is_prefix(u1, u2),
        !is_prefix(u2, u1),
    ensures
        lex_lt(phys_of(u1, t1), phys_of(u2, t2)),
{
    let i = lemma_lex_first_diff(u1, u2);
    let p1 = phys_of(u1, t1);
    let p2 = phys_of(u2, t2);
    assert(forall|j: int| 0 <= j < u1.len() ==> p1[j] == u1[j]);
    assert(forall|j: int| 0 <= j < u2.len() ==> p2[j] == u2[j]);
    lemma_lex_at_index(p1, p2, i);
}

/// A physical key of `u1` sorts below any plain key above `u1`, when the
/// two are prefix-independent.
pub proof fn lemma_phys_below_plain(u1: Seq<char>, t1: Seq<char>, w: Seq<char>)
    requires
        lex_lt(u1, w),
        !is_prefix(u1, w),
        !is_prefix(w, u1),
    ensures
        lex_lt(phys_of(u1, t1), w),
{
    let i = lemma_lex_first_diff(u1, w);
    let p1 = phys_of(u1, t1);
    assert(forall|j: int| 0 <= j < u1.len() ==> p1[j] == u1[j]);
    lemma_lex_at_index(p1, w, i);
}

/// A plain key below `u2` sorts below any physical key of `u2`, when the
/// two are prefix-independent.
pub proof fn lemma_plain_below_phys(w: Seq<char>, u2: Seq<char>, t2: Seq<char>)
    requires
        lex_lt(w, u2),
        !is_prefix(w, u2),
        !is_prefix(u2, w),
    ensures
        lex_lt(w, phys_of(u2, t2)),
{
    let i = lemma_lex_first_diff(w, u2);
    let p2 = phys_of(u2, t2);
    assert(forall|j: int| 0 <= j < u2.len() ==> p2[j] == u2[j]);
    lemma_lex_at_index(w, p2, i);
}

} // verus!
