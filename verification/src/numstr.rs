//! Decimal text: parsing and rendering of unsigned counters, and the
//! fixed-width zero-padded form used for transaction ids, whose
//! lexicographic order coincides with numeric order.

use vstd::prelude::*;

use crate::strutil::{lex_lt, lemma_char_inj, lemma_lex_at_index, no_colon};

verus! {

pub open spec fn is_digit(c: char) -> bool {
    48 <= (c as u32) <= 57
}

/// Numeric value of a digit character (meaningful only for digits).
pub open spec fn digit_val(c: char) -> nat {
    ((c as u32) - 48) as nat
}

pub open spec fn all_digits(s: Seq<char>) -> bool {
    forall|i: int| 0 <= i < s.len() ==> is_digit(#[trigger] s[i])
}

pub open spec fn digit_char(d: nat) -> char {
    if d == 0 { '0' }
    else if d == 1 { '1' }
    else if d == 2 { '2' }
    else if d == 3 { '3' }
    else if d == 4 { '4' }
    else if d == 5 { '5' }
    else if d == 6 { '6' }
    else if d == 7 { '7' }
    else if d == 8 { '8' }
    else { '9' }
}

/// Value of a digit sequence read as a decimal number.
pub open spec fn dec_val(s: Seq<char>) -> nat
    decreases s.len(),
{
    if s.len() == 0 {
        0
    } else {
        dec_val(s.drop_last()) * 10 + digit_val(s.last())
    }
}

pub open spec fn pow10(k: nat) -> nat
    decreases k,
{
    if k == 0 {
        1
    } else {
        10 * pow10((k - 1) as nat)
    }
}

/// Decimal rendering of `n`, most significant digit first, no padding.
pub open spec fn dec_seq(n: nat) -> Seq<char>
    decreases n,
{
    if n < 10 {
        seq![digit_char(n)]
    } else {
        dec_seq(n / 10).push(digit_char(n % 10))
    }
}

/// The last `k` decimal digits of `n`, zero padded to width `k`.
pub open spec fn pad_seq(n: nat, k: nat) -> Seq<char>
    decreases k,
{
    if k == 0 {
        Seq::empty()
    } else {
        pad_seq(n / 10, (k - 1) as nat).push(digit_char(n % 10))
    }
}

/// The canonical shape of a transaction id allocated by this library:
/// a 20-digit zero-padded decimal whose value fits a `u64`.
pub open spec fn is_canon_id(s: Seq<char>) -> bool {
    s.len() == 20 && all_digits(s) && dec_val(s) <= u64::MAX
}

pub proof fn lemma_digit_char_val(d: nat)
    requires
        d < 10,
    ensures
        is_digit(digit_char(d)),
        digit_val(digit_char(d)) == d,
{
}

/// Digit characters are no colon, so digit strings split cleanly.
pub proof fn lemma_digits_no_colon(s: Seq<char>)
    requires
        all_digits(s),
    ensures
        no_colon(s),
{
    assert forall|i: int| 0 <= i < s.len() implies s[i] != ':' by {
        lemma_char_inj(s[i], ':');
        assert((':' as u32) == 58);
    }
}

pub proof fn lemma_dec_val_bound(s: Seq<char>)
    requires
        all_digits(s),
    ensures
        dec_val(s) < pow10(s.len() as nat),
    decreases s.len(),
{
    if s.len() == 0 {
    } else {
        lemma_dec_val_bound(s.drop_last());
        let p = pow10((s.len() - 1) as nat);
        assert(dec_val(s.drop_last()) * 10 + digit_val(s.last()) < p * 10) by (nonlinear_arith)
            requires
                dec_val(s.drop_last()) < p,
                digit_val(s.last()) < 10,
        {}
    }
}

/// A digit sequence is worth at least any of its prefixes.
pub proof fn lemma_dec_val_prefix(s: Seq<char>, i: int)
    requires
        all_digits(s),
        0 <= i <= s.len(),
    ensures
        dec_val(s) >= dec_val(s.take(i)),
    decreases s.len() - i,
{
    if i < s.len() {
        lemma_dec_val_prefix(s.drop_last(), i);
        assert(s.drop_last().take(i) =~= s.take(i));
        assert(dec_val(s.drop_last()) * 10 >= dec_val(s.drop_last())) by (nonlinear_arith) {}
    } else {
        assert(s.take(i) =~= s);
    }
}

/// Front decomposition of the decimal value.
pub proof fn lemma_dec_val_front(s: Seq<char>)
    requires
        s.len() > 0,
    ensures
        dec_val(s) == digit_val(s[0]) * pow10((s.len() - 1) as nat) + dec_val(s.skip(1)),
    decreases s.len(),
{
    if s.len() == 1 {
        assert(s.drop_last().len() == 0);
        assert(s.skip(1).len() == 0);
        assert(s.last() == s[0]);
        assert(pow10(0) == 1);
        assert(dec_val(s.drop_last()) == 0);
        assert(dec_val(s.skip(1)) == 0);
        assert(dec_val(s) == digit_val(s[0]));
        assert(digit_val(s[0]) * 1 == digit_val(s[0])) by (nonlinear_arith) {}
    } else {
        let d = s.drop_last();
        lemma_dec_val_front(d);
        assert(d.skip(1) =~= s.skip(1).drop_last());
        assert(d[0] == s[0]);
        let p = pow10((d.len() - 1) as nat);
        let h = digit_val(s[0]);
        assert(dec_val(s) == (h * p + dec_val(s.skip(1).drop_last())) * 10 + digit_val(s.last()));
        assert(s.skip(1).last() == s.last());
        assert((h * p + dec_val(s.skip(1).drop_last())) * 10
            == h * (p * 10) + dec_val(s.skip(1).drop_last()) * 10) by (nonlinear_arith) {}
        assert(pow10((s.len() - 1) as nat) == p * 10) by {
            assert((s.len() - 1) as nat == ((d.len() - 1) + 1) as nat);
        }
        assert(dec_val(s.skip(1)) == dec_val(s.skip(1).drop_last()) * 10 + digit_val(s.skip(1).last()));
    }
}

/// On digit sequences of equal length, numeric order is lexicographic order.
pub proof fn lemma_dec_lex(a: Seq<char>, b: Seq<char>)
    requires
        all_digits(a),
        all_digits(b),
        a.len() == b.len(),
        dec_val(a) < dec_val(b),
    ensures
        lex_lt(a, b),
    decreases a.len(),
{
    if a.len() > 0 {
        lemma_dec_val_front(a);
        lemma_dec_val_front(b);
        let p = pow10((a.len() - 1) as nat);
        let ha = digit_val(a[0]);
        let hb = digit_val(b[0]);
        lemma_dec_val_bound(a.skip(1));
        lemma_dec_val_bound(b.skip(1));
        if a[0] == b[0] {
            lemma_dec_lex(a.skip(1), b.skip(1));
        } else {
            lemma_char_inj(a[0], b[0]);
            assert(ha != hb);
            if ha > hb {
                assert(ha * p >= hb * p + p) by (nonlinear_arith)
                    requires
                        ha >= hb + 1,
                        p >= 0,
                {}
                assert(false);
            }
            assert((a[0] as u32) < (b[0] as u32));
            lemma_lex_at_index(a, b, 0);
        }
    }
}

/// Digit sequences of equal length with equal value are equal.
pub proof fn lemma_dec_inj(a: Seq<char>, b: Seq<char>)
    requires
        all_digits(a),
        all_digits(b),
        a.len() == b.len(),
        dec_val(a) == dec_val(b),
    ensures
        a == b,
    decreases a.len(),
{
    if a.len() > 0 {
        lemma_dec_val_front(a);
        lemma_dec_val_front(b);
        let p = pow10((a.len() - 1) as nat);
        lemma_dec_val_bound(a.skip(1));
        lemma_dec_val_bound(b.skip(1));
        if a[0] != b[0] {
            lemma_char_inj(a[0], b[0]);
            assert(digit_val(a[0]) != digit_val(b[0]));
            if digit_val(a[0]) < digit_val(b[0]) {
                assert(digit_val(b[0]) * p >= digit_val(a[0]) * p + p) by (nonlinear_arith)
                    requires
                        digit_val(b[0]) >= digit_val(a[0]) + 1,
                        p >= 0,
                {}
            } else {
                assert(digit_val(a[0]) * p >= digit_val(b[0]) * p + p) by (nonlinear_arith)
                    requires
                        digit_val(a[0]) >= digit_val(b[0]) + 1,
                        p >= 0,
                {}
            }
            assert(false);
        }
        assert(digit_val(a[0]) * p == digit_val(b[0]) * p);
        lemma_dec_inj(a.skip(1), b.skip(1));
        assert(a =~= seq![a[0]] + a.skip(1));
        assert(b =~= seq![b[0]] + b.skip(1));
    } else {
        assert(a =~= b);
    }
}

/// The padded rendering carries exactly the value `n` when `n` fits.
pub proof fn lemma_pad_seq_val(n: nat, k: nat)
    requires
        n < pow10(k),
    ensures
        pad_seq(n, k).len() == k,
        all_digits(pad_seq(n, k)),
        dec_val(pad_seq(n, k)) == n,
    decreases k,
{
    lemma_pad_seq_shape(n, k);
    if k > 0 {
        assert(n / 10 < pow10((k - 1) as nat)) by (nonlinear_arith)
            requires
                n < 10 * pow10((k - 1) as nat),
                pow10((k - 1) as nat) > 0,
        {}
        lemma_pad_seq_val(n / 10, (k - 1) as nat);
        let s = pad_seq(n, k);
        assert(s.drop_last() =~= pad_seq(n / 10, (k - 1) as nat));
        lemma_digit_char_val(n % 10);
        assert(dec_val(s) == (n / 10) * 10 + n % 10);
        assert((n / 10) * 10 + n % 10 == n) by (nonlinear_arith) {}
    }
    lemma_pow10_pos(k);
}

pub proof fn lemma_pow10_pos(k: nat)
    ensures
        pow10(k) >= 1,
    decreases k,
{
    if k > 0 {
        lemma_pow10_pos((k - 1) as nat);
    }
}

/// Shape of the padded rendering, independent of the value's size.
pub proof fn lemma_pad_seq_shape(n: nat, k: nat)
    ensures
        pad_seq(n, k).len() == k,
        all_digits(pad_seq(n, k)),
    decreases k,
{
    if k > 0 {
        lemma_pad_seq_shape(n / 10, (k - 1) as nat);
        lemma_digit_char_val(n % 10);
        let s = pad_seq(n, k);
        assert forall|i: int| 0 <= i < s.len() implies is_digit(s[i]) by {
            if i < k - 1 {
                assert(s[i] == pad_seq(n / 10, (k - 1) as nat)[i]);
            }
        }
    }
}

/// Concrete size of the id width: every `u64` fits in 20 digits.
pub proof fn lemma_u64_fits_pad20()
    ensures
        u64::MAX < pow10(20),
{
    reveal_with_fuel(pow10, 21);
}

/// The canonical id rendering is monotone: larger counters give
/// lexicographically larger ids.
pub proof fn lemma_canon_lt(m: nat, n: nat)
    requires
        m < n,
        n <= u64::MAX,
    ensures
        lex_lt(pad_seq(m, 20), pad_seq(n, 20)),
{
    lemma_u64_fits_pad20();
    lemma_pad_seq_val(m, 20);
    lemma_pad_seq_val(n, 20);
    lemma_dec_lex(pad_seq(m, 20), pad_seq(n, 20));
}

pub proof fn lemma_canon_is_canon(n: nat)
    requires
        n <= u64::MAX,
    ensures
        is_canon_id(pad_seq(n, 20)),
{
    lemma_u64_fits_pad20();
    lemma_pad_seq_val(n, 20);
}

/// A canonical id starts with `0` or `1`, so it sorts below the
/// single-character sentinel `9`.
pub proof fn lemma_canon_below_nine(s: Seq<char>)
    requires
        is_canon_id(s),
    ensures
        lex_lt(s, seq!['9']),
{
    lemma_dec_val_front(s);
    let p = pow10(19);
    lemma_dec_val_bound(s.skip(1));
    assert(digit_val(s[0]) * p <= dec_val(s));
    lemma_u64_fits_pad20();
    assert(pow10(20) == 10 * pow10(19));
    if digit_val(s[0]) >= 2 {
        assert(digit_val(s[0]) * p >= 2 * p) by (nonlinear_arith)
            requires
                digit_val(s[0]) >= 2,
                p >= 0,
        {}
        assert(2 * p > u64::MAX) by {
            reveal_with_fuel(pow10, 21);
        }
        assert(false);
    }
    assert((s[0] as u32) <= 49);
    assert(('9' as u32) == 57);
    if s[0] == '9' {
        assert(false);
    }
    assert(lex_lt(s, seq!['9']));
}

/// The plain decimal rendering is a digit string worth exactly `n`.
pub proof fn lemma_dec_seq_val(n: nat)
    ensures
        dec_seq(n).len() > 0,
        all_digits(dec_seq(n)),
        dec_val(dec_seq(n)) == n,
    decreases n,
{
    if n < 10 {
        lemma_digit_char_val(n);
        let s = dec_seq(n);
        assert(s.drop_last() =~= Seq::empty());
        assert(dec_val(s.drop_last()) == 0);
    } else {
        lemma_dec_seq_val(n / 10);
        lemma_digit_char_val(n % 10);
        let s = dec_seq(n);
        assert(s.drop_last() =~= dec_seq(n / 10));
        assert(dec_val(s) == (n / 10) * 10 + n % 10);
        assert((n / 10) * 10 + n % 10 == n) by (nonlinear_arith) {}
        assert forall|i: int| 0 <= i < s.len() implies is_digit(s[i]) by {
            if i < s.len() - 1 {
                assert(s[i] == dec_seq(n / 10)[i]);
            }
        }
    }
}

/// Returns the one-character string for a decimal digit.
pub fn digit_str(d: u64) -> (r: &'static str)
    requires
        d < 10,
    ensures
        r@ == seq![digit_char(d as nat)],
{
    proof {
        reveal_strlit("0");
        reveal_strlit("1");
        reveal_strlit("2");
        reveal_strlit("3");
        reveal_strlit("4");
        reveal_strlit("5");
        reveal_strlit("6");
        reveal_strlit("7");
        reveal_strlit("8");
        reveal_strlit("9");
    }
    let r: &'static str = if d == 0 { "0" }
    else if d == 1 { "1" }
    else if d == 2 { "2" }
    else if d == 3 { "3" }
    else if d == 4 { "4" }
    else if d == 5 { "5" }
    else if d == 6 { "6" }
    else if d == 7 { "7" }
    else if d == 8 { "8" }
    else { "9" };
    proof {
        assert(r@ =~= seq![digit_char(d as nat)]);
    }
    r
}

/// Renders `n` in plain decimal, as the auto-increment counter is stored.
pub fn dec_str(n: u64) -> (r: String)
    ensures
        r@ == dec_seq(n as nat),
    decreases n,
{
    if n < 10 {
        digit_str(n).to_owned()
    } else {
        let mut s = dec_str(n / 10);
        s.append(digit_str(n % 10));
        proof {
            assert(s@ =~= dec_seq((n / 10) as nat).push(digit_char((n % 10) as nat)));
        }
        s
    }
}

/// Renders the canonical 20-digit zero-padded form of `n`.
pub fn canon_str(n: u64) -> (r: String)
    ensures
        r@ == pad_seq(n as nat, 20),
        is_canon_id(r@),
{
    let r = pad_str(n, 20);
    proof {
        lemma_canon_is_canon(n as nat);
    }
    r
}

fn pad_str(n: u64, k: u64) -> (r: String)
    ensures
        r@ == pad_seq(n as nat, k as nat),
    decreases k,
{
    if k == 0 {
        String::new()
    } else {
        let mut s = pad_str(n / 10, k - 1);
        s.append(digit_str(n % 10));
        proof {
            assert(s@ =~= pad_seq((n / 10) as nat, (k - 1) as nat).push(digit_char((n % 10) as nat)));
        }
        s
    }
}

/// Parses a decimal `u64`; rejects empty input, non-digits and overflow.
pub fn parse_u64(s: &str) -> (r: Option<u64>)
    ensures
        match r {
            Some(n) => s@.len() > 0 && all_digits(s@) && dec_val(s@) == n,
            None => s@.len() == 0 || !all_digits(s@) || dec_val(s@) > u64::MAX,
        },
{
    let n = s.unicode_len();
    if n == 0 {
        return None;
    }
    let mut acc: u64 = 0;
    let mut i: usize = 0;
    while i < n
        invariant
            i <= n,
            n == s@.len(),
            all_digits(s@.take(i as int)),
            acc == dec_val(s@.take(i as int)),
        decreases n - i,
    {
        let c = s.get_char(i);
        let cv = c as u32;
        if cv < 48 || cv > 57 {
            return None;
        }
        let d: u64 = (cv - 48) as u64;
        if acc > (u64::MAX - d) / 10 {
            proof {
                let t = s@.take(i as int + 1);
                assert(t.drop_last() =~= s@.take(i as int));
                assert(t.last() == s@[i as int]);
                assert(dec_val(t) == acc * 10 + d);
                assert(acc * 10 + d > u64::MAX) by (nonlinear_arith)
                    requires
                        acc > (u64::MAX - d) / 10,
                        d < 10,
                {}
                if all_digits(s@) {
                    lemma_dec_val_prefix(s@, i as int + 1);
                }
            }
            return None;
        }
        proof {
            assert(acc * 10 + d <= u64::MAX) by (nonlinear_arith)
                requires
                    acc <= (u64::MAX - d) / 10,
                    d < 10,
            {}
            let t = s@.take(i as int + 1);
            assert(t.drop_last() =~= s@.take(i as int));
            assert(t.last() == s@[i as int]);
        }
        acc = acc * 10 + d;
        i = i + 1;
    }
    proof {
        assert(s@.take(n as int) =~= s@);
    }
    Some(acc)
}

} // verus!
