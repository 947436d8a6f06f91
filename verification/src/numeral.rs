//! Rendering calculator numbers as character buffers and reading them back.
//!
//! The display buffer of the calculator is a sequence of characters: an
//! optional leading minus sign, digits, and at most one decimal point.
//! [`fmt_v`] says exactly which characters a value is shown as, and
//! [`parse_v`] says which buffers denote a value and which one; the
//! executable [`fmt_dec`] and [`parse_dec`] are proved to match them.

use vstd::prelude::*;

use crate::decimal::{
    dec_wf, lemma_norm_props, lemma_pow10_16, lemma_pow10_34, lemma_pow10_monotone,
    lemma_pow10_pos, mk_dec, norm_ms, pow10, view_opt, Dec, DecV, MANT_LIMIT, MAX_DIGITS,
};

verus! {

/// Longest buffer the calculator ever shows: a sign plus a zero integer part,
/// the decimal point and `MAX_DIGITS` fractional digits.
pub const MAX_BUFFER: usize = 19;

/// The character for a single decimal digit.
pub open spec fn digit_char(d: nat) -> char {
    if d == 0 {
        '0'
    } else if d == 1 {
        '1'
    } else if d == 2 {
        '2'
    } else if d == 3 {
        '3'
    } else if d == 4 {
        '4'
    } else if d == 5 {
        '5'
    } else if d == 6 {
        '6'
    } else if d == 7 {
        '7'
    } else if d == 8 {
        '8'
    } else {
        '9'
    }
}

pub open spec fn is_digit(c: char) -> bool {
    c == '0' || c == '1' || c == '2' || c == '3' || c == '4' || c == '5' || c == '6' || c == '7'
        || c == '8' || c == '9'
}

/// The value of a digit character; other characters count as zero.
pub open spec fn digit_val(c: char) -> nat {
    if c == '1' {
        1
    } else if c == '2' {
        2
    } else if c == '3' {
        3
    } else if c == '4' {
        4
    } else if c == '5' {
        5
    } else if c == '6' {
        6
    } else if c == '7' {
        7
    } else if c == '8' {
        8
    } else if c == '9' {
        9
    } else {
        0
    }
}

/// The decimal digits of `m`, most significant first, with no leading zeros
/// (zero itself is the single digit `0`).
pub open spec fn digits_of(m: nat) -> Seq<char>
    decreases m,
{
    if m < 10 {
        seq![digit_char(m)]
    } else {
        digits_of(m / 10).push(digit_char(m % 10))
    }
}

/// Exactly `k` digits of `m`, most significant first, zero-padded on the left.
pub open spec fn frac_digits(m: nat, k: nat) -> Seq<char>
    decreases k,
{
    if k == 0 {
        Seq::empty()
    } else {
        frac_digits(m / 10, (k - 1) as nat).push(digit_char(m % 10))
    }
}

/// The characters a value is displayed as: optional sign, integer part, and,
/// for a scaled value, the decimal point and exactly `scale` fractional
/// digits.
pub open spec fn fmt_v(d: DecV) -> Seq<char> {
    let body = if d.scale == 0 {
        digits_of(d.mant)
    } else {
        digits_of(d.mant / pow10(d.scale)) + seq!['.'] + frac_digits(d.mant % pow10(d.scale), d.scale)
    };
    if d.neg {
        seq!['-'] + body
    } else {
        body
    }
}

/// Number of decimal points in a buffer.
pub open spec fn dot_count(t: Seq<char>) -> nat
    decreases t.len(),
{
    if t.len() == 0 {
        0
    } else {
        dot_count(t.drop_last()) + if t.last() == '.' {
            1 as nat
        } else {
            0 as nat
        }
    }
}

/// Number of digit characters in a buffer.
pub open spec fn digit_count(t: Seq<char>) -> nat
    decreases t.len(),
{
    if t.len() == 0 {
        0
    } else {
        digit_count(t.drop_last()) + if is_digit(t.last()) {
            1 as nat
        } else {
            0 as nat
        }
    }
}

/// The mantissa a buffer spells: its digits read left to right, ignoring the
/// decimal point.
pub open spec fn digits_val(t: Seq<char>) -> nat
    decreases t.len(),
{
    if t.len() == 0 {
        0
    } else if t.last() == '.' {
        digits_val(t.drop_last())
    } else {
        digits_val(t.drop_last()) * 10 + digit_val(t.last())
    }
}

/// Number of characters after the decimal point, i.e. the scale the buffer
/// spells.
pub open spec fn scale_of(t: Seq<char>) -> nat
    decreases t.len(),
{
    if t.len() == 0 {
        0
    } else if t.last() == '.' {
        0
    } else if dot_count(t.drop_last()) > 0 {
        scale_of(t.drop_last()) + 1
    } else {
        0
    }
}

pub open spec fn all_numeral(t: Seq<char>) -> bool {
    forall|j: int| 0 <= j < t.len() ==> is_digit(t[j]) || t[j] == '.'
}

/// The value a buffer denotes: an optional leading minus sign, then digits
/// with at most one decimal point and at least one digit, spelling at most
/// `MAX_DIGITS` significant and `MAX_DIGITS` fractional digits; the value is
/// canonicalized by trimming trailing fractional zeros.  Anything else — in
/// particular an empty buffer or a lone sign — denotes nothing.
pub open spec fn parse_v(s: Seq<char>) -> Option<DecV> {
    let neg = s.len() > 0 && s[0] == '-';
    let body = if neg {
        s.skip(1)
    } else {
        s
    };
    if body.len() == 0 || !all_numeral(body) || dot_count(body) > 1 || digit_count(body) == 0
        || digits_val(body) >= pow10(MAX_DIGITS as nat) || scale_of(body) > MAX_DIGITS as nat {
        None
    } else {
        let trimmed = norm_ms(digits_val(body), scale_of(body));
        Some(mk_dec(neg, trimmed.0, trimmed.1))
    }
}

pub proof fn lemma_pow10_adds(a: nat, b: nat)
    ensures
        pow10(a + b) == pow10(a) * pow10(b),
    decreases a,
{
    if a == 0 {
        assert(1 * pow10(b) == pow10(b)) by (nonlinear_arith);
    } else {
        lemma_pow10_adds((a - 1) as nat, b);
        assert(10 * (pow10((a - 1) as nat) * pow10(b)) == (10 * pow10((a - 1) as nat)) * pow10(b))
            by (nonlinear_arith);
        assert(pow10(a + b) == 10 * pow10((a + b - 1) as nat));
    }
}

pub proof fn lemma_div_strict_bound(x: nat, p: nat, y: nat)
    requires
        x < p * y,
        0 < p,
    ensures
        x / p < y,
{
    vstd::arithmetic::div_mod::lemma_fundamental_div_mod(x as int, p as int);
    if x / p >= y {
        assert((p as int) * ((x / p) as int) >= (p as int) * (y as int)) by (nonlinear_arith)
            requires
                (x / p) as int >= y as int,
                p as int > 0,
        ;
    }
}

pub proof fn lemma_digits_of_len(m: nat, k: nat)
    requires
        m < pow10(k),
        k >= 1,
    ensures
        digits_of(m).len() <= k,
    decreases k,
{
    if m < 10 {
    } else {
        if k == 1 {
            assert(pow10(1) == 10) by {
                reveal_with_fuel(pow10, 2);
            }
        }
        assert(pow10(k) == 10 * pow10((k - 1) as nat));
        lemma_div_strict_bound(m, 10, pow10((k - 1) as nat));
        lemma_digits_of_len(m / 10, (k - 1) as nat);
    }
}

pub proof fn lemma_frac_digits_len(m: nat, k: nat)
    ensures
        frac_digits(m, k).len() == k,
    decreases k,
{
    if k > 0 {
        lemma_frac_digits_len(m / 10, (k - 1) as nat);
    }
}

/// A well-formed value is displayed in at most `MAX_BUFFER` characters, and
/// in strictly fewer when it carries no sign.
pub proof fn lemma_fmt_len(d: DecV)
    requires
        dec_wf(d),
    ensures
        fmt_v(d).len() <= MAX_BUFFER,
        !d.neg ==> fmt_v(d).len() < MAX_BUFFER,
        d.neg ==> fmt_v(d)[0] == '-',
{
    lemma_pow10_pos(d.scale);
    if d.scale == 0 {
        lemma_digits_of_len(d.mant, MAX_DIGITS as nat);
    } else {
        lemma_pow10_adds(d.scale, (MAX_DIGITS as nat - d.scale) as nat);
        assert(d.mant < pow10(d.scale) * pow10((MAX_DIGITS as nat - d.scale) as nat));
        lemma_div_strict_bound(d.mant, pow10(d.scale), pow10((MAX_DIGITS as nat - d.scale) as nat));
        let ipart = d.mant / pow10(d.scale);
        if d.scale == MAX_DIGITS as nat {
            assert(ipart == 0);
            assert(digits_of(0).len() == 1);
        } else {
            lemma_digits_of_len(ipart, (MAX_DIGITS as nat - d.scale) as nat);
        }
        lemma_frac_digits_len(d.mant % pow10(d.scale), d.scale);
    }
}

/// A buffer spells a mantissa below `10^len`.
pub proof fn lemma_digits_val_bound(t: Seq<char>)
    ensures
        digits_val(t) < pow10(t.len()),
    decreases t.len(),
{
    if t.len() == 0 {
    } else {
        lemma_digits_val_bound(t.drop_last());
        lemma_pow10_monotone((t.len() - 1) as nat, t.len());
    }
}

pub fn digit_to_char(d: u8) -> (c: char)
    requires
        d <= 9,
    ensures
        c == digit_char(d as nat),
{
    if d == 0 {
        '0'
    } else if d == 1 {
        '1'
    } else if d == 2 {
        '2'
    } else if d == 3 {
        '3'
    } else if d == 4 {
        '4'
    } else if d == 5 {
        '5'
    } else if d == 6 {
        '6'
    } else if d == 7 {
        '7'
    } else if d == 8 {
        '8'
    } else {
        '9'
    }
}

fn char_digit_val(c: char) -> (v: u8)
    ensures
        v as nat == digit_val(c),
        v <= 9,
{
    if c == '1' {
        1
    } else if c == '2' {
        2
    } else if c == '3' {
        3
    } else if c == '4' {
        4
    } else if c == '5' {
        5
    } else if c == '6' {
        6
    } else if c == '7' {
        7
    } else if c == '8' {
        8
    } else if c == '9' {
        9
    } else {
        0
    }
}

fn char_is_digit(c: char) -> (b: bool)
    ensures
        b == is_digit(c),
{
    c == '0' || c == '1' || c == '2' || c == '3' || c == '4' || c == '5' || c == '6' || c == '7'
        || c == '8' || c == '9'
}

fn push_digits(v: &mut Vec<char>, m: u128)
    ensures
        final(v)@ == old(v)@ + digits_of(m as nat),
    decreases m,
{
    if m < 10 {
        v.push(digit_to_char(m as u8));
        assert(final(v)@ =~= old(v)@ + digits_of(m as nat));
    } else {
        push_digits(v, m / 10);
        v.push(digit_to_char((m % 10) as u8));
        assert(final(v)@ =~= old(v)@ + digits_of(m as nat));
    }
}

fn push_frac(v: &mut Vec<char>, m: u128, k: u32)
    ensures
        final(v)@ == old(v)@ + frac_digits(m as nat, k as nat),
    decreases k,
{
    if k > 0 {
        push_frac(v, m / 10, k - 1);
        v.push(digit_to_char((m % 10) as u8));
    }
    assert(final(v)@ =~= old(v)@ + frac_digits(m as nat, k as nat));
}

/// Renders a value as its display characters.
pub fn fmt_dec(d: &Dec) -> (r: Vec<char>)
    requires
        dec_wf(d@),
    ensures
        r@ == fmt_v(d@),
{
    let mut r: Vec<char> = Vec::new();
    if d.neg {
        r.push('-');
    }
    if d.scale == 0 {
        push_digits(&mut r, d.mant);
    } else {
        let p = crate::decimal::pow10e(d.scale);
        proof {
            lemma_pow10_pos(d.scale as nat);
        }
        push_digits(&mut r, d.mant / p);
        r.push('.');
        push_frac(&mut r, d.mant % p, d.scale);
    }
    assert(r@ =~= fmt_v(d@));
    r
}

/// Reads a buffer back into a value, as [`parse_v`] describes.
pub fn parse_dec(s: &Vec<char>) -> (r: Option<Dec>)
    requires
        s@.len() <= 34,
    ensures
        view_opt(r) == parse_v(s@),
        r matches Some(d) ==> dec_wf(d@),
{
    proof {
        lemma_pow10_16();
        lemma_pow10_34();
    }
    let n = s.len();
    let mut start: usize = 0;
    let mut neg = false;
    if n > 0 && s[0] == '-' {
        neg = true;
        start = 1;
    }
    let ghost body = s@.skip(start as int);
    let mut m: u128 = 0;
    let mut dots: u32 = 0;
    let mut nd: u32 = 0;
    let mut sc: u32 = 0;
    let mut valid = true;
    let mut i = start;
    while i < n
        invariant
            start <= i <= n == s@.len() <= 34,
            body == s@.skip(start as int),
            dots <= i - start,
            nd <= i - start,
            sc <= i - start,
            valid == all_numeral(s@.subrange(start as int, i as int)),
            m as nat == digits_val(s@.subrange(start as int, i as int)),
            dots as nat == dot_count(s@.subrange(start as int, i as int)),
            nd as nat == digit_count(s@.subrange(start as int, i as int)),
            sc as nat == scale_of(s@.subrange(start as int, i as int)),
            m < pow10((i - start) as nat),
            pow10(34) == 10_000_000_000_000_000_000_000_000_000_000_000,
        decreases n - i,
    {
        let ghost pre = s@.subrange(start as int, i as int);
        let c = s[i];
        proof {
            assert(s@.subrange(start as int, (i + 1) as int) =~= pre.push(c));
            assert(pre.push(c).drop_last() =~= pre);
            lemma_pow10_monotone((i - start) as nat, 33);
        }
        if c == '.' {
            dots = dots + 1;
            sc = 0;
        } else {
            m = m * 10 + char_digit_val(c) as u128;
            if dots > 0 {
                sc = sc + 1;
            } else {
                sc = 0;
            }
        }
        if char_is_digit(c) {
            nd = nd + 1;
        }
        valid = valid && (c == '.' || char_is_digit(c));
        proof {
            let post = s@.subrange(start as int, (i + 1) as int);
            assert(all_numeral(post) == (all_numeral(pre) && (is_digit(c) || c == '.'))) by {
                if all_numeral(pre) && (is_digit(c) || c == '.') {
                    assert forall|j: int| 0 <= j < post.len() implies is_digit(post[j]) || post[j]
                        == '.' by {
                        if j < pre.len() {
                            assert(post[j] == pre[j]);
                        }
                    }
                }
            }
            lemma_digits_val_bound(post);
        }
        i = i + 1;
    }
    proof {
        assert(s@.subrange(start as int, n as int) =~= body);
        if start == 0 {
            assert(body =~= s@);
        }
    }
    if n == start || !valid || dots > 1 || nd == 0 {
        return None;
    }
    if m >= MANT_LIMIT || sc > MAX_DIGITS {
        return None;
    }
    let ghost spelled = (m as nat, sc as nat);
    while sc > 0 && m % 10 == 0
        invariant
            norm_ms(m as nat, sc as nat) == norm_ms(spelled.0, spelled.1),
            m < MANT_LIMIT,
        decreases sc,
    {
        m = m / 10;
        sc = sc - 1;
    }
    assert(norm_ms(spelled.0, spelled.1) == (m as nat, sc as nat));
    proof {
        lemma_norm_props(spelled.0, spelled.1);
    }
    Some(Dec { neg: neg && m != 0, mant: m, scale: sc })
}

} // verus!
