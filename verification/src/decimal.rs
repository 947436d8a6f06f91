//! Exact decimal numbers for the calculator.
//!
//! A [`Dec`] holds a sign, an integer mantissa and a decimal scale and stands
//! for the value `(-1)^neg * mant / 10^scale`.  The calculator keeps every
//! number to at most [`MAX_DIGITS`] significant digits and at most
//! [`MAX_DIGITS`] fractional digits: a result with too many fractional digits
//! is truncated toward zero, and a result whose integer part needs more than
//! [`MAX_DIGITS`] digits is reported as out of range (`None`), which the state
//! machine turns into its sticky fault.  Trailing fractional zeros are always
//! trimmed, so each value has one canonical representation.

use vstd::prelude::*;

verus! {

/// Number of significant digits a calculator number may have; also the
/// number of fractional digits kept after an operation.
pub const MAX_DIGITS: u32 = 16;

/// `10^MAX_DIGITS`: mantissas stay strictly below this bound.
pub const MANT_LIMIT: u128 = 10_000_000_000_000_000;

/// An exact decimal number: `(-1)^neg * mant / 10^scale`.
#[derive(Clone, Copy, Debug)]
pub struct Dec {
    pub neg: bool,
    pub mant: u128,
    pub scale: u32,
}

/// Specification-level image of a [`Dec`].
pub ghost struct DecV {
    pub neg: bool,
    pub mant: nat,
    pub scale: nat,
}

impl View for Dec {
    type V = DecV;

    open spec fn view(&self) -> DecV {
        DecV { neg: self.neg, mant: self.mant as nat, scale: self.scale as nat }
    }
}

/// `10^n`.
pub open spec fn pow10(n: nat) -> nat
    decreases n,
{
    if n == 0 {
        1
    } else {
        10 * pow10((n - 1) as nat)
    }
}

/// A well-formed calculator number: bounded mantissa and scale, no negative
/// zero, no trailing fractional zeros (zero itself has scale zero).
pub open spec fn dec_wf(d: DecV) -> bool {
    &&& d.mant < pow10(MAX_DIGITS as nat)
    &&& d.scale <= MAX_DIGITS
    &&& (d.neg ==> d.mant != 0)
    &&& (d.mant == 0 ==> d.scale == 0)
    &&& (d.scale > 0 ==> d.mant % 10 != 0)
}

/// The signed numerator of `d`, so that `d` stands for `num_v(d) / 10^d.scale`.
pub open spec fn num_v(d: DecV) -> int {
    if d.neg {
        -(d.mant as int)
    } else {
        d.mant as int
    }
}

/// Magnitude of an integer.
pub open spec fn abs_int(n: int) -> nat {
    if n >= 0 {
        n as nat
    } else {
        (-n) as nat
    }
}

/// Builds a value from a sign and a magnitude, clearing the sign on zero.
pub open spec fn mk_dec(neg: bool, m: nat, s: nat) -> DecV {
    DecV { neg: neg && m != 0, mant: m, scale: s }
}

/// Truncates a result to at most `MAX_DIGITS` fractional digits.
pub open spec fn clamp_ms(m: nat, s: nat) -> (nat, nat) {
    if s <= MAX_DIGITS as nat {
        (m, s)
    } else {
        (m / pow10((s - MAX_DIGITS) as nat), MAX_DIGITS as nat)
    }
}

/// Drops fractional digits until the mantissa fits in `MAX_DIGITS` digits;
/// `None` when even the integer part does not fit.
pub open spec fn reduce_ms(m: nat, s: nat) -> Option<(nat, nat)>
    decreases s,
{
    if m < pow10(MAX_DIGITS as nat) {
        Some((m, s))
    } else if s == 0 {
        None
    } else {
        reduce_ms(m / 10, (s - 1) as nat)
    }
}

/// Trims trailing fractional zeros.
pub open spec fn norm_ms(m: nat, s: nat) -> (nat, nat)
    decreases s,
{
    if s > 0 && m % 10 == 0 {
        norm_ms(m / 10, (s - 1) as nat)
    } else {
        (m, s)
    }
}

/// Canonical outcome of an operation whose exact magnitude is `m / 10^s` with
/// sign `neg`: truncate to the fractional-digit cap, fit the mantissa or fail,
/// trim trailing zeros.
pub open spec fn fix_ms(neg: bool, m: nat, s: nat) -> Option<DecV> {
    let clamped = clamp_ms(m, s);
    match reduce_ms(clamped.0, clamped.1) {
        None => None,
        Some(fitted) => {
            let trimmed = norm_ms(fitted.0, fitted.1);
            Some(mk_dec(neg, trimmed.0, trimmed.1))
        },
    }
}

/// The views of an optional result, for relating executable and
/// specification-level outcomes.
pub open spec fn view_opt(r: Option<Dec>) -> Option<DecV> {
    match r {
        Some(d) => Some(d@),
        None => None,
    }
}

pub proof fn lemma_pow10_pos(n: nat)
    ensures
        pow10(n) >= 1,
    decreases n,
{
    if n > 0 {
        lemma_pow10_pos((n - 1) as nat);
    }
}

pub proof fn lemma_pow10_monotone(a: nat, b: nat)
    requires
        a <= b,
    ensures
        pow10(a) <= pow10(b),
    decreases b,
{
    if a < b {
        lemma_pow10_monotone(a, (b - 1) as nat);
    }
}

pub proof fn lemma_pow10_16()
    ensures
        pow10(MAX_DIGITS as nat) == MANT_LIMIT as nat,
{
    assert(pow10(16) == 10_000_000_000_000_000) by {
        reveal_with_fuel(pow10, 17);
    }
}

pub proof fn lemma_pow10_34()
    ensures
        pow10(34) == 10_000_000_000_000_000_000_000_000_000_000_000,
{
    assert(pow10(34) == 10_000_000_000_000_000_000_000_000_000_000_000) by {
        reveal_with_fuel(pow10, 35);
    }
}

pub proof fn lemma_reduce_props(m: nat, s: nat)
    ensures
        reduce_ms(m, s) matches Some(p) ==> p.0 < pow10(MAX_DIGITS as nat) && p.1 <= s,
    decreases s,
{
    if m < pow10(MAX_DIGITS as nat) {
    } else if s > 0 {
        lemma_reduce_props(m / 10, (s - 1) as nat);
    }
}

pub proof fn lemma_norm_props(m: nat, s: nat)
    ensures
        norm_ms(m, s).0 <= m,
        norm_ms(m, s).1 <= s,
        norm_ms(m, s).1 > 0 ==> norm_ms(m, s).0 % 10 != 0,
        norm_ms(m, s).0 == 0 ==> norm_ms(m, s).1 == 0,
        m == 0 ==> norm_ms(m, s).0 == 0,
    decreases s,
{
    if s > 0 && m % 10 == 0 {
        lemma_norm_props(m / 10, (s - 1) as nat);
    }
}

/// Every value that `fix_ms` accepts is well formed.
pub proof fn lemma_fix_wf(neg: bool, m: nat, s: nat)
    ensures
        fix_ms(neg, m, s) matches Some(d) ==> dec_wf(d),
{
    let clamped = clamp_ms(m, s);
    lemma_reduce_props(clamped.0, clamped.1);
    if let Some(fitted) = reduce_ms(clamped.0, clamped.1) {
        lemma_norm_props(fitted.0, fitted.1);
    }
}

/// The sign plays no part when the magnitude is zero.
pub proof fn lemma_fix_zero(neg: bool, s: nat)
    ensures
        fix_ms(neg, 0, s) == Some(DecV { neg: false, mant: 0 as nat, scale: 0 as nat }),
{
    lemma_pow10_pos(MAX_DIGITS as nat);
    let clamped = clamp_ms(0, s);
    if s > MAX_DIGITS as nat {
        lemma_pow10_pos((s - MAX_DIGITS as nat) as nat);
        vstd::arithmetic::div_mod::lemma_div_of0(pow10((s - MAX_DIGITS as nat) as nat) as int);
    }
    lemma_norm_props(clamped.0, clamped.1);
}

/// A magnitude of at least `10^(s + MAX_DIGITS)` cannot be fitted: dropping
/// all `s` fractional digits still leaves too large an integer part.
pub proof fn lemma_reduce_overflow(m: nat, s: nat)
    requires
        m >= pow10((s + MAX_DIGITS as nat) as nat),
    ensures
        reduce_ms(m, s) == None::<(nat, nat)>,
    decreases s,
{
    lemma_pow10_monotone(MAX_DIGITS as nat, s + MAX_DIGITS as nat);
    if s > 0 {
        let p = pow10((s - 1 + MAX_DIGITS as nat) as nat);
        assert(pow10((s + MAX_DIGITS as nat) as nat) == 10 * p);
        vstd::arithmetic::div_mod::lemma_div_is_ordered(10 * p as int, m as int, 10);
        vstd::arithmetic::div_mod::lemma_div_multiples_vanish(p as int, 10);
        lemma_reduce_overflow(m / 10, (s - 1) as nat);
    }
}

/// Truncates, fits and trims a raw operation result, as [`fix_ms`] describes.
fn dec_fix(neg: bool, m0: u128, s0: u32) -> (r: Option<Dec>)
    requires
        m0 < 100_000_000_000_000_000_000_000_000_000_000_000u128,
        s0 <= 34,
    ensures
        view_opt(r) == fix_ms(neg, m0 as nat, s0 as nat),
        r matches Some(d) ==> dec_wf(d@),
{
    proof {
        lemma_fix_wf(neg, m0 as nat, s0 as nat);
        lemma_pow10_16();
    }
    let mut m = m0;
    let mut s = s0;
    if s > MAX_DIGITS {
        let p = pow10e(s - MAX_DIGITS);
        proof {
            lemma_pow10_pos((s - MAX_DIGITS) as nat);
        }
        m = m / p;
        s = MAX_DIGITS;
    }
    assert((m as nat, s as nat) == clamp_ms(m0 as nat, s0 as nat));
    let ghost clamped = clamp_ms(m0 as nat, s0 as nat);
    while m >= MANT_LIMIT
        invariant
            clamped == clamp_ms(m0 as nat, s0 as nat),
            reduce_ms(m as nat, s as nat) == reduce_ms(clamped.0, clamped.1),
            s <= MAX_DIGITS,
            m <= m0,
            pow10(MAX_DIGITS as nat) == MANT_LIMIT as nat,
        decreases s,
    {
        if s == 0 {
            assert(reduce_ms(m as nat, s as nat) == None::<(nat, nat)>);
            assert(fix_ms(neg, m0 as nat, s0 as nat) == None::<DecV>);
            return None;
        }
        m = m / 10;
        s = s - 1;
    }
    assert(reduce_ms(clamped.0, clamped.1) == Some((m as nat, s as nat)));
    let ghost fitted = (m as nat, s as nat);
    while s > 0 && m % 10 == 0
        invariant
            norm_ms(m as nat, s as nat) == norm_ms(fitted.0, fitted.1),
            m < MANT_LIMIT,
        decreases s,
    {
        m = m / 10;
        s = s - 1;
    }
    assert(norm_ms(fitted.0, fitted.1) == (m as nat, s as nat));
    Some(Dec { neg: neg && m != 0, mant: m, scale: s })
}

/// `10^n` as a machine integer.
pub fn pow10e(n: u32) -> (r: u128)
    requires
        n <= 34,
    ensures
        r as nat == pow10(n as nat),
{
    let mut r: u128 = 1;
    let mut i: u32 = 0;
    while i < n
        invariant
            i <= n <= 34,
            r as nat == pow10(i as nat),
        decreases n - i,
    {
        proof {
            lemma_pow10_monotone(i as nat, 33);
            lemma_pow10_34();
        }
        r = r * 10;
        i = i + 1;
    }
    r
}

/// The mirror image of a value.
pub open spec fn dec_neg_v(d: DecV) -> DecV {
    mk_dec(!d.neg, d.mant, d.scale)
}

/// Exact sum: both operands are brought to the larger scale, the signed
/// numerators are added, and the result is canonicalized by [`fix_ms`].
pub open spec fn dec_add_v(a: DecV, b: DecV) -> Option<DecV> {
    let s = if a.scale >= b.scale {
        a.scale
    } else {
        b.scale
    };
    let n = num_v(a) * pow10((s - a.scale) as nat) + num_v(b) * pow10((s - b.scale) as nat);
    fix_ms(n < 0, abs_int(n), s)
}

/// Exact difference: `a + (-b)`.
pub open spec fn dec_sub_v(a: DecV, b: DecV) -> Option<DecV> {
    dec_add_v(a, dec_neg_v(b))
}

/// Exact product of the signed numerators at the summed scale, canonicalized.
pub open spec fn dec_mul_v(a: DecV, b: DecV) -> Option<DecV> {
    let n = num_v(a) * num_v(b);
    fix_ms(n < 0, abs_int(n), a.scale + b.scale)
}

/// Adds two calculator numbers; `None` when the result's integer part needs
/// more than [`MAX_DIGITS`] digits.
pub fn dec_add(a: &Dec, b: &Dec) -> (r: Option<Dec>)
    requires
        dec_wf(a@),
        dec_wf(b@),
    ensures
        view_opt(r) == dec_add_v(a@, b@),
        r matches Some(d) ==> dec_wf(d@),
{
    proof {
        lemma_pow10_16();
    }
    let s = if a.scale >= b.scale {
        a.scale
    } else {
        b.scale
    };
    let pa = pow10e(s - a.scale);
    let pb = pow10e(s - b.scale);
    proof {
        lemma_pow10_monotone((s - a.scale) as nat, MAX_DIGITS as nat);
        lemma_pow10_monotone((s - b.scale) as nat, MAX_DIGITS as nat);
        vstd::arithmetic::mul::lemma_mul_upper_bound(
            a.mant as int,
            (MANT_LIMIT - 1) as int,
            pa as int,
            MANT_LIMIT as int,
        );
        vstd::arithmetic::mul::lemma_mul_upper_bound(
            b.mant as int,
            (MANT_LIMIT - 1) as int,
            pb as int,
            MANT_LIMIT as int,
        );
    }
    let am = a.mant * pa;
    let bm = b.mant * pb;
    let ghost na = num_v(a@) * pow10((s - a.scale) as nat);
    let ghost nb = num_v(b@) * pow10((s - b.scale) as nat);
    proof {
        assert(na == if a.neg {
            -(am as int)
        } else {
            am as int
        }) by (nonlinear_arith)
            requires
                na == num_v(a@) * pow10((s - a.scale) as nat),
                num_v(a@) == if a.neg {
                    -(a.mant as int)
                } else {
                    a.mant as int
                },
                am == a.mant as int * pow10((s - a.scale) as nat),
        ;
        assert(nb == if b.neg {
            -(bm as int)
        } else {
            bm as int
        }) by (nonlinear_arith)
            requires
                nb == num_v(b@) * pow10((s - b.scale) as nat),
                num_v(b@) == if b.neg {
                    -(b.mant as int)
                } else {
                    b.mant as int
                },
                bm == b.mant as int * pow10((s - b.scale) as nat),
        ;
    }
    let (neg, m) = if a.neg == b.neg {
        (a.neg, am + bm)
    } else if am >= bm {
        (a.neg, am - bm)
    } else {
        (b.neg, bm - am)
    };
    proof {
        assert(abs_int(na + nb) == m as nat);
        if m != 0 {
            assert((na + nb < 0) == neg);
        } else {
            lemma_fix_zero(neg, s as nat);
            lemma_fix_zero(na + nb < 0, s as nat);
        }
    }
    dec_fix(neg, m, s)
}

/// Subtracts `b` from `a`; `None` on out-of-range results.
pub fn dec_sub(a: &Dec, b: &Dec) -> (r: Option<Dec>)
    requires
        dec_wf(a@),
        dec_wf(b@),
    ensures
        view_opt(r) == dec_sub_v(a@, b@),
        r matches Some(d) ==> dec_wf(d@),
{
    let nb = Dec { neg: !b.neg && b.mant != 0, mant: b.mant, scale: b.scale };
    assert(nb@ == dec_neg_v(b@));
    dec_add(a, &nb)
}

/// Multiplies two calculator numbers; the result is truncated to
/// [`MAX_DIGITS`] fractional digits, and `None` signals an integer part of
/// more than [`MAX_DIGITS`] digits.
pub fn dec_mul(a: &Dec, b: &Dec) -> (r: Option<Dec>)
    requires
        dec_wf(a@),
        dec_wf(b@),
    ensures
        view_opt(r) == dec_mul_v(a@, b@),
        r matches Some(d) ==> dec_wf(d@),
{
    proof {
        lemma_pow10_16();
        assert((a.mant as int) * (b.mant as int) < (MANT_LIMIT as int) * (MANT_LIMIT as int))
            by (nonlinear_arith)
            requires
                0 <= (a.mant as int) < (MANT_LIMIT as int),
                0 <= (b.mant as int) < (MANT_LIMIT as int),
        ;
    }
    let m = a.mant * b.mant;
    let s = a.scale + b.scale;
    let neg = a.neg != b.neg;
    let ghost n = num_v(a@) * num_v(b@);
    proof {
        assert(n == if a.neg != b.neg {
            -(m as int)
        } else {
            m as int
        }) by (nonlinear_arith)
            requires
                n == num_v(a@) * num_v(b@),
                num_v(a@) == if a.neg {
                    -(a.mant as int)
                } else {
                    a.mant as int
                },
                num_v(b@) == if b.neg {
                    -(b.mant as int)
                } else {
                    b.mant as int
                },
                m == a.mant as int * b.mant as int,
        ;
        assert(abs_int(n) == m as nat);
        if m == 0 {
            lemma_fix_zero(neg, s as nat);
            lemma_fix_zero(n < 0, s as nat);
        } else {
            assert((n < 0) == neg);
        }
    }
    dec_fix(neg, m, s)
}

/// `10^(2 * MAX_DIGITS)`: a quotient this large cannot be fitted and is
/// reported as out of range.
pub const DIV_LIMIT: u128 = 100_000_000_000_000_000_000_000_000_000_000;

pub proof fn lemma_pow10_32()
    ensures
        pow10(32) == DIV_LIMIT as nat,
{
    assert(pow10(32) == 100_000_000_000_000_000_000_000_000_000_000) by {
        reveal_with_fuel(pow10, 33);
    }
}

/// Exact quotient, truncated toward zero at `MAX_DIGITS` fractional digits
/// and canonicalized; `None` on division by zero or an out-of-range result.
pub open spec fn dec_div_v(a: DecV, b: DecV) -> Option<DecV> {
    if b.mant == 0 {
        None
    } else {
        let q = (a.mant * pow10((MAX_DIGITS as nat + b.scale - a.scale) as nat)) / b.mant;
        fix_ms(a.neg != b.neg, q, MAX_DIGITS as nat)
    }
}

/// Divides `a` by `b` by decimal long division; `None` on division by zero or
/// when the quotient's integer part needs more than [`MAX_DIGITS`] digits.
pub fn dec_div(a: &Dec, b: &Dec) -> (r: Option<Dec>)
    requires
        dec_wf(a@),
        dec_wf(b@),
    ensures
        view_opt(r) == dec_div_v(a@, b@),
        r matches Some(d) ==> dec_wf(d@),
{
    if b.mant == 0 {
        return None;
    }
    proof {
        lemma_pow10_16();
        lemma_pow10_32();
    }
    let e = MAX_DIGITS + b.scale - a.scale;
    let ghost qx = (a.mant as nat * pow10(e as nat)) / b.mant as nat;
    let mut q: u128 = a.mant / b.mant;
    let mut rem: u128 = a.mant % b.mant;
    proof {
        vstd::arithmetic::div_mod::lemma_fundamental_div_mod(a.mant as int, b.mant as int);
        assert(pow10(0) == 1);
        assert((a.mant as int) * 1int == a.mant as int) by (nonlinear_arith);
    }
    let mut i: u32 = 0;
    while i < e
        invariant
            i <= e <= 2 * MAX_DIGITS,
            0 < b.mant < MANT_LIMIT,
            a.mant < MANT_LIMIT,
            dec_wf(a@),
            dec_wf(b@),
            e == MAX_DIGITS + b.scale - a.scale,
            qx == (a.mant as nat * pow10(e as nat)) / b.mant as nat,
            rem < b.mant,
            (q as int) * (b.mant as int) + (rem as int) == (a.mant as int) * (pow10(
                i as nat,
            ) as int),
            q < DIV_LIMIT * 100,
            pow10(MAX_DIGITS as nat) == MANT_LIMIT as nat,
            pow10(32) == DIV_LIMIT as nat,
        decreases e - i,
    {
        if q >= DIV_LIMIT {
            proof {
                vstd::arithmetic::div_mod::lemma_fundamental_div_mod_converse(
                    (a.mant as int) * (pow10(i as nat) as int),
                    b.mant as int,
                    q as int,
                    rem as int,
                );
                lemma_pow10_monotone(i as nat, e as nat);
                assert((a.mant as int) * (pow10(i as nat) as int) <= (a.mant as int) * (pow10(
                    e as nat,
                ) as int)) by (nonlinear_arith)
                    requires
                        0 <= a.mant as int,
                        pow10(i as nat) <= pow10(e as nat),
                ;
                vstd::arithmetic::div_mod::lemma_div_is_ordered(
                    (a.mant as int) * (pow10(i as nat) as int),
                    (a.mant as int) * (pow10(e as nat) as int),
                    b.mant as int,
                );
                assert(qx >= q as nat);
                lemma_reduce_overflow(qx, MAX_DIGITS as nat);
                assert(fix_ms(a.neg != b.neg, qx, MAX_DIGITS as nat) == None::<DecV>);
                assert(dec_div_v(a@, b@) == None::<DecV>);
            }
            return None;
        }
        let r10 = rem * 10;
        let d = r10 / b.mant;
        proof {
            vstd::arithmetic::div_mod::lemma_fundamental_div_mod(r10 as int, b.mant as int);
            assert((a.mant as int) * (pow10((i + 1) as nat) as int) == 10 * ((a.mant as int)
                * (pow10(i as nat) as int))) by (nonlinear_arith)
                requires
                    pow10((i + 1) as nat) == 10 * pow10(i as nat),
            ;
            assert(((q * 10 + d) as int) * (b.mant as int) == 10 * ((q as int) * (b.mant as int))
                + (d as int) * (b.mant as int)) by (nonlinear_arith);
            assert((b.mant as int) * (d as int) == (d as int) * (b.mant as int))
                by (nonlinear_arith);
        }
        q = q * 10 + d;
        rem = r10 % b.mant;
        i = i + 1;
    }
    proof {
        vstd::arithmetic::div_mod::lemma_fundamental_div_mod_converse(
            (a.mant as int) * (pow10(e as nat) as int),
            b.mant as int,
            q as int,
            rem as int,
        );
        assert(q as nat == qx);
    }
    dec_fix(a.neg != b.neg, q, MAX_DIGITS)
}

} // verus!
