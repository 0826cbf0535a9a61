//! Exact decimal numbers.
//!
//! A `Num` denotes the rational number `(-1)^neg * mag / 10^scale`, kept in
//! canonical form: at most [`MANT_MAX`] for the mantissa magnitude, at most
//! [`SCALE_MAX`] fraction digits, no trailing zero in the fraction, and no
//! negative zero.  Addition, subtraction and multiplication are exact up to
//! the range bounds; division succeeds exactly when the quotient's value is
//! itself representable as such a number.

use vstd::prelude::*;
use vstd::arithmetic::power::{pow, lemma_pow_adds, lemma_pow_positive, lemma_pow_increases};
use vstd::arithmetic::div_mod::{
    lemma_fundamental_div_mod, lemma_fundamental_div_mod_converse, lemma_mod_multiples_basic,
    lemma_mod_pos_bound, lemma_div_pos_is_pos,
};
use vstd::arithmetic::mul::{
    lemma_mul_upper_bound, lemma_mul_cancels_negatives, lemma_mul_unary_negation,
    lemma_mul_is_commutative, lemma_mul_strictly_positive, lemma_mul_nonnegative,
};

verus! {

/// Largest mantissa magnitude: eighteen decimal digits.
pub const MANT_MAX: u64 = 999_999_999_999_999_999;

/// Largest number of decimal fraction digits.
pub const SCALE_MAX: u32 = 18;

/// An exact decimal number: `(-1)^neg * mag / 10^scale`.
#[derive(PartialEq, Eq, Structural, Clone, Copy, Debug)]
pub struct Num {
    /// Sign: true for a negative number.  Never set when `mag` is zero.
    pub neg: bool,
    /// Mantissa magnitude.
    pub mag: u64,
    /// Number of decimal fraction digits.
    pub scale: u32,
}

/// `10^e`.
pub open spec fn p10(e: nat) -> int {
    pow(10, e)
}

/// Errors of the exact decimal operations.
#[derive(PartialEq, Eq, Structural, Clone, Copy, Debug)]
pub enum NumError {
    /// The exact result lies outside the representable range.
    OutOfRange,
    /// Division by zero.
    DivideByZero,
    /// The exact quotient is not an integer multiple of the smallest
    /// representable step, `10^-SCALE_MAX`.
    NotExact,
}

impl Num {
    /// The signed mantissa, as a mathematical integer.
    pub open spec fn sval(self) -> int {
        if self.neg {
            -(self.mag as int)
        } else {
            self.mag as int
        }
    }

    /// Canonical form: bounded mantissa and scale, no trailing fraction zero,
    /// no negative zero.
    pub open spec fn wf(self) -> bool {
        &&& self.mag <= MANT_MAX
        &&& self.scale <= SCALE_MAX
        &&& (self.scale > 0 ==> self.mag % 10 != 0)
        &&& (self.mag == 0 ==> self.scale == 0 && !self.neg)
    }
}

/// The two pairs denote the same rational: `m1 / 10^s1 == m2 / 10^s2`.
pub open spec fn same_ratio(m1: int, s1: nat, m2: int, s2: nat) -> bool {
    m1 * p10(s2) == m2 * p10(s1)
}

/// `a` denotes a strictly smaller rational than `b`.
pub open spec fn num_lt(a: Num, b: Num) -> bool {
    a.sval() * p10(b.scale as nat) < b.sval() * p10(a.scale as nat)
}

/// `a` and `b` denote the same rational.
pub open spec fn num_eq_val(a: Num, b: Num) -> bool {
    a.sval() * p10(b.scale as nat) == b.sval() * p10(a.scale as nat)
}

/// Remove trailing decimal zeros: divide the mantissa by ten and lower the
/// scale while the scale is positive and the mantissa is divisible by ten.
pub open spec fn strip_zeros(mag: nat, s: nat) -> (nat, nat)
    decreases s,
{
    if s > 0 && mag % 10 == 0 {
        strip_zeros(mag / 10, (s - 1) as nat)
    } else {
        (mag, s)
    }
}

/// Bring a signed magnitude/scale pair into canonical form, or report that it
/// lies outside the representable range.
pub open spec fn spec_norm(neg: bool, mag: nat, s: nat) -> Result<Num, NumError> {
    let stripped = strip_zeros(mag, s);
    if stripped.0 > MANT_MAX || stripped.1 > SCALE_MAX {
        Err(NumError::OutOfRange)
    } else {
        Ok(
            Num {
                neg: if stripped.0 == 0 {
                    false
                } else {
                    neg
                },
                mag: stripped.0 as u64,
                scale: stripped.1 as u32,
            },
        )
    }
}

/// Canonical form of the signed integer `m` over `10^s`.
pub open spec fn spec_norm_int(m: int, s: nat) -> Result<Num, NumError> {
    if m < 0 {
        spec_norm(true, (-m) as nat, s)
    } else {
        spec_norm(false, m as nat, s)
    }
}

/// The exact sum of `a` and `b`.
pub open spec fn spec_add(a: Num, b: Num) -> Result<Num, NumError> {
    spec_norm_int(
        a.sval() * p10(b.scale as nat) + b.sval() * p10(a.scale as nat),
        a.scale as nat + b.scale as nat,
    )
}

/// The negation of `a`.
pub open spec fn spec_neg(a: Num) -> Num {
    if a.mag == 0 {
        a
    } else {
        Num { neg: !a.neg, mag: a.mag, scale: a.scale }
    }
}

/// The exact difference of `a` and `b`.
pub open spec fn spec_sub(a: Num, b: Num) -> Result<Num, NumError> {
    spec_add(a, spec_neg(b))
}

/// The exact product of `a` and `b`.
pub open spec fn spec_mul(a: Num, b: Num) -> Result<Num, NumError> {
    spec_norm_int(a.sval() * b.sval(), a.scale as nat + b.scale as nat)
}

/// The exact quotient of `a` and `b`.  The quotient times `10^SCALE_MAX` is
/// the integer `a.mag * 10^(SCALE_MAX + b.scale - a.scale) / b.mag` when that
/// division is exact; so division succeeds exactly when the quotient's value
/// is representable: an integer multiple of `10^-SCALE_MAX` ([`NumError::NotExact`]
/// otherwise) whose canonical mantissa is in range ([`NumError::OutOfRange`]
/// otherwise).
pub open spec fn spec_div(a: Num, b: Num) -> Result<Num, NumError> {
    if b.mag == 0 {
        Err(NumError::DivideByZero)
    } else if a.scale > SCALE_MAX + b.scale {
        Err(NumError::OutOfRange)
    } else {
        let e = (SCALE_MAX + b.scale - a.scale) as nat;
        let dividend = a.mag as int * p10(e);
        if dividend % (b.mag as int) != 0 {
            Err(NumError::NotExact)
        } else {
            spec_norm(a.neg != b.neg, (dividend / (b.mag as int)) as nat, SCALE_MAX as nat)
        }
    }
}

/// Concrete values of the small powers of ten.
pub proof fn lemma_p10_values()
    ensures
        p10(0) == 1,
        p10(1) == 10,
        p10(2) == 100,
        p10(3) == 1000,
        p10(4) == 10000,
        p10(5) == 100000,
        p10(6) == 1000000,
        p10(7) == 10000000,
        p10(8) == 100000000,
        p10(9) == 1000000000,
        p10(10) == 10000000000,
        p10(11) == 100000000000,
        p10(12) == 1000000000000,
        p10(13) == 10000000000000,
        p10(14) == 100000000000000,
        p10(15) == 1000000000000000,
        p10(16) == 10000000000000000,
        p10(17) == 100000000000000000,
        p10(18) == 1000000000000000000,
        p10(19) == 10000000000000000000,
{
    reveal_with_fuel(pow, 2);
    assert(p10(0) == 1);
    assert(p10(1) == 10);
    assert(p10(2) == 100);
    assert(p10(3) == 1000);
    assert(p10(4) == 10000);
    assert(p10(5) == 100000);
    assert(p10(6) == 1000000);
    assert(p10(7) == 10000000);
    assert(p10(8) == 100000000);
    assert(p10(9) == 1000000000);
    assert(p10(10) == 10000000000);
    assert(p10(11) == 100000000000);
    assert(p10(12) == 1000000000000);
    assert(p10(13) == 10000000000000);
    assert(p10(14) == 100000000000000);
    assert(p10(15) == 1000000000000000);
    assert(p10(16) == 10000000000000000);
    assert(p10(17) == 100000000000000000);
    assert(p10(18) == 1000000000000000000);
    assert(p10(19) == 10000000000000000000);
}

/// `10^e` is positive.
pub proof fn lemma_p10_pos(e: nat)
    ensures
        p10(e) >= 1,
{
    lemma_pow_positive(10, e);
}

/// `10^{e1} <= 10^{e2}` when `e1 <= e2`.
pub proof fn lemma_p10_increases(e1: nat, e2: nat)
    requires
        e1 <= e2,
    ensures
        p10(e1) <= p10(e2),
{
    lemma_pow_increases(10, e1, e2);
}

/// `10^{e1 + e2} == 10^{e1} * 10^{e2}`.
pub proof fn lemma_p10_adds(e1: nat, e2: nat)
    ensures
        p10(e1 + e2) == p10(e1) * p10(e2),
{
    lemma_pow_adds(10, e1, e2);
}

/// `10^e` for `e <= 19`.
pub fn pow10_u64(e: u32) -> (r: u64)
    requires
        e <= 19,
    ensures
        r as int == p10(e as nat),
        r >= 1,
{
    let mut r: u64 = 1;
    let mut k: u32 = 0;
    proof {
        lemma_p10_values();
    }
    while k < e
        invariant
            k <= e <= 19,
            r as int == p10(k as nat),
        decreases e - k,
    {
        proof {
            lemma_p10_increases(k as nat, 18);
            lemma_p10_values();
            assert(p10((k + 1) as nat) == 10 * p10(k as nat)) by {
                lemma_p10_adds(1, k as nat);
            }
        }
        r = r * 10;
        k = k + 1;
    }
    proof {
        lemma_p10_pos(e as nat);
    }
    r
}

/// Stripping trailing zeros keeps the denoted rational, shrinks the pair, and
/// ends in canonical shape.
pub proof fn lemma_strip_val(mag: nat, s: nat)
    ensures
        ({
            let stripped = strip_zeros(mag, s);
            &&& stripped.1 <= s
            &&& stripped.0 <= mag
            &&& same_ratio(stripped.0 as int, stripped.1, mag as int, s)
            &&& (stripped.1 > 0 ==> stripped.0 % 10 != 0)
            &&& (stripped.0 == 0 ==> stripped.1 == 0)
        }),
    decreases s,
{
    lemma_p10_pos(s);
    if s > 0 && mag % 10 == 0 {
        let m1 = mag / 10;
        let s1 = (s - 1) as nat;
        lemma_strip_val(m1, s1);
        let stripped = strip_zeros(m1, s1);
        lemma_fundamental_div_mod(mag as int, 10);
        assert(mag == 10 * m1);
        assert(p10(s) == 10 * p10(s1)) by {
            lemma_p10_adds(1, s1);
            lemma_p10_values();
        }
        assert(stripped.0 * p10(s1) == m1 * p10(stripped.1));
        assert(stripped.0 * p10(s) == mag * p10(stripped.1)) by (nonlinear_arith)
            requires
                stripped.0 * p10(s1) == m1 * p10(stripped.1),
                p10(s) == 10 * p10(s1),
                mag == 10 * m1,
        {
        }
    }
}

/// Canonicalize a signed magnitude/scale pair, exactly as [`spec_norm`] says.
fn norm(neg: bool, mag0: u128, s0: u32) -> (r: Result<Num, NumError>)
    ensures
        r == spec_norm(neg, mag0 as nat, s0 as nat),
        r matches Ok(c) ==> c.wf(),
{
    let mut mag: u128 = mag0;
    let mut s: u32 = s0;
    while s > 0 && mag % 10 == 0
        invariant
            strip_zeros(mag as nat, s as nat) == strip_zeros(mag0 as nat, s0 as nat),
        decreases s,
    {
        mag = mag / 10;
        s = s - 1;
    }
    proof {
        lemma_strip_val(mag0 as nat, s0 as nat);
        assert(strip_zeros(mag as nat, s as nat) == (mag as nat, s as nat));
    }
    if mag > MANT_MAX as u128 || s > SCALE_MAX {
        Err(NumError::OutOfRange)
    } else {
        Ok(Num { neg: if mag == 0 { false } else { neg }, mag: mag as u64, scale: s })
    }
}

/// Both aligned mantissa magnitudes fit comfortably below `u128::MAX`.
proof fn lemma_aligned_bound(mag: nat, e: nat)
    requires
        mag <= MANT_MAX,
        e <= SCALE_MAX,
    ensures
        0 <= mag * p10(e) <= 999_999_999_999_999_999_000_000_000_000_000_000,
{
    lemma_p10_pos(e);
    lemma_p10_increases(e, 18);
    lemma_p10_values();
    lemma_mul_upper_bound(mag as int, MANT_MAX as int, p10(e), p10(18));
    vstd::arithmetic::mul::lemma_mul_nonnegative(mag as int, p10(e));
}

/// The exact sum, as [`spec_add`] says.
pub fn num_add(a: Num, b: Num) -> (r: Result<Num, NumError>)
    requires
        a.wf(),
        b.wf(),
    ensures
        r == spec_add(a, b),
        r matches Ok(c) ==> c.wf(),
{
    let pa = pow10_u64(b.scale);
    let pb = pow10_u64(a.scale);
    proof {
        lemma_aligned_bound(a.mag as nat, b.scale as nat);
        lemma_aligned_bound(b.mag as nat, a.scale as nat);
    }
    let am: u128 = (a.mag as u128) * (pa as u128);
    let bm: u128 = (b.mag as u128) * (pb as u128);
    let s: u32 = a.scale + b.scale;
    let ghost m = a.sval() * p10(b.scale as nat) + b.sval() * p10(a.scale as nat);
    proof {
        lemma_mul_unary_negation(a.mag as int, pa as int);
        lemma_mul_unary_negation(b.mag as int, pb as int);
        assert(am as int == a.mag as int * p10(b.scale as nat));
        assert(bm as int == b.mag as int * p10(a.scale as nat));
    }
    if a.neg == b.neg {
        proof {
            if a.neg {
                assert(m == -((am + bm) as int));
                if am + bm == 0 {
                    lemma_strip_val(0, s as nat);
                }
            } else {
                assert(m == (am + bm) as int);
            }
        }
        norm(a.neg, am + bm, s)
    } else if am >= bm {
        proof {
            if a.neg {
                assert(m == -((am - bm) as int));
            } else {
                assert(m == (am - bm) as int);
            }
            if am == bm {
                lemma_strip_val(0, s as nat);
            }
        }
        norm(a.neg, am - bm, s)
    } else {
        proof {
            if b.neg {
                assert(m == -((bm - am) as int));
            } else {
                assert(m == (bm - am) as int);
            }
        }
        norm(b.neg, bm - am, s)
    }
}

/// The exact negation: flips the sign, except on zero.
pub fn num_neg(a: Num) -> (r: Num)
    requires
        a.wf(),
    ensures
        r == spec_neg(a),
        r.wf(),
{
    if a.mag == 0 {
        a
    } else {
        Num { neg: !a.neg, mag: a.mag, scale: a.scale }
    }
}

/// The exact difference, as [`spec_sub`] says.
pub fn num_sub(a: Num, b: Num) -> (r: Result<Num, NumError>)
    requires
        a.wf(),
        b.wf(),
    ensures
        r == spec_sub(a, b),
        r matches Ok(c) ==> c.wf(),
{
    num_add(a, num_neg(b))
}

/// The exact product, as [`spec_mul`] says.
pub fn num_mul(a: Num, b: Num) -> (r: Result<Num, NumError>)
    requires
        a.wf(),
        b.wf(),
    ensures
        r == spec_mul(a, b),
        r matches Ok(c) ==> c.wf(),
{
    proof {
        lemma_mul_upper_bound(a.mag as int, MANT_MAX as int, b.mag as int, MANT_MAX as int);
        lemma_mul_cancels_negatives(a.mag as int, b.mag as int);
        lemma_mul_unary_negation(a.mag as int, b.mag as int);
        lemma_mul_is_commutative(a.mag as int, -(b.mag as int));
        lemma_mul_is_commutative(b.mag as int, -(a.mag as int));
    }
    let mm: u128 = (a.mag as u128) * (b.mag as u128);
    let s: u32 = a.scale + b.scale;
    let neg: bool = a.neg != b.neg;
    proof {
        if mm == 0 {
            lemma_strip_val(0, s as nat);
        }
    }
    norm(neg, mm, s)
}

/// A pair whose magnitude exceeds the largest representable value at its
/// scale normalizes to out-of-range.
proof fn lemma_norm_too_big(neg: bool, mag: nat, s: nat)
    requires
        s <= SCALE_MAX,
        mag > MANT_MAX * p10(s),
    ensures
        spec_norm(neg, mag, s) == Err::<Num, NumError>(NumError::OutOfRange),
{
    lemma_strip_val(mag, s);
    let st = strip_zeros(mag, s);
    lemma_p10_pos(st.1);
    lemma_p10_pos(s);
    assert(st.0 > MANT_MAX) by (nonlinear_arith)
        requires
            st.0 * p10(s) == mag * p10(st.1),
            mag > MANT_MAX * p10(s),
            p10(st.1) >= 1,
            p10(s) >= 1,
    {
    }
}

/// The exact quotient, as [`spec_div`] says.  The dividend
/// `a.mag * 10^(SCALE_MAX + b.scale - a.scale)` can be too wide to hold, so
/// the division runs in two steps: first the mantissa scaled by
/// `min(SCALE_MAX, e)` tens, then the remainder scaled by the rest.
#[verifier::rlimit(60)]
pub fn num_div(a: Num, b: Num) -> (r: Result<Num, NumError>)
    requires
        a.wf(),
        b.wf(),
    ensures
        r == spec_div(a, b),
        r matches Ok(c) ==> c.wf(),
{
    if b.mag == 0 {
        return Err(NumError::DivideByZero);
    }
    let e: u32 = SCALE_MAX + b.scale - a.scale;
    let e1: u32 = if e > SCALE_MAX {
        SCALE_MAX
    } else {
        e
    };
    let e2: u32 = e - e1;
    let p1 = pow10_u64(e1);
    let p2 = pow10_u64(e2);
    proof {
        lemma_aligned_bound(a.mag as nat, e1 as nat);
    }
    let t: u128 = (a.mag as u128) * (p1 as u128);
    let bm: u128 = b.mag as u128;
    let q1: u128 = t / bm;
    let r1: u128 = t % bm;
    proof {
        lemma_mod_pos_bound(t as int, bm as int);
        lemma_aligned_bound(r1 as nat, e2 as nat);
    }
    let m2: u128 = r1 * (p2 as u128);
    let q2: u128 = m2 / bm;
    let r2: u128 = m2 % bm;
    let ghost dividend = a.mag as int * p10(e as nat);
    proof {
        lemma_mod_pos_bound(m2 as int, bm as int);
        lemma_p10_adds(e1 as nat, e2 as nat);
        lemma_p10_pos(e as nat);
        lemma_mul_nonnegative(a.mag as int, p10(e as nat));
        lemma_fundamental_div_mod(t as int, bm as int);
        lemma_fundamental_div_mod(m2 as int, bm as int);
        assert(dividend == (bm * q1 + r1) * p10(e2 as nat)) by (nonlinear_arith)
            requires
                dividend == a.mag as int * (p10(e1 as nat) * p10(e2 as nat)),
                t == a.mag as int * p10(e1 as nat),
                t == bm * q1 + r1,
        {
        }
        assert(dividend == bm * (q1 * p10(e2 as nat) + q2) + r2) by (nonlinear_arith)
            requires
                dividend == (bm * q1 + r1) * p10(e2 as nat),
                m2 == r1 * p10(e2 as nat),
                m2 == bm * q2 + r2,
        {
        }
        assert(dividend == (q1 as int * p10(e2 as nat) + q2) * (bm as int) + r2) by (
        nonlinear_arith)
            requires
                dividend == bm * (q1 * p10(e2 as nat) + q2) + r2,
        {
        }
        lemma_fundamental_div_mod_converse(
            dividend,
            bm as int,
            q1 as int * p10(e2 as nat) + q2,
            r2 as int,
        );
    }
    if r2 != 0 {
        return Err(NumError::NotExact);
    }
    let lim: u128 = 1_000_000_000_000_000_000_000_000_000_000_000_000;
    proof {
        lemma_p10_values();
        lemma_p10_increases(e2 as nat, 18);
        assert(lim as int % p2 as int == 0) by {
            lemma_p10_adds(e2 as nat, (36 - e2) as nat);
            assert(p10(36) == lim as int) by {
                lemma_p10_adds(18, 18);
            }
            lemma_mod_multiples_basic(p10((36 - e2) as nat), p2 as int);
        }
        lemma_fundamental_div_mod(lim as int, p2 as int);
        assert((p2 as u128) * (lim / (p2 as u128)) == lim) by (nonlinear_arith)
            requires
                lim as int == p2 as int * (lim as int / p2 as int) + lim as int % p2 as int,
                lim as int % p2 as int == 0,
        {
        }
    }
    if q1 > lim / (p2 as u128) {
        proof {
            assert(q1 as int * p10(e2 as nat) > lim) by (nonlinear_arith)
                requires
                    q1 >= lim / (p2 as u128) + 1,
                    p10(e2 as nat) == p2 as int,
                    p2 >= 1,
                    (p2 as u128) * (lim / (p2 as u128)) == lim,
            {
            }
            assert(dividend / (bm as int) > MANT_MAX * p10(SCALE_MAX as nat));
            lemma_div_pos_is_pos(dividend, bm as int);
            lemma_norm_too_big(
                a.neg != b.neg,
                (dividend / (bm as int)) as nat,
                SCALE_MAX as nat,
            );
        }
        return Err(NumError::OutOfRange);
    }
    proof {
        assert(q1 * (p2 as u128) <= lim) by (nonlinear_arith)
            requires
                q1 <= lim / (p2 as u128),
                p2 >= 1,
                (p2 as u128) * (lim / (p2 as u128)) == lim,
        {
        }
    }
    let q: u128 = q1 * (p2 as u128) + q2;
    norm(a.neg != b.neg, q, SCALE_MAX)
}

/// Whether `a` denotes a strictly smaller rational than `b`, as [`num_lt`]
/// says.
pub fn num_less(a: Num, b: Num) -> (r: bool)
    requires
        a.wf(),
        b.wf(),
    ensures
        r == num_lt(a, b),
{
    let pa = pow10_u64(b.scale);
    let pb = pow10_u64(a.scale);
    proof {
        lemma_aligned_bound(a.mag as nat, b.scale as nat);
        lemma_aligned_bound(b.mag as nat, a.scale as nat);
        lemma_mul_unary_negation(a.mag as int, pa as int);
        lemma_mul_unary_negation(b.mag as int, pb as int);
        lemma_mul_strictly_positive(a.mag as int, pa as int);
        lemma_mul_strictly_positive(b.mag as int, pb as int);
    }
    let am: u128 = (a.mag as u128) * (pa as u128);
    let bm: u128 = (b.mag as u128) * (pb as u128);
    if a.neg && !b.neg {
        true
    } else if !a.neg && b.neg {
        false
    } else if !a.neg {
        am < bm
    } else {
        bm < am
    }
}

/// Whether `a` and `b` denote the same rational, as [`num_eq_val`] says.
pub fn num_equal(a: Num, b: Num) -> (r: bool)
    requires
        a.wf(),
        b.wf(),
    ensures
        r == num_eq_val(a, b),
{
    let pa = pow10_u64(b.scale);
    let pb = pow10_u64(a.scale);
    proof {
        lemma_aligned_bound(a.mag as nat, b.scale as nat);
        lemma_aligned_bound(b.mag as nat, a.scale as nat);
        lemma_mul_unary_negation(a.mag as int, pa as int);
        lemma_mul_unary_negation(b.mag as int, pb as int);
        lemma_mul_strictly_positive(a.mag as int, pa as int);
        lemma_mul_strictly_positive(b.mag as int, pb as int);
    }
    let am: u128 = (a.mag as u128) * (pa as u128);
    let bm: u128 = (b.mag as u128) * (pb as u128);
    if a.neg != b.neg {
        false
    } else {
        am == bm
    }
}

/// Whether `c` is a decimal digit.
pub open spec fn is_digit_char(c: char) -> bool {
    '0' <= c && c <= '9'
}

/// The value of the decimal digit `c`.
pub open spec fn digit_val(c: char) -> nat {
    (c as int - '0' as int) as nat
}

/// The value of a run of decimal digits, most significant first.
pub open spec fn digits_val(s: Seq<char>) -> nat
    decreases s.len(),
{
    if s.len() == 0 {
        0
    } else {
        digits_val(s.drop_last()) * 10 + digit_val(s.last())
    }
}

/// Appending a digit multiplies the value by ten and adds the digit.
pub proof fn lemma_digits_val_push(ds: Seq<char>, d: char)
    ensures
        digits_val(ds.push(d)) == digits_val(ds) * 10 + digit_val(d),
{
    assert(ds.push(d).drop_last() =~= ds);
    assert(ds.push(d).last() == d);
    assert(digits_val(ds.push(d)) == digits_val(ds.push(d).drop_last()) * 10 + digit_val(
        ds.push(d).last(),
    ));
}

/// The value of a prefix never exceeds the value of the whole run.
pub proof fn lemma_digits_val_take_le(ds: Seq<char>, m: int)
    requires
        0 <= m <= ds.len(),
    ensures
        digits_val(ds.take(m)) <= digits_val(ds),
    decreases ds.len(),
{
    if m == ds.len() {
        assert(ds.take(m) =~= ds);
    } else {
        assert(ds.drop_last().take(m) =~= ds.take(m));
        lemma_digits_val_take_le(ds.drop_last(), m);
        assert(digits_val(ds) == digits_val(ds.drop_last()) * 10 + digit_val(ds.last()));
        assert(digits_val(ds.drop_last()) * 10 >= digits_val(ds.drop_last()));
    }
}

/// The last digit of a run is the value modulo ten.
pub proof fn lemma_digits_val_last_mod(ds: Seq<char>)
    requires
        ds.len() > 0,
        is_digit_char(ds.last()),
    ensures
        digits_val(ds) % 10 == digit_val(ds.last()),
{
    let q = digits_val(ds.drop_last()) as int;
    let d = digit_val(ds.last()) as int;
    assert(digits_val(ds) == q * 10 + d);
    assert((q * 10 + d) % 10 == d) by (nonlinear_arith)
        requires
            0 <= d < 10,
            q >= 0,
    {
    }
}

/// The decimal digit with value `d`.
pub open spec fn digit_char(d: nat) -> char {
    seq!['0', '1', '2', '3', '4', '5', '6', '7', '8', '9'][d as int]
}

/// The decimal digits of `v`, most significant first, without leading zeros
/// (`0` itself is the single digit `0`).
pub open spec fn dec_digits(v: nat) -> Seq<char>
    decreases v,
{
    if v < 10 {
        seq![digit_char(v)]
    } else {
        dec_digits(v / 10).push(digit_char(v % 10))
    }
}

/// The low `k` decimal digits of `v`, most significant first, padded with
/// leading zeros to exactly `k` digits.
pub open spec fn dec_digits_pad(v: nat, k: nat) -> Seq<char>
    decreases k,
{
    if k == 0 {
        Seq::empty()
    } else {
        dec_digits_pad(v / 10, (k - 1) as nat).push(digit_char(v % 10))
    }
}

/// The canonical decimal text of `n`: optional minus sign, integer digits,
/// and, when the scale is positive, a point and exactly `scale` fraction
/// digits.
pub open spec fn spec_num_text(n: Num) -> Seq<char> {
    let sign: Seq<char> = if n.neg {
        seq!['-']
    } else {
        Seq::empty()
    };
    if n.scale == 0 {
        sign + dec_digits(n.mag as nat)
    } else {
        sign + dec_digits(n.mag as nat / p10(n.scale as nat) as nat) + seq!['.'] + dec_digits_pad(
            n.mag as nat % p10(n.scale as nat) as nat,
            n.scale as nat,
        )
    }
}

/// The digit characters denote their values, are digits, and only the zero
/// digit is `'0'`.
pub proof fn lemma_digit_char_val(d: nat)
    requires
        d < 10,
    ensures
        digit_val(digit_char(d)) == d,
        is_digit_char(digit_char(d)),
        (digit_char(d) == '0' <==> d == 0),
{
    if d == 0 {
        assert(digit_char(0) == '0');
    } else if d == 1 {
        assert(digit_char(1) == '1');
    } else if d == 2 {
        assert(digit_char(2) == '2');
    } else if d == 3 {
        assert(digit_char(3) == '3');
    } else if d == 4 {
        assert(digit_char(4) == '4');
    } else if d == 5 {
        assert(digit_char(5) == '5');
    } else if d == 6 {
        assert(digit_char(6) == '6');
    } else if d == 7 {
        assert(digit_char(7) == '7');
    } else if d == 8 {
        assert(digit_char(8) == '8');
    } else {
        assert(digit_char(9) == '9');
    }
}

/// The decimal digits of `v` are a nonempty run of digit characters.
pub proof fn lemma_dec_digits_digits(v: nat)
    ensures
        dec_digits(v).len() >= 1,
        forall|q: int| 0 <= q < dec_digits(v).len() ==> is_digit_char(#[trigger] dec_digits(v)[q]),
    decreases v,
{
    if v < 10 {
        lemma_digit_char_val(v);
    } else {
        lemma_dec_digits_digits(v / 10);
        lemma_digit_char_val(v % 10);
    }
}

/// The padded digits of `v` are exactly `k` digit characters.
pub proof fn lemma_pad_digits(v: nat, k: nat)
    ensures
        dec_digits_pad(v, k).len() == k,
        forall|q: int|
            0 <= q < k ==> is_digit_char(#[trigger] dec_digits_pad(v, k)[q]),
    decreases k,
{
    if k > 0 {
        lemma_pad_digits(v / 10, (k - 1) as nat);
        lemma_digit_char_val(v % 10);
    }
}

/// Reading back the decimal digits of `v` yields `v`.
pub proof fn lemma_dec_digits_val(v: nat)
    ensures
        digits_val(dec_digits(v)) == v,
    decreases v,
{
    if v < 10 {
        lemma_digit_char_val(v);
        let s = dec_digits(v);
        assert(s == seq![digit_char(v)]);
        assert(s.len() == 1);
        assert(s.last() == digit_char(v));
        assert(s.drop_last() =~= Seq::<char>::empty());
        assert(digits_val(s.drop_last()) == 0);
        assert(digits_val(s) == digits_val(s.drop_last()) * 10 + digit_val(s.last()));
        assert(digits_val(s) == v);
    } else {
        lemma_dec_digits_val(v / 10);
        lemma_digit_char_val(v % 10);
        lemma_digits_val_push(dec_digits(v / 10), digit_char(v % 10));
        lemma_fundamental_div_mod(v as int, 10);
    }
}

/// The value of a concatenated digit run.
pub proof fn lemma_digits_val_concat(a: Seq<char>, b: Seq<char>)
    ensures
        digits_val(a + b) == digits_val(a) * p10(b.len()) + digits_val(b),
    decreases b.len(),
{
    lemma_p10_values();
    if b.len() == 0 {
        assert(a + b =~= a);
    } else {
        assert((a + b).drop_last() =~= a + b.drop_last());
        assert((a + b).last() == b.last());
        lemma_digits_val_concat(a, b.drop_last());
        lemma_p10_adds((b.len() - 1) as nat, 1);
        assert(digits_val(a) * p10(b.len() as nat) == (digits_val(a) * p10(
            (b.len() - 1) as nat,
        )) * 10) by (nonlinear_arith)
            requires
                p10(b.len() as nat) == p10((b.len() - 1) as nat) * 10,
        {
        }
    }
}

/// Reading back the padded digits of `v` yields `v` modulo `10^k`.
pub proof fn lemma_pad_val(v: nat, k: nat)
    ensures
        digits_val(dec_digits_pad(v, k)) == v as int % p10(k),
    decreases k,
{
    lemma_p10_values();
    if k == 0 {
        assert(v as int % 1 == 0) by (nonlinear_arith);
    } else {
        lemma_pad_val(v / 10, (k - 1) as nat);
        lemma_digit_char_val(v % 10);
        lemma_digits_val_push(dec_digits_pad(v / 10, (k - 1) as nat), digit_char(v % 10));
        lemma_p10_pos((k - 1) as nat);
        vstd::arithmetic::div_mod::lemma_mod_breakdown(v as int, 10, p10((k - 1) as nat));
        lemma_p10_adds(1, (k - 1) as nat);
    }
}

/// The decimal digit with value `d`, as a character.
fn digit_char_exec(d: u64) -> (c: char)
    requires
        d < 10,
    ensures
        c == digit_char(d as nat),
{
    match d {
        0 => '0',
        1 => '1',
        2 => '2',
        3 => '3',
        4 => '4',
        5 => '5',
        6 => '6',
        7 => '7',
        8 => '8',
        _ => '9',
    }
}

/// Append the elements of `rev`, reversed, to `out`.
fn push_reversed(out: &mut Vec<char>, rev: &Vec<char>)
    ensures
        final(out)@ == old(out)@ + rev@.reverse(),
{
    let n = rev.len();
    let mut k: usize = 0;
    while k < n
        invariant
            n == rev.len(),
            k <= n,
            out@.len() == old(out)@.len() + k,
            out@.subrange(0, old(out)@.len() as int) == old(out)@,
            forall|i: int|
                old(out)@.len() <= i < out@.len() ==> #[trigger] out@[i]
                    == rev@[n - 1 - (i - old(out)@.len())],
        decreases n - k,
    {
        let c = rev[n - 1 - k];
        out.push(c);
        k = k + 1;
        assert(out@.subrange(0, old(out)@.len() as int) =~= old(out)@);
    }
    assert forall|i: int| 0 <= i < old(out)@.len() implies out@[i] == old(out)@[i] by {
        assert(out@.subrange(0, old(out)@.len() as int)[i] == out@[i]);
    }
    assert(out@ =~= old(out)@ + rev@.reverse());
}

/// The decimal digits of `v`, most significant first.
fn dec_digits_exec(v0: u64) -> (r: Vec<char>)
    ensures
        r@ == dec_digits(v0 as nat),
{
    if v0 == 0 {
        let mut r: Vec<char> = Vec::new();
        r.push('0');
        assert(r@ =~= dec_digits(0));
        return r;
    }
    let mut rev: Vec<char> = Vec::new();
    let mut v: u64 = v0;
    proof {
        assert(dec_digits(v0 as nat) =~= dec_digits(v as nat) + rev@.reverse());
    }
    while v > 0
        invariant
            v > 0 ==> dec_digits(v0 as nat) == dec_digits(v as nat) + rev@.reverse(),
            v == 0 ==> dec_digits(v0 as nat) == rev@.reverse(),
        decreases v,
    {
        let d = v % 10;
        let c = digit_char_exec(d);
        let ghost old_rev = rev@;
        let ghost vv = v as nat;
        rev.push(c);
        proof {
            assert(rev@.reverse() =~= seq![c] + old_rev.reverse());
            if vv >= 10 {
                assert(dec_digits(vv) == dec_digits(vv / 10).push(digit_char(vv % 10)));
                assert(dec_digits(vv / 10).push(c) + old_rev.reverse() =~= dec_digits(vv / 10)
                    + rev@.reverse());
            } else {
                assert(dec_digits(vv) =~= seq![c]);
                assert(seq![c] + old_rev.reverse() =~= rev@.reverse());
            }
        }
        v = v / 10;
    }
    let mut r: Vec<char> = Vec::new();
    push_reversed(&mut r, &rev);
    assert(r@ =~= rev@.reverse());
    r
}

/// The low `k` decimal digits of `v`, zero padded, most significant first.
fn dec_digits_pad_exec(v0: u64, k0: u32) -> (r: Vec<char>)
    ensures
        r@ == dec_digits_pad(v0 as nat, k0 as nat),
{
    let mut rev: Vec<char> = Vec::new();
    let mut v: u64 = v0;
    let mut k: u32 = k0;
    proof {
        assert(dec_digits_pad(v0 as nat, k0 as nat) =~= dec_digits_pad(v as nat, k as nat)
            + rev@.reverse());
    }
    while k > 0
        invariant
            dec_digits_pad(v0 as nat, k0 as nat) == dec_digits_pad(v as nat, k as nat)
                + rev@.reverse(),
        decreases k,
    {
        let d = v % 10;
        let c = digit_char_exec(d);
        let ghost old_rev = rev@;
        let ghost vv = v as nat;
        let ghost kk = k as nat;
        rev.push(c);
        proof {
            assert(rev@.reverse() =~= seq![c] + old_rev.reverse());
            assert(dec_digits_pad(vv, kk) == dec_digits_pad(vv / 10, (kk - 1) as nat).push(c));
            assert(dec_digits_pad(vv / 10, (kk - 1) as nat).push(c) + old_rev.reverse()
                =~= dec_digits_pad(vv / 10, (kk - 1) as nat) + rev@.reverse());
        }
        v = v / 10;
        k = k - 1;
    }
    let mut r: Vec<char> = Vec::new();
    push_reversed(&mut r, &rev);
    assert(dec_digits_pad(v as nat, k as nat) =~= Seq::<char>::empty());
    assert(r@ =~= rev@.reverse());
    assert(r@ =~= dec_digits_pad(v0 as nat, k0 as nat));
    r
}

/// The canonical decimal text of `n`, as characters, as [`spec_num_text`]
/// says.
pub fn num_text_chars(n: Num) -> (r: Vec<char>)
    requires
        n.wf(),
    ensures
        r@ == spec_num_text(n),
{
    let mut out: Vec<char> = Vec::new();
    if n.neg {
        out.push('-');
    }
    if n.scale == 0 {
        let digits = dec_digits_exec(n.mag);
        let mut j: usize = 0;
        let ghost before = out@;
        while j < digits.len()
            invariant
                j <= digits.len(),
                out@ == before + digits@.subrange(0, j as int),
            decreases digits.len() - j,
        {
            let c = digits[j];
            out.push(c);
            j = j + 1;
            assert(out@ =~= before + digits@.subrange(0, j as int));
        }
        assert(digits@.subrange(0, digits@.len() as int) =~= digits@);
        assert(out@ =~= spec_num_text(n));
        out
    } else {
        let ps = pow10_u64(n.scale);
        let ip = n.mag / ps;
        let fp = n.mag % ps;
        let digits = dec_digits_exec(ip);
        let pad = dec_digits_pad_exec(fp, n.scale);
        let mut j: usize = 0;
        let ghost before = out@;
        while j < digits.len()
            invariant
                j <= digits.len(),
                out@ == before + digits@.subrange(0, j as int),
            decreases digits.len() - j,
        {
            let c = digits[j];
            out.push(c);
            j = j + 1;
            assert(out@ =~= before + digits@.subrange(0, j as int));
        }
        assert(digits@.subrange(0, digits@.len() as int) =~= digits@);
        out.push('.');
        let ghost before2 = out@;
        let mut j2: usize = 0;
        while j2 < pad.len()
            invariant
                j2 <= pad.len(),
                out@ == before2 + pad@.subrange(0, j2 as int),
            decreases pad.len() - j2,
        {
            let c = pad[j2];
            out.push(c);
            j2 = j2 + 1;
            assert(out@ =~= before2 + pad@.subrange(0, j2 as int));
        }
        assert(pad@.subrange(0, pad@.len() as int) =~= pad@);
        assert(out@ =~= spec_num_text(n));
        out
    }
}

} // verus!
