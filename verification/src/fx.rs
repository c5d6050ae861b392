//! Fixed-point scalars.
//!
//! A quantity is stored as `raw` counts of `1 / SCALE`, so `raw == SCALE`
//! stands for one unit. Products and quotients are truncated toward zero,
//! exactly as the spec functions `fmul`, `fdiv` and `fsqrt` state, and each
//! operation carries a magnitude precondition that rules out overflow of the
//! `i128` representation.

use vstd::prelude::*;
use vstd::arithmetic::div_mod::{
    lemma_div_is_ordered, lemma_div_pos_is_pos, lemma_div_nonincreasing,
    lemma_div_multiples_vanish, lemma_multiply_divide_lt, lemma_fundamental_div_mod,
    lemma_mod_bound,
};
use vstd::arithmetic::mul::{lemma_mul_inequality, lemma_mul_upper_bound};

verus! {

/// Raw steps per unit.
pub const SCALE: i128 = 65536;

/// Largest operand magnitude `add`, `sub` and `neg` accept: 2^125.
pub const ADD_LIMIT: i128 = 42535295865117307932921825928971026432;

/// Largest operand magnitude `mul` accepts: 2^62.
pub const MUL_LIMIT: i128 = 4611686018427387904;

/// Largest numerator magnitude `div` accepts: 2^100.
pub const DIV_LIMIT: i128 = 1267650600228229401496703205376;

/// Largest operand `sqrt` accepts: 2^110.
pub const SQRT_LIMIT: i128 = 1298074214633706907132624082305024;

/// `a` lies within `[-bound, bound]`.
pub open spec fn mag_le(a: int, bound: int) -> bool {
    -bound <= a && a <= bound
}

/// The magnitude of `a`.
pub open spec fn iabs(a: int) -> int {
    if a >= 0 {
        a
    } else {
        -a
    }
}

/// Division truncated toward zero; meaningful for `b > 0`.
pub open spec fn tdiv(a: int, b: int) -> int {
    if a >= 0 {
        a / b
    } else {
        -((-a) / b)
    }
}

/// Raw value of a fixed-point product: `a * b / SCALE`, truncated toward zero.
pub open spec fn fmul(a: int, b: int) -> int {
    tdiv(a * b, SCALE as int)
}

/// Raw value of a fixed-point quotient: `a * SCALE / b`, truncated toward zero.
pub open spec fn fdiv(a: int, b: int) -> int {
    if b >= 0 {
        tdiv(a * SCALE, b)
    } else {
        -tdiv(a * SCALE, -b)
    }
}

/// `r` is the integer square root of `n`, rounded down.
pub open spec fn is_sqrt(n: int, r: int) -> bool {
    0 <= r && r * r <= n && n < (r + 1) * (r + 1)
}

/// The integer square root of `n`, rounded down; meaningful for `n >= 0`.
pub open spec fn sqrt_floor(n: int) -> int {
    choose|r: int| is_sqrt(n, r)
}

/// Raw value of a fixed-point square root: the integer root of `a * SCALE`.
pub open spec fn fsqrt(a: int) -> int {
    sqrt_floor(a * SCALE)
}

/// An integer root, once exhibited, is the unique value `sqrt_floor` names.
pub proof fn lemma_sqrt_floor_is(n: int, r: int)
    requires
        is_sqrt(n, r),
    ensures
        sqrt_floor(n) == r,
{
    assert(exists|x: int| is_sqrt(n, x));
    let c = sqrt_floor(n);
    assert(is_sqrt(n, c));
    assert(c == r) by (nonlinear_arith)
        requires
            is_sqrt(n, c),
            is_sqrt(n, r),
    ;
}

/// Every nonnegative integer has a floor square root, so `sqrt_floor`
/// denotes the true root there.
pub proof fn lemma_sqrt_floor_exists(n: int)
    requires
        0 <= n,
    ensures
        is_sqrt(n, sqrt_floor(n)),
    decreases n,
{
    if n == 0 {
        assert(is_sqrt(0, 0));
        lemma_sqrt_floor_is(0, 0);
    } else {
        lemma_sqrt_floor_exists(n - 1);
        let r = sqrt_floor(n - 1);
        if (r + 1) * (r + 1) <= n {
            assert(is_sqrt(n, r + 1)) by (nonlinear_arith)
                requires
                    is_sqrt(n - 1, r),
                    (r + 1) * (r + 1) <= n,
            ;
            lemma_sqrt_floor_is(n, r + 1);
        } else {
            assert(is_sqrt(n, r));
            lemma_sqrt_floor_is(n, r);
        }
    }
}

/// Truncating division keeps magnitudes: for `b >= 1` the quotient is no
/// larger in magnitude than the numerator's bound, and no larger than the
/// bound divided by `b`.
pub proof fn lemma_tdiv_mag(a: int, b: int, bound: int)
    requires
        b >= 1,
        0 <= bound,
        mag_le(a, bound),
    ensures
        mag_le(tdiv(a, b), bound / b),
        mag_le(tdiv(a, b), bound),
{
    if a >= 0 {
        lemma_div_pos_is_pos(a, b);
        lemma_div_is_ordered(a, bound, b);
        lemma_div_nonincreasing(bound, b);
    } else {
        lemma_div_pos_is_pos(-a, b);
        lemma_div_is_ordered(-a, bound, b);
        lemma_div_nonincreasing(bound, b);
    }
}

/// A fixed-point product of bounded factors is bounded by the product of the
/// bounds, scaled down.
pub proof fn lemma_fmul_mag(a: int, b: int, abound: int, bbound: int)
    requires
        0 <= abound,
        0 <= bbound,
        mag_le(a, abound),
        mag_le(b, bbound),
    ensures
        mag_le(fmul(a, b), (abound * bbound) / (SCALE as int)),
        mag_le(fmul(a, b), abound * bbound),
{
    assert(mag_le(a * b, abound * bbound)) by (nonlinear_arith)
        requires
            0 <= abound,
            0 <= bbound,
            mag_le(a, abound),
            mag_le(b, bbound),
    ;
    lemma_tdiv_mag(a * b, SCALE as int, abound * bbound);
}

/// A fixed-point quotient by a nonzero denominator grows at most by `SCALE`.
pub proof fn lemma_fdiv_mag(a: int, b: int, abound: int)
    requires
        b != 0,
        0 <= abound,
        mag_le(a, abound),
    ensures
        mag_le(fdiv(a, b), abound * SCALE),
{
    let s = SCALE as int;
    assert(mag_le(a * s, abound * s));
    if b >= 0 {
        lemma_tdiv_mag(a * s, b, abound * s);
    } else {
        lemma_tdiv_mag(a * s, -b, abound * s);
    }
}

/// Truncating division is monotone on nonnegative numerators.
pub proof fn lemma_tdiv_mono(a1: int, a2: int, b: int)
    requires
        b >= 1,
        0 <= a1 <= a2,
    ensures
        tdiv(a1, b) <= tdiv(a2, b),
        0 <= tdiv(a1, b),
{
    lemma_div_pos_is_pos(a1, b);
    lemma_div_is_ordered(a1, a2, b);
}

/// A fixed-point product of nonnegative factors is nonnegative and monotone
/// in each factor.
pub proof fn lemma_fmul_mono(a1: int, a2: int, b: int)
    requires
        0 <= a1 <= a2,
        0 <= b,
    ensures
        0 <= fmul(a1, b) <= fmul(a2, b),
        fmul(a1, b) <= a1 * b,
{
    lemma_mul_inequality(a1, a2, b);
    lemma_mul_upper_bound(a1, a1, b, b);
    assert(0 <= a1 * b) by (nonlinear_arith)
        requires
            0 <= a1,
            0 <= b,
    ;
    lemma_tdiv_mono(a1 * b, a2 * b, SCALE as int);
    lemma_tdiv_mag(a1 * b, SCALE as int, a1 * b);
}

/// Truncating division toward zero is monotone in the numerator.
pub proof fn lemma_tdiv_mono_signed(a1: int, a2: int, b: int)
    requires
        b >= 1,
        a1 <= a2,
    ensures
        tdiv(a1, b) <= tdiv(a2, b),
{
    if 0 <= a1 {
        lemma_div_is_ordered(a1, a2, b);
    } else if a2 < 0 {
        lemma_div_is_ordered(-a2, -a1, b);
    } else {
        lemma_div_pos_is_pos(a2, b);
        lemma_div_pos_is_pos(-a1, b);
    }
}

/// A fixed-point quotient is monotone in the numerator for a positive
/// denominator.
pub proof fn lemma_fdiv_mono(a1: int, a2: int, b: int)
    requires
        b >= 1,
        a1 <= a2,
    ensures
        fdiv(a1, b) <= fdiv(a2, b),
{
    lemma_tdiv_mono_signed(a1 * SCALE, a2 * SCALE, b);
}

/// One fixed product's truncation error: the scaled result is within one
/// quantum of the exact product.
pub proof fn lemma_fmul_err(x: int, y: int)
    ensures
        mag_le(SCALE * fmul(x, y) - x * y, (SCALE - 1) as int),
{
    let s = SCALE as int;
    let p = x * y;
    if p >= 0 {
        lemma_fundamental_div_mod(p, s);
        lemma_mod_bound(p, s);
    } else {
        lemma_fundamental_div_mod(-p, s);
        lemma_mod_bound(-p, s);
    }
}

/// Fixed products are odd in each factor: truncation toward zero is
/// symmetric about zero.
pub proof fn lemma_fmul_neg(a: int, b: int)
    ensures
        fmul(-a, b) == -fmul(a, b),
{
    assert((-a) * b == -(a * b)) by (nonlinear_arith);
}

/// Fixed products commute.
pub proof fn lemma_fmul_comm(a: int, b: int)
    ensures
        fmul(a, b) == fmul(b, a),
{
    assert(a * b == b * a) by (nonlinear_arith);
}

/// A quotient whose numerator is no larger in magnitude than its (positive)
/// denominator stays within one unit.
pub proof fn lemma_fdiv_le_one(a: int, b: int)
    requires
        0 < b,
        mag_le(a, b),
    ensures
        mag_le(fdiv(a, b), SCALE as int),
{
    let s = SCALE as int;
    lemma_tdiv_mag(a * s, b, b * s);
    lemma_div_multiples_vanish(s, b);
    assert(b * s == s * b) by (nonlinear_arith);
    assert((b * s) / b == s);
}

/// A quotient whose numerator is at most `k` times its positive denominator
/// stays within `k` units.
pub proof fn lemma_fdiv_le_k(a: int, b: int, k: int)
    requires
        0 < b,
        0 <= k,
        0 <= a <= k * b,
    ensures
        0 <= fdiv(a, b) <= k * SCALE,
{
    let s = SCALE as int;
    assert(a * s <= (k * s) * b) by (nonlinear_arith)
        requires
            0 <= a,
            a <= k * b,
            s == 65536,
    ;
    lemma_div_pos_is_pos(a * s, b);
    lemma_div_is_ordered(a * s, (k * s) * b, b);
    lemma_div_multiples_vanish(k * s, b);
    assert((k * s) * b == b * (k * s)) by (nonlinear_arith);
}

/// Scaling a nonnegative value by a fraction of at most one keeps it within
/// `[0, value]`.
pub proof fn lemma_fmul_unit(a: int, u: int)
    requires
        0 <= a,
        0 <= u <= SCALE,
    ensures
        0 <= fmul(a, u) <= a,
{
    let s = SCALE as int;
    assert(0 <= a * u <= a * s) by (nonlinear_arith)
        requires
            0 <= a,
            0 <= u,
            u <= s,
    ;
    lemma_div_pos_is_pos(a * u, s);
    lemma_div_is_ordered(a * u, a * s, s);
    lemma_div_multiples_vanish(a, s);
    assert(s * a == a * s) by (nonlinear_arith);
}

/// Scaling a positive value by a fraction strictly below one lands strictly
/// below the value.
pub proof fn lemma_fmul_unit_strict(a: int, u: int)
    requires
        1 <= a,
        0 <= u < SCALE,
    ensures
        0 <= fmul(a, u) < a,
{
    let s = SCALE as int;
    assert(0 <= a * u && a * u < s * a) by (nonlinear_arith)
        requires
            1 <= a,
            0 <= u,
            u < s,
    ;
    lemma_div_pos_is_pos(a * u, s);
    lemma_multiply_divide_lt(a * u, s, a);
}

/// A fixed-point scalar: `raw` counts of `1 / SCALE`.
#[derive(Clone, Copy, PartialEq, Eq, Structural, Debug)]
pub struct Fx {
    pub raw: i128,
}

impl Fx {
    /// The value zero.
    pub fn zero() -> (r: Fx)
        ensures
            r.raw == 0,
    {
        Fx { raw: 0 }
    }

    /// The value one.
    pub fn one() -> (r: Fx)
        ensures
            r.raw == SCALE,
    {
        Fx { raw: SCALE }
    }

    /// Builds a scalar directly from its raw step count.
    pub fn from_raw(raw: i128) -> (r: Fx)
        ensures
            r.raw == raw,
    {
        Fx { raw }
    }

    /// Builds the scalar standing for the integer `i`.
    pub fn from_int(i: i64) -> (r: Fx)
        ensures
            r.raw == i * SCALE,
    {
        Fx { raw: (i as i128) * SCALE }
    }

    /// Sum; truncation-free.
    pub fn add(self, rhs: Fx) -> (r: Fx)
        requires
            mag_le(self.raw as int, ADD_LIMIT as int),
            mag_le(rhs.raw as int, ADD_LIMIT as int),
        ensures
            r.raw == self.raw + rhs.raw,
    {
        Fx { raw: self.raw + rhs.raw }
    }

    /// Difference; truncation-free.
    pub fn sub(self, rhs: Fx) -> (r: Fx)
        requires
            mag_le(self.raw as int, ADD_LIMIT as int),
            mag_le(rhs.raw as int, ADD_LIMIT as int),
        ensures
            r.raw == self.raw - rhs.raw,
    {
        Fx { raw: self.raw - rhs.raw }
    }

    /// Negation; truncation-free.
    pub fn neg(self) -> (r: Fx)
        requires
            mag_le(self.raw as int, ADD_LIMIT as int),
        ensures
            r.raw == -self.raw,
    {
        Fx { raw: -self.raw }
    }

    /// Magnitude; truncation-free.
    pub fn abs(self) -> (r: Fx)
        requires
            mag_le(self.raw as int, ADD_LIMIT as int),
        ensures
            r.raw == if self.raw >= 0 { self.raw as int } else { -self.raw },
    {
        if self.raw >= 0 {
            self
        } else {
            Fx { raw: -self.raw }
        }
    }

    /// The smaller of two scalars.
    pub fn min(self, rhs: Fx) -> (r: Fx)
        ensures
            r.raw == if self.raw <= rhs.raw { self.raw as int } else { rhs.raw as int },
    {
        if self.raw <= rhs.raw {
            self
        } else {
            rhs
        }
    }

    /// The larger of two scalars.
    pub fn max(self, rhs: Fx) -> (r: Fx)
        ensures
            r.raw == if self.raw >= rhs.raw { self.raw as int } else { rhs.raw as int },
    {
        if self.raw >= rhs.raw {
            self
        } else {
            rhs
        }
    }

    /// Product, truncated toward zero as `fmul` states.
    pub fn mul(self, rhs: Fx) -> (r: Fx)
        requires
            mag_le(self.raw as int, MUL_LIMIT as int),
            mag_le(rhs.raw as int, MUL_LIMIT as int),
        ensures
            r.raw == fmul(self.raw as int, rhs.raw as int),
    {
        let a: i128 = self.raw;
        let b: i128 = rhs.raw;
        let sign_neg: bool = (a < 0) != (b < 0);
        let ma: u128 = if a >= 0 { a as u128 } else { (-a) as u128 };
        let mb: u128 = if b >= 0 { b as u128 } else { (-b) as u128 };
        proof {
            assert((ma as int) * (mb as int) <= (MUL_LIMIT as int) * (MUL_LIMIT as int))
                by (nonlinear_arith)
                requires
                    0 <= ma as int <= MUL_LIMIT as int,
                    0 <= mb as int <= MUL_LIMIT as int,
            ;
        }
        let prod: u128 = ma * mb;
        let q: u128 = prod / 65536;
        proof {
            lemma_div_is_ordered(prod as int, (MUL_LIMIT as int) * (MUL_LIMIT as int), 65536);
            lemma_div_pos_is_pos(prod as int, 65536);
            assert((a as int) * (b as int) == if sign_neg {
                -((ma as int) * (mb as int))
            } else {
                (ma as int) * (mb as int)
            }) by (nonlinear_arith)
                requires
                    ma as int == if a as int >= 0 { a as int } else { -(a as int) },
                    mb as int == if b as int >= 0 { b as int } else { -(b as int) },
                    sign_neg == ((a < 0) != (b < 0)),
            ;
        }
        if sign_neg {
            Fx { raw: -(q as i128) }
        } else {
            Fx { raw: q as i128 }
        }
    }

    /// Quotient, truncated toward zero as `fdiv` states.
    pub fn div(self, rhs: Fx) -> (r: Fx)
        requires
            mag_le(self.raw as int, DIV_LIMIT as int),
            mag_le(rhs.raw as int, ADD_LIMIT as int),
            rhs.raw != 0,
        ensures
            r.raw == fdiv(self.raw as int, rhs.raw as int),
    {
        let a: i128 = self.raw;
        let b: i128 = rhs.raw;
        let sign_neg: bool = (a < 0) != (b < 0);
        let ma: u128 = if a >= 0 { a as u128 } else { (-a) as u128 };
        let mb: u128 = if b >= 0 { b as u128 } else { (-b) as u128 };
        let num: u128 = ma * 65536;
        let q: u128 = num / mb;
        proof {
            lemma_div_nonincreasing(num as int, mb as int);
            lemma_div_pos_is_pos(num as int, mb as int);
        }
        if sign_neg {
            Fx { raw: -(q as i128) }
        } else {
            Fx { raw: q as i128 }
        }
    }

    /// Square root of a nonnegative scalar, rounded down in raw steps, as
    /// `fsqrt` states.
    pub fn sqrt(self) -> (r: Fx)
        requires
            0 <= self.raw,
            self.raw <= SQRT_LIMIT as int,
        ensures
            r.raw == fsqrt(self.raw as int),
            is_sqrt(self.raw * SCALE, r.raw as int),
            0 <= r.raw <= 13043817825332782212,
    {
        let n: u128 = (self.raw as u128) * 65536;
        let s: u128 = isqrt(n);
        proof {
            assert(s as int <= 13043817825332782212) by (nonlinear_arith)
                requires
                    (s as int) * (s as int) <= n as int,
                    0 <= s as int,
                    n as int <= (SQRT_LIMIT as int) * (SCALE as int),
            ;
        }
        Fx { raw: s as i128 }
    }
}

/// Integer square root by bisection: returns the floor root of `n`.
pub fn isqrt(n: u128) -> (r: u128)
    ensures
        is_sqrt(n as int, r as int),
        r as int == sqrt_floor(n as int),
{
    let mut lo: u128 = 0;
    let mut hi: u128 = 18446744073709551616;
    proof {
        assert((18446744073709551616 as int) * (18446744073709551616 as int)
            > 340282366920938463463374607431768211455) by (nonlinear_arith);
    }
    while lo + 1 < hi
        invariant
            lo < hi,
            hi <= 18446744073709551616,
            (lo as int) * (lo as int) <= n as int,
            (n as int) < (hi as int) * (hi as int),
        decreases hi - lo,
    {
        let mid: u128 = lo + (hi - lo) / 2;
        proof {
            assert((mid as int) * (mid as int) < 340282366920938463463374607431768211455)
                by (nonlinear_arith)
                requires
                    mid as int <= 18446744073709551615,
                    0 <= mid as int,
            ;
        }
        let sq: u128 = mid * mid;
        if sq <= n {
            lo = mid;
        } else {
            hi = mid;
        }
    }
    proof {
        lemma_sqrt_floor_is(n as int, lo as int);
    }
    lo
}

} // verus!
