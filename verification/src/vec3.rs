//! Three-component vectors over fixed-point scalars.
//!
//! One representation serves as geometric point, direction and linear RGB
//! color; callers track which meaning applies. Every operation's result is
//! pinned down exactly by a spec-level mirror over the raw integer values.

use vstd::prelude::*;
use crate::fx::{
    Fx, SCALE, ADD_LIMIT, MUL_LIMIT, DIV_LIMIT, mag_le, iabs, tdiv, fmul, fdiv, fsqrt, is_sqrt,
    lemma_fmul_mag, lemma_fdiv_mag, lemma_fmul_neg, lemma_fmul_err, lemma_sqrt_floor_is,
    lemma_sqrt_floor_exists,
};
use vstd::arithmetic::div_mod::{
    lemma_div_pos_is_pos, lemma_div_is_ordered, lemma_div_multiples_vanish,
    lemma_fundamental_div_mod, lemma_mod_bound, lemma_multiply_divide_lt,
};

verus! {

/// A geometric point: the same representation as a direction.
pub type Point3 = Vec3;

/// A linear (not gamma-encoded) RGB color.
pub type Color = Vec3;

/// Magnitude below which a vector counts as degenerate (in raw steps).
pub const NEAR_ZERO_EPS: i128 = 4;

/// 2^108: the magnitude bound on any single fixed-point product of
/// `MUL_LIMIT`-bounded factors.
pub const PROD_LIMIT: i128 = 324518553658426726783156020576256;

#[derive(Clone, Copy, PartialEq, Eq, Structural, Debug)]
pub struct Vec3 {
    pub x: Fx,
    pub y: Fx,
    pub z: Fx,
}

/// Every component of `v` lies within `[-bound, bound]`.
pub open spec fn v3_mag_le(v: Vec3, bound: int) -> bool {
    &&& mag_le(v.x.raw as int, bound)
    &&& mag_le(v.y.raw as int, bound)
    &&& mag_le(v.z.raw as int, bound)
}

/// The fixed-point inner product, each term truncated as `fmul` states.
pub open spec fn dot_spec(u: Vec3, v: Vec3) -> int {
    fmul(u.x.raw as int, v.x.raw as int) + fmul(u.y.raw as int, v.y.raw as int) + fmul(
        u.z.raw as int,
        v.z.raw as int,
    )
}

/// The fixed-point squared length.
pub open spec fn len_sq_spec(v: Vec3) -> int {
    dot_spec(v, v)
}

/// The fixed-point cross product, componentwise over `fmul`.
pub open spec fn cross_spec(u: Vec3, v: Vec3) -> Vec3 {
    Vec3 {
        x: Fx {
            raw: (fmul(u.y.raw as int, v.z.raw as int) - fmul(
                u.z.raw as int,
                v.y.raw as int,
            )) as i128,
        },
        y: Fx {
            raw: (fmul(u.z.raw as int, v.x.raw as int) - fmul(
                u.x.raw as int,
                v.z.raw as int,
            )) as i128,
        },
        z: Fx {
            raw: (fmul(u.x.raw as int, v.y.raw as int) - fmul(
                u.y.raw as int,
                v.x.raw as int,
            )) as i128,
        },
    }
}

/// Componentwise sum, as `add` computes it.
pub open spec fn add_spec(a: Vec3, b: Vec3) -> Vec3 {
    Vec3 {
        x: Fx { raw: (a.x.raw + b.x.raw) as i128 },
        y: Fx { raw: (a.y.raw + b.y.raw) as i128 },
        z: Fx { raw: (a.z.raw + b.z.raw) as i128 },
    }
}

/// Componentwise difference, as `sub` computes it.
pub open spec fn sub_spec(a: Vec3, b: Vec3) -> Vec3 {
    Vec3 {
        x: Fx { raw: (a.x.raw - b.x.raw) as i128 },
        y: Fx { raw: (a.y.raw - b.y.raw) as i128 },
        z: Fx { raw: (a.z.raw - b.z.raw) as i128 },
    }
}

/// Componentwise negation, as `neg` computes it.
pub open spec fn neg_spec(a: Vec3) -> Vec3 {
    Vec3 {
        x: Fx { raw: (-a.x.raw) as i128 },
        y: Fx { raw: (-a.y.raw) as i128 },
        z: Fx { raw: (-a.z.raw) as i128 },
    }
}

/// Componentwise scaling by a raw scalar, as `scale` computes it.
pub open spec fn scale_spec(v: Vec3, t: int) -> Vec3 {
    Vec3 {
        x: Fx { raw: fmul(v.x.raw as int, t) as i128 },
        y: Fx { raw: fmul(v.y.raw as int, t) as i128 },
        z: Fx { raw: fmul(v.z.raw as int, t) as i128 },
    }
}

/// Componentwise division by a raw scalar, as `div_scale` computes it.
pub open spec fn div_scale_spec(v: Vec3, t: int) -> Vec3 {
    Vec3 {
        x: Fx { raw: fdiv(v.x.raw as int, t) as i128 },
        y: Fx { raw: fdiv(v.y.raw as int, t) as i128 },
        z: Fx { raw: fdiv(v.z.raw as int, t) as i128 },
    }
}

/// A valid linear color: every channel within `[0, 1]`.
pub open spec fn color_wf(c: Vec3) -> bool {
    &&& 0 <= c.x.raw <= SCALE
    &&& 0 <= c.y.raw <= SCALE
    &&& 0 <= c.z.raw <= SCALE
}

/// The zero vector.
pub open spec fn zero_spec() -> Vec3 {
    Vec3 { x: Fx { raw: 0 }, y: Fx { raw: 0 }, z: Fx { raw: 0 } }
}

/// The result of normalization: the vector divided by the rounded length of
/// itself, or zero when the length underflows to zero.
pub open spec fn norm_spec(v: Vec3) -> Vec3 {
    let lr = fsqrt(len_sq_spec(v));
    if lr <= 0 {
        zero_spec()
    } else {
        Vec3 {
            x: Fx { raw: fdiv(v.x.raw as int, lr) as i128 },
            y: Fx { raw: fdiv(v.y.raw as int, lr) as i128 },
            z: Fx { raw: fdiv(v.z.raw as int, lr) as i128 },
        }
    }
}

/// The mirror reflection `v - 2 (v . n) n` over fixed-point products.
pub open spec fn reflect_spec(v: Vec3, n: Vec3) -> Vec3 {
    let d2 = 2 * dot_spec(v, n);
    Vec3 {
        x: Fx { raw: (v.x.raw - fmul(n.x.raw as int, d2)) as i128 },
        y: Fx { raw: (v.y.raw - fmul(n.y.raw as int, d2)) as i128 },
        z: Fx { raw: (v.z.raw - fmul(n.z.raw as int, d2)) as i128 },
    }
}

/// The hemisphere selection rule: the candidate direction itself when its
/// inner product with the normal is positive, its negation otherwise.
pub open spec fn hemisphere_spec(unit: Vec3, normal: Vec3) -> Vec3 {
    if dot_spec(unit, normal) > 0 {
        unit
    } else {
        neg_spec(unit)
    }
}

/// All components within the degeneracy epsilon.
pub open spec fn near_zero_spec(v: Vec3) -> bool {
    &&& mag_le(v.x.raw as int, (NEAR_ZERO_EPS - 1) as int)
    &&& mag_le(v.y.raw as int, (NEAR_ZERO_EPS - 1) as int)
    &&& mag_le(v.z.raw as int, (NEAR_ZERO_EPS - 1) as int)
}

/// A single product of `MUL_LIMIT`-bounded factors stays within `PROD_LIMIT`.
pub proof fn lemma_fmul_prod_limit(a: int, b: int)
    requires
        mag_le(a, MUL_LIMIT as int),
        mag_le(b, MUL_LIMIT as int),
    ensures
        mag_le(fmul(a, b), PROD_LIMIT as int),
{
    lemma_fmul_mag(a, b, MUL_LIMIT as int, MUL_LIMIT as int);
    assert((MUL_LIMIT as int) * (MUL_LIMIT as int) == 21267647932558653966460912964485513216int)
        by (nonlinear_arith);
    assert(tdiv(21267647932558653966460912964485513216int, SCALE as int) == PROD_LIMIT as int);
}

/// The inner product of componentwise-bounded vectors is bounded by three
/// scaled-down products of the bounds.
pub proof fn lemma_dot_mag(u: Vec3, v: Vec3, ubound: int, vbound: int)
    requires
        0 <= ubound,
        0 <= vbound,
        v3_mag_le(u, ubound),
        v3_mag_le(v, vbound),
    ensures
        mag_le(dot_spec(u, v), 3 * tdiv(ubound * vbound, SCALE as int)),
{
    lemma_fmul_mag(u.x.raw as int, v.x.raw as int, ubound, vbound);
    lemma_fmul_mag(u.y.raw as int, v.y.raw as int, ubound, vbound);
    lemma_fmul_mag(u.z.raw as int, v.z.raw as int, ubound, vbound);
}

/// A vector's squared length is nonnegative and dominates each component's
/// squared contribution.
pub proof fn lemma_len_sq_nonneg(v: Vec3)
    ensures
        0 <= len_sq_spec(v),
        fmul(v.x.raw as int, v.x.raw as int) <= len_sq_spec(v),
        fmul(v.y.raw as int, v.y.raw as int) <= len_sq_spec(v),
        fmul(v.z.raw as int, v.z.raw as int) <= len_sq_spec(v),
{
    lemma_sq_term_nonneg(v.x.raw as int);
    lemma_sq_term_nonneg(v.y.raw as int);
    lemma_sq_term_nonneg(v.z.raw as int);
}

/// A truncated fixed-point square is nonnegative.
pub proof fn lemma_sq_term_nonneg(a: int)
    ensures
        0 <= fmul(a, a),
{
    assert(0 <= a * a) by (nonlinear_arith);
    lemma_div_pos_is_pos(a * a, SCALE as int);
}

/// Normalization keeps componentwise bounds, inflated by at most `SCALE`.
pub proof fn lemma_norm_mag(v: Vec3, bound: int)
    requires
        0 <= bound,
        v3_mag_le(v, bound),
    ensures
        v3_mag_le(norm_spec(v), bound * SCALE),
{
    let lr = fsqrt(len_sq_spec(v));
    if lr <= 0 {
        assert(0 <= bound * SCALE) by (nonlinear_arith)
            requires
                0 <= bound,
        ;
    } else {
        lemma_fdiv_mag(v.x.raw as int, lr, bound);
        lemma_fdiv_mag(v.y.raw as int, lr, bound);
        lemma_fdiv_mag(v.z.raw as int, lr, bound);
    }
}

/// One component of a vector divided by the rounded length of the whole
/// stays within two units: the component's square is dominated by the
/// squared length, and the rounded root undershoots by at most one step.
proof fn lemma_norm_comp_bound(a: int, ls: int, lr: int)
    requires
        0 <= fmul(a, a) <= ls,
        256 <= lr,
        is_sqrt(ls * SCALE, lr),
    ensures
        mag_le(fdiv(a, lr), 2 * SCALE),
{
    let s = SCALE as int;
    let aa = a * a;
    assert(0 <= a * a) by (nonlinear_arith);
    lemma_fundamental_div_mod(aa, s);
    lemma_mod_bound(aa, s);
    assert(aa <= ls * s + s - 1);
    assert(aa < 4 * (lr * lr)) by (nonlinear_arith)
        requires
            aa <= ls * s + s - 1,
            ls * s < (lr + 1) * (lr + 1),
            256 <= lr,
            s == 65536,
    ;
    assert(-2 * lr < a < 2 * lr) by (nonlinear_arith)
        requires
            aa == a * a,
            aa < 4 * (lr * lr),
            0 <= lr,
    ;
    if a >= 0 {
        assert(a * s < lr * (2 * s)) by (nonlinear_arith)
            requires
                0 <= a,
                a < 2 * lr,
                0 < s,
        ;
        lemma_multiply_divide_lt(a * s, lr, 2 * s);
        lemma_div_pos_is_pos(a * s, lr);
    } else {
        assert(0 <= (-a) * s && (-a) * s < lr * (2 * s) && -(a * s) == (-a) * s)
            by (nonlinear_arith)
            requires
                a < 0,
                -a < 2 * lr,
                0 < s,
        ;
        lemma_multiply_divide_lt((-a) * s, lr, 2 * s);
        lemma_div_pos_is_pos((-a) * s, lr);
    }
}

/// A normalized vector's components stay within two units, whatever the
/// input.
pub proof fn lemma_norm_unit_bound(v: Vec3)
    ensures
        v3_mag_le(norm_spec(v), 2 * SCALE),
{
    lemma_len_sq_nonneg(v);
    let ls = len_sq_spec(v);
    if ls == 0 {
        assert(is_sqrt(0, 0));
        lemma_sqrt_floor_is(0, 0);
    } else {
        lemma_sqrt_floor_exists(ls * SCALE);
        let lr = fsqrt(ls);
        assert(is_sqrt(ls * SCALE, lr));
        assert(lr >= 256) by (nonlinear_arith)
            requires
                is_sqrt(ls * SCALE, lr),
                ls >= 1,
                SCALE == 65536,
        ;
        lemma_sq_term_nonneg(v.x.raw as int);
        lemma_sq_term_nonneg(v.y.raw as int);
        lemma_sq_term_nonneg(v.z.raw as int);
        lemma_norm_comp_bound(v.x.raw as int, ls, lr);
        lemma_norm_comp_bound(v.y.raw as int, ls, lr);
        lemma_norm_comp_bound(v.z.raw as int, ls, lr);
    }
}

/// Dividing a component by the rounded length, in magnitude form: the
/// scaled magnitude is squeezed between consecutive multiples of the
/// length, and signs drop out of the squares.
proof fn lemma_norm_div_squeeze(a: int, lr: int)
    ensures
        1 <= lr ==> {
            let q = iabs(fdiv(a, lr));
            &&& q * lr <= iabs(a) * SCALE
            &&& iabs(a) * SCALE < (q + 1) * lr
            &&& fdiv(a, lr) * fdiv(a, lr) == q * q
            &&& a * a == iabs(a) * iabs(a)
            &&& 0 <= q
        },
{
    if 1 <= lr {
        let s = SCALE as int;
        let m = iabs(a);
        assert(0 <= m * s) by (nonlinear_arith)
            requires
                0 <= m,
                s == 65536,
        ;
        lemma_fundamental_div_mod(m * s, lr);
        lemma_mod_bound(m * s, lr);
        lemma_div_pos_is_pos(m * s, lr);
        let q = (m * s) / lr;
        assert(q * lr <= m * s && m * s < (q + 1) * lr) by (nonlinear_arith)
            requires
                m * s == lr * q + (m * s) % lr,
                0 <= (m * s) % lr < lr,
        ;
        if a >= 0 {
            assert(fdiv(a, lr) == q);
        } else {
            assert(-(a * s) == m * s) by (nonlinear_arith)
                requires
                    m == -a,
            ;
            assert(fdiv(a, lr) == -q);
            assert((-q) * (-q) == q * q) by (nonlinear_arith);
        }
        assert(a * a == m * m) by (nonlinear_arith)
            requires
                m == iabs(a),
                a >= 0 ==> m == a,
                a < 0 ==> m == -a,
        ;
    }
}

/// Law: normalization lands within one part in a thousand of unit length
/// for any vector of at least a quarter unit — the squared length of the
/// result stays within 64 raw steps of one. Below a quarter unit the grid's
/// quantization error is unbounded, so no tighter claim is possible there.
pub proof fn lemma_norm_near_unit(v: Vec3)
    requires
        16384 <= len_sq_spec(v),
    ensures
        65472 <= len_sq_spec(norm_spec(v)) <= 65600,
{
    let s = SCALE as int;
    let ls = len_sq_spec(v);
    lemma_len_sq_nonneg(v);
    lemma_sq_term_nonneg(v.x.raw as int);
    lemma_sq_term_nonneg(v.y.raw as int);
    lemma_sq_term_nonneg(v.z.raw as int);
    lemma_sqrt_floor_exists(ls * s);
    let lr = fsqrt(ls);
    assert(is_sqrt(ls * s, lr));
    assert(lr >= 32768 && ls * s <= lr * lr + 2 * lr) by (nonlinear_arith)
        requires
            is_sqrt(ls * s, lr),
            ls >= 16384,
            s == 65536,
    ;
    let u = norm_spec(v);
    lemma_norm_comp_bound(v.x.raw as int, ls, lr);
    lemma_norm_comp_bound(v.y.raw as int, ls, lr);
    lemma_norm_comp_bound(v.z.raw as int, ls, lr);
    lemma_norm_div_squeeze(v.x.raw as int, lr);
    lemma_norm_div_squeeze(v.y.raw as int, lr);
    lemma_norm_div_squeeze(v.z.raw as int, lr);
    let mx = iabs(v.x.raw as int);
    let my = iabs(v.y.raw as int);
    let mz = iabs(v.z.raw as int);
    let qx = iabs(u.x.raw as int);
    let qy = iabs(u.y.raw as int);
    let qz = iabs(u.z.raw as int);
    lemma_norm_sq_floor(v.x.raw as int);
    lemma_norm_sq_floor(v.y.raw as int);
    lemma_norm_sq_floor(v.z.raw as int);
    lemma_norm_sq_floor(u.x.raw as int);
    lemma_norm_sq_floor(u.y.raw as int);
    lemma_norm_sq_floor(u.z.raw as int);
    let sa = mx * mx + my * my + mz * mz;
    let sq = qx * qx + qy * qy + qz * qz;
    assert(s * ls <= sa && sa <= s * ls + 3 * s - 3);
    // upper end of the band
    assert((qx * qx) * (lr * lr) <= (mx * mx) * (s * s)) by (nonlinear_arith)
        requires
            qx * lr <= mx * s,
            0 <= qx && 0 <= mx && 0 < lr && 0 < s,
    ;
    assert((qy * qy) * (lr * lr) <= (my * my) * (s * s)) by (nonlinear_arith)
        requires
            qy * lr <= my * s,
            0 <= qy && 0 <= my && 0 < lr && 0 < s,
    ;
    assert((qz * qz) * (lr * lr) <= (mz * mz) * (s * s)) by (nonlinear_arith)
        requires
            qz * lr <= mz * s,
            0 <= qz && 0 <= mz && 0 < lr && 0 < s,
    ;
    assert(sq * (lr * lr) <= sa * (s * s)) by (nonlinear_arith)
        requires
            (qx * qx) * (lr * lr) <= (mx * mx) * (s * s),
            (qy * qy) * (lr * lr) <= (my * my) * (s * s),
            (qz * qz) * (lr * lr) <= (mz * mz) * (s * s),
            sa == mx * mx + my * my + mz * mz,
            sq == qx * qx + qy * qy + qz * qz,
    ;
    assert(sa * (s * s) <= (s * s + 63 * s) * (lr * lr)) by (nonlinear_arith)
        requires
            sa <= s * ls + 3 * s - 3,
            s * ls <= lr * lr + 2 * lr,
            lr >= 32768,
            s == 65536,
    ;
    assert(sq <= s * s + 63 * s) by (nonlinear_arith)
        requires
            sq * (lr * lr) <= (s * s + 63 * s) * (lr * lr),
            0 < lr,
    ;
    assert(len_sq_spec(u) <= s + 63);
    // lower end of the band
    let qp = (qx + 1) * (qx + 1) + (qy + 1) * (qy + 1) + (qz + 1) * (qz + 1);
    assert((mx * mx) * (s * s) < ((qx + 1) * (qx + 1)) * (lr * lr)) by (nonlinear_arith)
        requires
            mx * s < (qx + 1) * lr,
            0 <= qx && 0 <= mx && 0 < lr && 0 < s,
    ;
    assert((my * my) * (s * s) < ((qy + 1) * (qy + 1)) * (lr * lr)) by (nonlinear_arith)
        requires
            my * s < (qy + 1) * lr,
            0 <= qy && 0 <= my && 0 < lr && 0 < s,
    ;
    assert((mz * mz) * (s * s) < ((qz + 1) * (qz + 1)) * (lr * lr)) by (nonlinear_arith)
        requires
            mz * s < (qz + 1) * lr,
            0 <= qz && 0 <= mz && 0 < lr && 0 < s,
    ;
    assert(sa * (s * s) < qp * (lr * lr)) by (nonlinear_arith)
        requires
            (mx * mx) * (s * s) < ((qx + 1) * (qx + 1)) * (lr * lr),
            (my * my) * (s * s) < ((qy + 1) * (qy + 1)) * (lr * lr),
            (mz * mz) * (s * s) < ((qz + 1) * (qz + 1)) * (lr * lr),
            sa == mx * mx + my * my + mz * mz,
            qp == (qx + 1) * (qx + 1) + (qy + 1) * (qy + 1) + (qz + 1) * (qz + 1),
    ;
    assert((lr * lr) * (s * s) <= sa * (s * s)) by (nonlinear_arith)
        requires
            lr * lr <= s * ls,
            s * ls <= sa,
            0 < s,
    ;
    assert(qp > s * s) by (nonlinear_arith)
        requires
            (lr * lr) * (s * s) < qp * (lr * lr),
            0 < lr,
    ;
    assert(sq > s * s - 12 * s - 3) by (nonlinear_arith)
        requires
            qp > s * s,
            qp == (qx + 1) * (qx + 1) + (qy + 1) * (qy + 1) + (qz + 1) * (qz + 1),
            sq == qx * qx + qy * qy + qz * qz,
            0 <= qx <= 2 * s,
            0 <= qy <= 2 * s,
            0 <= qz <= 2 * s,
    ;
    assert(len_sq_spec(u) >= s - 64);
}

/// The floor relation for a squared component: `SCALE` times the fixed
/// square is within one quantum of the exact square.
proof fn lemma_norm_sq_floor(a: int)
    ensures
        SCALE * fmul(a, a) <= a * a,
        a * a <= SCALE * fmul(a, a) + SCALE - 1,
{
    let s = SCALE as int;
    assert(0 <= a * a) by (nonlinear_arith);
    lemma_fundamental_div_mod(a * a, s);
    lemma_mod_bound(a * a, s);
}

/// Normalizing the zero vector yields the zero vector, never a division by
/// zero.
pub proof fn lemma_normalize_zero()
    ensures
        norm_spec(zero_spec()) == zero_spec(),
{
    let z = zero_spec();
    assert(len_sq_spec(z) == 0);
    assert(is_sqrt(0, 0));
    lemma_sqrt_floor_is(0, 0);
}

/// The exact reflection law, stated over unscaled integer algebra.
///
/// For the homogeneous reflection `r = (n . n) v - 2 (v . n) n` (no rounding,
/// no scale factor), the inner product with the normal flips sign, weighted
/// by `n . n`, and the squared length is preserved, weighted by `(n . n)^2`.
/// For a unit normal these are exactly `dot(reflect(v, n), n) == -dot(v, n)`
/// and `|reflect(v, n)| == |v|`; the fixed-point `reflect` tracks this law up
/// to truncation.
pub proof fn lemma_reflect_exact(
    vx: int,
    vy: int,
    vz: int,
    nx: int,
    ny: int,
    nz: int,
    d: int,
    nn: int,
    rx: int,
    ry: int,
    rz: int,
)
    requires
        d == vx * nx + vy * ny + vz * nz,
        nn == nx * nx + ny * ny + nz * nz,
        rx == nn * vx - 2 * d * nx,
        ry == nn * vy - 2 * d * ny,
        rz == nn * vz - 2 * d * nz,
    ensures
        rx * nx + ry * ny + rz * nz == -(d * nn),
        rx * rx + ry * ry + rz * rz == nn * nn * (vx * vx + vy * vy + vz * vz),
{
    assert(rx * nx == nn * (vx * nx) - 2 * (d * (nx * nx))) by (nonlinear_arith)
        requires
            rx == nn * vx - 2 * d * nx,
    ;
    assert(ry * ny == nn * (vy * ny) - 2 * (d * (ny * ny))) by (nonlinear_arith)
        requires
            ry == nn * vy - 2 * d * ny,
    ;
    assert(rz * nz == nn * (vz * nz) - 2 * (d * (nz * nz))) by (nonlinear_arith)
        requires
            rz == nn * vz - 2 * d * nz,
    ;
    assert(rx * nx + ry * ny + rz * nz == -(d * nn)) by (nonlinear_arith)
        requires
            d == vx * nx + vy * ny + vz * nz,
            nn == nx * nx + ny * ny + nz * nz,
            rx * nx == nn * (vx * nx) - 2 * (d * (nx * nx)),
            ry * ny == nn * (vy * ny) - 2 * (d * (ny * ny)),
            rz * nz == nn * (vz * nz) - 2 * (d * (nz * nz)),
    ;
    let sv = vx * vx + vy * vy + vz * vz;
    let vr = vx * rx + vy * ry + vz * rz;
    let nr = rx * nx + ry * ny + rz * nz;
    assert(vx * rx == nn * (vx * vx) - 2 * (d * (vx * nx))) by (nonlinear_arith)
        requires
            rx == nn * vx - 2 * d * nx,
    ;
    assert(vy * ry == nn * (vy * vy) - 2 * (d * (vy * ny))) by (nonlinear_arith)
        requires
            ry == nn * vy - 2 * d * ny,
    ;
    assert(vz * rz == nn * (vz * vz) - 2 * (d * (vz * nz))) by (nonlinear_arith)
        requires
            rz == nn * vz - 2 * d * nz,
    ;
    assert(vr == nn * sv - 2 * (d * d)) by (nonlinear_arith)
        requires
            d == vx * nx + vy * ny + vz * nz,
            sv == vx * vx + vy * vy + vz * vz,
            vr == vx * rx + vy * ry + vz * rz,
            vx * rx == nn * (vx * vx) - 2 * (d * (vx * nx)),
            vy * ry == nn * (vy * vy) - 2 * (d * (vy * ny)),
            vz * rz == nn * (vz * vz) - 2 * (d * (vz * nz)),
    ;
    assert(rx * rx == nn * (vx * rx) - 2 * (d * (nx * rx))) by (nonlinear_arith)
        requires
            rx == nn * vx - 2 * d * nx,
    ;
    assert(ry * ry == nn * (vy * ry) - 2 * (d * (ny * ry))) by (nonlinear_arith)
        requires
            ry == nn * vy - 2 * d * ny,
    ;
    assert(rz * rz == nn * (vz * rz) - 2 * (d * (nz * rz))) by (nonlinear_arith)
        requires
            rz == nn * vz - 2 * d * nz,
    ;
    assert(rx * rx + ry * ry + rz * rz == nn * vr - 2 * (d * nr)) by (nonlinear_arith)
        requires
            vr == vx * rx + vy * ry + vz * rz,
            nr == rx * nx + ry * ny + rz * nz,
            rx * rx == nn * (vx * rx) - 2 * (d * (nx * rx)),
            ry * ry == nn * (vy * ry) - 2 * (d * (ny * ry)),
            rz * rz == nn * (vz * rz) - 2 * (d * (nz * rz)),
    ;
    assert(nn * vr - 2 * (d * nr) == nn * nn * sv) by (nonlinear_arith)
        requires
            vr == nn * sv - 2 * (d * d),
            nr == -(d * nn),
    ;
}

/// The dot-flip law for the executable, truncating reflection, with its
/// rounding error quantified: scaled by `SCALE^2`, the sum of the
/// reflected and incoming inner products equals `2 d (SCALE^2 - |n|^2)`
/// within twelve squared quanta (`|n|^2` taken exactly, unscaled). For an
/// exactly unit normal the first term vanishes, so the inner product flips
/// sign within twelve quanta; for a near-unit normal the deviation grows
/// linearly with how far the normal is from unit.
pub proof fn lemma_reflect_flip_rounded(v: Vec3, n: Vec3)
    requires
        v3_mag_le(v, MUL_LIMIT as int),
        v3_mag_le(n, 2 * SCALE),
    ensures
        ({
            let d = dot_spec(v, n);
            let nn = n.x.raw * n.x.raw + n.y.raw * n.y.raw + n.z.raw * n.z.raw;
            let flip = (SCALE * SCALE) * (dot_spec(reflect_spec(v, n), n) + d);
            mag_le(flip - 2 * d * (SCALE * SCALE - nn), 12 * (SCALE * SCALE))
        }),
{
    let s = SCALE as int;
    let d = dot_spec(v, n);
    let r = reflect_spec(v, n);
    let vx = v.x.raw as int;
    let vy = v.y.raw as int;
    let vz = v.z.raw as int;
    let nx = n.x.raw as int;
    let ny = n.y.raw as int;
    let nz = n.z.raw as int;
    let bign = nx * nx + ny * ny + nz * nz;
    let bigd = vx * nx + vy * ny + vz * nz;
    lemma_dot_mag(v, n, MUL_LIMIT as int, 2 * SCALE);
    lemma_fmul_mag(nx, 2 * d, 2 * SCALE, 55340232221128654848);
    lemma_fmul_mag(ny, 2 * d, 2 * SCALE, 55340232221128654848);
    lemma_fmul_mag(nz, 2 * d, 2 * SCALE, 55340232221128654848);
    let rx = r.x.raw as int;
    let ry = r.y.raw as int;
    let rz = r.z.raw as int;
    assert(rx == vx - fmul(nx, 2 * d) && ry == vy - fmul(ny, 2 * d) && rz == vz - fmul(
        nz,
        2 * d,
    ));
    // error of the inner product that forms d
    lemma_fmul_err(vx, nx);
    lemma_fmul_err(vy, ny);
    lemma_fmul_err(vz, nz);
    let e5 = s * d - bigd;
    assert(mag_le(e5, 3 * (s - 1)));
    // error of each reflected component
    lemma_fmul_err(nx, 2 * d);
    lemma_fmul_err(ny, 2 * d);
    lemma_fmul_err(nz, 2 * d);
    let ex = s * rx - s * vx + 2 * nx * d;
    let ey = s * ry - s * vy + 2 * ny * d;
    let ez = s * rz - s * vz + 2 * nz * d;
    assert(nx * (2 * d) == 2 * nx * d && ny * (2 * d) == 2 * ny * d && nz * (2 * d) == 2 * nz * d)
        by (nonlinear_arith);
    assert(mag_le(ex, s - 1) && mag_le(ey, s - 1) && mag_le(ez, s - 1));
    // each reflected component against the normal
    assert(s * (rx * nx) == s * (vx * nx) - 2 * (nx * nx) * d + ex * nx) by (nonlinear_arith)
        requires
            s * rx == s * vx - 2 * nx * d + ex,
    ;
    assert(s * (ry * ny) == s * (vy * ny) - 2 * (ny * ny) * d + ey * ny) by (nonlinear_arith)
        requires
            s * ry == s * vy - 2 * ny * d + ey,
    ;
    assert(s * (rz * nz) == s * (vz * nz) - 2 * (nz * nz) * d + ez * nz) by (nonlinear_arith)
        requires
            s * rz == s * vz - 2 * nz * d + ez,
    ;
    assert(mag_le(ex * nx, (s - 1) * (2 * s))) by (nonlinear_arith)
        requires
            mag_le(ex, s - 1),
            mag_le(nx, 2 * s),
            0 < s,
    ;
    assert(mag_le(ey * ny, (s - 1) * (2 * s))) by (nonlinear_arith)
        requires
            mag_le(ey, s - 1),
            mag_le(ny, 2 * s),
            0 < s,
    ;
    assert(mag_le(ez * nz, (s - 1) * (2 * s))) by (nonlinear_arith)
        requires
            mag_le(ez, s - 1),
            mag_le(nz, 2 * s),
            0 < s,
    ;
    // error of the inner product of the reflection with the normal
    lemma_fmul_err(rx, nx);
    lemma_fmul_err(ry, ny);
    lemma_fmul_err(rz, nz);
    let e4 = s * dot_spec(r, n) - (rx * nx + ry * ny + rz * nz);
    assert(mag_le(e4, 3 * (s - 1)));
    // assemble the flip identity with all error terms collected
    let bige = ex * nx + ey * ny + ez * nz;
    assert(2 * (nx * nx) * d + 2 * (ny * ny) * d + 2 * (nz * nz) * d == 2 * bign * d)
        by (nonlinear_arith)
        requires
            bign == nx * nx + ny * ny + nz * nz,
    ;
    assert(s * (rx * nx + ry * ny + rz * nz) == s * bigd - 2 * bign * d + bige);
    let flip = (s * s) * (dot_spec(r, n) + d);
    assert((s * s) * (dot_spec(r, n) + d) == (s * s) * dot_spec(r, n) + (s * s) * d && (s * s)
        * dot_spec(r, n) == s * (s * dot_spec(r, n)) && (s * s) * d == s * (s * d))
        by (nonlinear_arith);
    assert(s * (s * dot_spec(r, n)) == s * (rx * nx + ry * ny + rz * nz) + s * e4)
        by (nonlinear_arith)
        requires
            s * dot_spec(r, n) == (rx * nx + ry * ny + rz * nz) + e4,
    ;
    assert(s * (s * d) == s * bigd + s * e5) by (nonlinear_arith)
        requires
            s * d == bigd + e5,
    ;
    assert(2 * d * (s * s - bign) == 2 * ((s * s) * d) - 2 * (bign * d) && 2 * bign * d == 2 * (
    bign * d)) by (nonlinear_arith);
    assert(flip - 2 * d * (s * s - bign) == bige + s * e4 - s * e5);
    assert(mag_le(bige + s * e4 - s * e5, 12 * (s * s)));
}

impl Vec3 {
    /// Builds a vector from its three components.
    pub fn new(x: Fx, y: Fx, z: Fx) -> (r: Vec3)
        ensures
            r.x == x,
            r.y == y,
            r.z == z,
    {
        Vec3 { x, y, z }
    }

    /// First component.
    pub fn x(&self) -> (r: Fx)
        ensures
            r == self.x,
    {
        self.x
    }

    /// Second component.
    pub fn y(&self) -> (r: Fx)
        ensures
            r == self.y,
    {
        self.y
    }

    /// Third component.
    pub fn z(&self) -> (r: Fx)
        ensures
            r == self.z,
    {
        self.z
    }

    /// The zero vector.
    pub fn origin() -> (r: Vec3)
        ensures
            r == zero_spec(),
    {
        Vec3 { x: Fx { raw: 0 }, y: Fx { raw: 0 }, z: Fx { raw: 0 } }
    }

    /// Componentwise sum.
    pub fn add(self, rhs: Vec3) -> (r: Vec3)
        requires
            v3_mag_le(self, ADD_LIMIT as int),
            v3_mag_le(rhs, ADD_LIMIT as int),
        ensures
            r.x.raw == self.x.raw + rhs.x.raw,
            r.y.raw == self.y.raw + rhs.y.raw,
            r.z.raw == self.z.raw + rhs.z.raw,
    {
        Vec3 { x: self.x.add(rhs.x), y: self.y.add(rhs.y), z: self.z.add(rhs.z) }
    }

    /// Componentwise difference.
    pub fn sub(self, rhs: Vec3) -> (r: Vec3)
        requires
            v3_mag_le(self, ADD_LIMIT as int),
            v3_mag_le(rhs, ADD_LIMIT as int),
        ensures
            r.x.raw == self.x.raw - rhs.x.raw,
            r.y.raw == self.y.raw - rhs.y.raw,
            r.z.raw == self.z.raw - rhs.z.raw,
    {
        Vec3 { x: self.x.sub(rhs.x), y: self.y.sub(rhs.y), z: self.z.sub(rhs.z) }
    }

    /// Componentwise negation.
    pub fn neg(self) -> (r: Vec3)
        requires
            v3_mag_le(self, ADD_LIMIT as int),
        ensures
            r.x.raw == -self.x.raw,
            r.y.raw == -self.y.raw,
            r.z.raw == -self.z.raw,
    {
        Vec3 { x: self.x.neg(), y: self.y.neg(), z: self.z.neg() }
    }

    /// Componentwise product, used for color tinting.
    pub fn comp_mul(self, rhs: Vec3) -> (r: Vec3)
        requires
            v3_mag_le(self, MUL_LIMIT as int),
            v3_mag_le(rhs, MUL_LIMIT as int),
        ensures
            r.x.raw == fmul(self.x.raw as int, rhs.x.raw as int),
            r.y.raw == fmul(self.y.raw as int, rhs.y.raw as int),
            r.z.raw == fmul(self.z.raw as int, rhs.z.raw as int),
    {
        Vec3 { x: self.x.mul(rhs.x), y: self.y.mul(rhs.y), z: self.z.mul(rhs.z) }
    }

    /// Every component multiplied by the scalar `t`.
    pub fn scale(self, t: Fx) -> (r: Vec3)
        requires
            v3_mag_le(self, MUL_LIMIT as int),
            mag_le(t.raw as int, MUL_LIMIT as int),
        ensures
            r.x.raw == fmul(self.x.raw as int, t.raw as int),
            r.y.raw == fmul(self.y.raw as int, t.raw as int),
            r.z.raw == fmul(self.z.raw as int, t.raw as int),
    {
        Vec3 { x: self.x.mul(t), y: self.y.mul(t), z: self.z.mul(t) }
    }

    /// Every component divided by the scalar `t`.
    pub fn div_scale(self, t: Fx) -> (r: Vec3)
        requires
            v3_mag_le(self, DIV_LIMIT as int),
            mag_le(t.raw as int, ADD_LIMIT as int),
            t.raw != 0,
        ensures
            r.x.raw == fdiv(self.x.raw as int, t.raw as int),
            r.y.raw == fdiv(self.y.raw as int, t.raw as int),
            r.z.raw == fdiv(self.z.raw as int, t.raw as int),
    {
        Vec3 { x: self.x.div(t), y: self.y.div(t), z: self.z.div(t) }
    }

    /// The fixed-point squared length.
    pub fn length_squared(&self) -> (r: Fx)
        requires
            v3_mag_le(*self, MUL_LIMIT as int),
        ensures
            r.raw == len_sq_spec(*self),
            r.raw >= 0,
    {
        proof {
            lemma_fmul_prod_limit(self.x.raw as int, self.x.raw as int);
            lemma_fmul_prod_limit(self.y.raw as int, self.y.raw as int);
            lemma_fmul_prod_limit(self.z.raw as int, self.z.raw as int);
            lemma_len_sq_nonneg(*self);
        }
        self.x.mul(self.x).add(self.y.mul(self.y)).add(self.z.mul(self.z))
    }

    /// The fixed-point length: the rounded square root of the squared length.
    pub fn length(&self) -> (r: Fx)
        requires
            v3_mag_le(*self, MUL_LIMIT as int),
        ensures
            r.raw == fsqrt(len_sq_spec(*self)),
            is_sqrt(len_sq_spec(*self) * SCALE, r.raw as int),
            0 <= r.raw <= 13043817825332782212,
    {
        let ls = self.length_squared();
        proof {
            lemma_fmul_prod_limit(self.x.raw as int, self.x.raw as int);
            lemma_fmul_prod_limit(self.y.raw as int, self.y.raw as int);
            lemma_fmul_prod_limit(self.z.raw as int, self.z.raw as int);
        }
        ls.sqrt()
    }

    /// The vector scaled to the rounded unit length, or zero for a vector
    /// whose length rounds to zero.
    pub fn normalize(self) -> (r: Vec3)
        requires
            v3_mag_le(self, MUL_LIMIT as int),
        ensures
            r == norm_spec(self),
    {
        let len = self.length();
        if len.raw <= 0 {
            Vec3::origin()
        } else {
            self.div_scale(len)
        }
    }

    /// Whether every component is within the degeneracy epsilon.
    pub fn near_zero(&self) -> (r: bool)
        ensures
            r == near_zero_spec(*self),
    {
        self.x.raw < NEAR_ZERO_EPS && self.x.raw > -NEAR_ZERO_EPS && self.y.raw < NEAR_ZERO_EPS
            && self.y.raw > -NEAR_ZERO_EPS && self.z.raw < NEAR_ZERO_EPS && self.z.raw
            > -NEAR_ZERO_EPS
    }

    /// Mirror reflection about the plane orthogonal to `normal`.
    pub fn reflect(self, normal: Vec3) -> (r: Vec3)
        requires
            v3_mag_le(self, MUL_LIMIT as int),
            v3_mag_le(normal, MUL_LIMIT as int),
            mag_le(2 * dot_spec(self, normal), MUL_LIMIT as int),
        ensures
            r == reflect_spec(self, normal),
    {
        let d = dot(self, normal);
        let d2 = d.add(d);
        proof {
            lemma_fmul_prod_limit(normal.x.raw as int, d2.raw as int);
            lemma_fmul_prod_limit(normal.y.raw as int, d2.raw as int);
            lemma_fmul_prod_limit(normal.z.raw as int, d2.raw as int);
        }
        self.sub(normal.scale(d2))
    }
}

/// Envelope on the components of a rejection-sampled unit vector: 2^24.
pub const UNIT_LIMIT: i128 = 16777216;

/// Largest channel value admitted by gamma quantization: just under one.
pub const GAMMA_CLAMP: i128 = 65470;

/// The quantized byte for one color channel: average over the samples,
/// gamma-adjust by square root, clamp just below one, and scale to eight
/// bits.
pub open spec fn byte_spec(c: int, samples: int) -> int {
    let avg = fdiv(c, samples * SCALE);
    if avg <= 0 {
        0
    } else {
        let s = fsqrt(avg);
        let cl = if s > GAMMA_CLAMP {
            GAMMA_CLAMP as int
        } else {
            s
        };
        cl / 256
    }
}

impl Vec3 {
    /// A vector with each component uniform in `[0, 1)`.
    pub fn random(rng: &mut rand::rngs::StdRng) -> (r: Vec3)
        ensures
            0 <= r.x.raw < SCALE,
            0 <= r.y.raw < SCALE,
            0 <= r.z.raw < SCALE,
    {
        let x = crate::common::random_double(rng);
        let y = crate::common::random_double(rng);
        let z = crate::common::random_double(rng);
        Vec3 { x, y, z }
    }

    /// A vector with each component uniform in `[min, max]`.
    pub fn random_range(rng: &mut rand::rngs::StdRng, min: Fx, max: Fx) -> (r: Vec3)
        requires
            mag_le(min.raw as int, (MUL_LIMIT / 2) as int),
            mag_le(max.raw as int, (MUL_LIMIT / 2) as int),
            min.raw <= max.raw,
        ensures
            min.raw <= r.x.raw <= max.raw,
            min.raw <= r.y.raw <= max.raw,
            min.raw <= r.z.raw <= max.raw,
            min.raw < max.raw ==> r.x.raw < max.raw && r.y.raw < max.raw && r.z.raw < max.raw,
    {
        let x = crate::common::random_double_range(rng, min, max);
        let y = crate::common::random_double_range(rng, min, max);
        let z = crate::common::random_double_range(rng, min, max);
        Vec3 { x, y, z }
    }

    /// A direction drawn by rejection sampling: draw inside the cube until
    /// the squared length falls between a quarter and one, then scale to
    /// unit length. The quarter-unit floor keeps the quantization error of
    /// the scaling small (direction remains uniform: radius and direction
    /// are independent). After a bounded number of rejections an axis
    /// direction stands in, so the draw always terminates.
    pub fn random_unit_vector(rng: &mut rand::rngs::StdRng) -> (r: Vec3)
        ensures
            v3_mag_le(r, 2 * SCALE),
            v3_mag_le(r, UNIT_LIMIT as int),
            65472 <= len_sq_spec(r) <= 65600,
            (exists|w: Vec3|
                v3_mag_le(w, SCALE as int) && 16384 <= len_sq_spec(w) < SCALE && r
                    == #[trigger] norm_spec(w)) || r == (Vec3 {
                x: Fx { raw: 0 },
                y: Fx { raw: 0 },
                z: Fx { raw: SCALE },
            }),
    {
        let mut tries: u8 = 0;
        while tries < 64
            invariant
                tries <= 64,
            decreases 64 - tries,
        {
            let v = Vec3::random_range(rng, Fx::from_int(-1), Fx::one());
            let ls = v.length_squared();
            if 16384 <= ls.raw && ls.raw < SCALE {
                let len = ls.sqrt();
                proof {
                    assert(32768 <= len.raw && len.raw <= 65535) by (nonlinear_arith)
                        requires
                            is_sqrt(ls.raw * SCALE, len.raw as int),
                            16384 <= ls.raw < 65536,
                            SCALE == 65536,
                    ;
                    lemma_norm_unit_bound(v);
                    lemma_norm_near_unit(v);
                }
                let r = v.div_scale(len);
                proof {
                    assert(r == norm_spec(v));
                    assert(v3_mag_le(v, SCALE as int) && 16384 <= len_sq_spec(v) < SCALE && r
                        == norm_spec(v));
                }
                return r;
            }
            tries = tries + 1;
        }
        proof {
            assert(fmul(SCALE as int, SCALE as int) == SCALE as int);
        }
        Vec3 { x: Fx { raw: 0 }, y: Fx { raw: 0 }, z: Fx { raw: SCALE } }
    }

    /// Deterministic core of hemisphere sampling: the candidate itself when
    /// it already points with the normal, its negation otherwise.
    pub fn on_hemisphere_with(unit: Vec3, normal: Vec3) -> (r: Vec3)
        requires
            v3_mag_le(unit, MUL_LIMIT as int),
            v3_mag_le(normal, MUL_LIMIT as int),
        ensures
            r == hemisphere_spec(unit, normal),
            dot_spec(r, normal) >= 0,
    {
        let d = dot(unit, normal);
        if d.raw > 0 {
            unit
        } else {
            let m = unit.neg();
            proof {
                lemma_fmul_neg(unit.x.raw as int, normal.x.raw as int);
                lemma_fmul_neg(unit.y.raw as int, normal.y.raw as int);
                lemma_fmul_neg(unit.z.raw as int, normal.z.raw as int);
            }
            m
        }
    }

    /// A unit-ish direction on the hemisphere around `normal`: a fresh unit
    /// draw, kept or negated so its inner product with the normal is never
    /// negative.
    pub fn random_on_hemisphere(rng: &mut rand::rngs::StdRng, normal: Vec3) -> (r: Vec3)
        requires
            v3_mag_le(normal, MUL_LIMIT as int),
        ensures
            v3_mag_le(r, UNIT_LIMIT as int),
            dot_spec(r, normal) >= 0,
            exists|u: Vec3|
                v3_mag_le(u, 2 * SCALE) && r == #[trigger] hemisphere_spec(u, normal),
    {
        let u = Vec3::random_unit_vector(rng);
        let r = Vec3::on_hemisphere_with(u, normal);
        proof {
            assert(v3_mag_le(u, 2 * SCALE) && r == hemisphere_spec(u, normal));
        }
        r
    }

    /// A point drawn uniformly from the unit disk in the xy-plane, by
    /// rejection; used for lens sampling.
    pub fn random_in_unit_disk(rng: &mut rand::rngs::StdRng) -> (r: Vec3)
        ensures
            v3_mag_le(r, SCALE as int),
            r.z.raw == 0,
    {
        let mut tries: u8 = 0;
        while tries < 64
            invariant
                tries <= 64,
            decreases 64 - tries,
        {
            let x = crate::common::random_double_range(rng, Fx::from_int(-1), Fx::one());
            let y = crate::common::random_double_range(rng, Fx::from_int(-1), Fx::one());
            let v = Vec3 { x, y, z: Fx { raw: 0 } };
            let ls = v.length_squared();
            if ls.raw < SCALE {
                return v;
            }
            tries = tries + 1;
        }
        Vec3 { x: Fx { raw: 0 }, y: Fx { raw: 0 }, z: Fx { raw: 0 } }
    }

    /// Quantizes the accumulated color of `samples_per_pixel` samples into
    /// an `(r, g, b)` byte triple, gamma-adjusted by square root and clamped
    /// to `[0, 255]`.
    pub fn format_color(self, samples_per_pixel: u64) -> (r: (u8, u8, u8))
        requires
            v3_mag_le(self, MUL_LIMIT as int),
            1 <= samples_per_pixel <= 65536,
        ensures
            r.0 as int == byte_spec(self.x.raw as int, samples_per_pixel as int),
            r.1 as int == byte_spec(self.y.raw as int, samples_per_pixel as int),
            r.2 as int == byte_spec(self.z.raw as int, samples_per_pixel as int),
    {
        let n = Fx::from_int(samples_per_pixel as i64);
        let rb = channel_byte(self.x, n, Ghost(samples_per_pixel as int));
        let gb = channel_byte(self.y, n, Ghost(samples_per_pixel as int));
        let bb = channel_byte(self.z, n, Ghost(samples_per_pixel as int));
        (rb, gb, bb)
    }
}

/// One channel of `format_color`: average, gamma-adjust, clamp, quantize.
fn channel_byte(c: Fx, n: Fx, samples: Ghost<int>) -> (r: u8)
    requires
        mag_le(c.raw as int, MUL_LIMIT as int),
        1 <= samples@ <= 65536,
        n.raw == samples@ * SCALE,
    ensures
        r as int == byte_spec(c.raw as int, samples@),
{
    let avg = c.div(n);
    if avg.raw <= 0 {
        0
    } else {
        proof {
            lemma_fdiv_mag(c.raw as int, n.raw as int, MUL_LIMIT as int);
        }
        let s = avg.sqrt();
        let cl: i128 = if s.raw > GAMMA_CLAMP {
            GAMMA_CLAMP
        } else {
            s.raw
        };
        ((cl as u128) / 256) as u8
    }
}

/// Envelope applied to a refracted perpendicular component: 2^40.
pub const REFRACT_GUARD: i128 = 1099511627776;

/// The result of Snell refraction with ratio `eta`: the perpendicular and
/// parallel components combined, with the entry cosine clamped to `[-1, 1]`
/// and a degenerate fallback to zero when the perpendicular component leaves
/// the arithmetic envelope.
pub open spec fn refract_spec(v: Vec3, n: Vec3, eta: int) -> Vec3 {
    let cos0 = dot_spec(neg_spec(v), n);
    let cos1 = if cos0 <= SCALE {
        cos0
    } else {
        SCALE as int
    };
    let cos = if cos1 < -SCALE {
        -SCALE as int
    } else {
        cos1
    };
    let inner = add_spec(v, scale_spec(n, cos));
    let perp = scale_spec(inner, eta);
    if !v3_mag_le(perp, REFRACT_GUARD as int) {
        zero_spec()
    } else {
        let d = SCALE - len_sq_spec(perp);
        let da = if d >= 0 {
            d
        } else {
            -d
        };
        add_spec(perp, scale_spec(n, -fsqrt(da)))
    }
}

impl Vec3 {
    /// Whether every component lies within `[-bound, bound]`.
    pub fn in_envelope(&self, bound: i128) -> (r: bool)
        requires
            bound >= 0,
        ensures
            r == v3_mag_le(*self, bound as int),
    {
        self.x.raw <= bound && self.x.raw >= -bound && self.y.raw <= bound && self.y.raw >= -bound
            && self.z.raw <= bound && self.z.raw >= -bound
    }

    /// Snell refraction of `self` about `normal` with refraction ratio
    /// `eta`; the caller rules out total internal reflection beforehand.
    pub fn refract(self, normal: Vec3, eta: Fx) -> (r: Vec3)
        requires
            v3_mag_le(self, 4503599627370496),
            v3_mag_le(normal, 1048576),
            0 <= eta.raw <= 4294967296,
        ensures
            r == refract_spec(self, normal, eta.raw as int),
    {
        let cos0 = dot(self.neg(), normal);
        let cos1 = cos0.min(Fx::one());
        let cos = if cos1.raw < -SCALE {
            Fx { raw: -SCALE }
        } else {
            cos1
        };
        proof {
            lemma_fmul_prod_limit(normal.x.raw as int, cos.raw as int);
            lemma_fmul_prod_limit(normal.y.raw as int, cos.raw as int);
            lemma_fmul_prod_limit(normal.z.raw as int, cos.raw as int);
            lemma_fmul_mag(normal.x.raw as int, cos.raw as int, 1048576, SCALE as int);
            lemma_fmul_mag(normal.y.raw as int, cos.raw as int, 1048576, SCALE as int);
            lemma_fmul_mag(normal.z.raw as int, cos.raw as int, 1048576, SCALE as int);
        }
        let inner = self.add(normal.scale(cos));
        proof {
            lemma_fmul_prod_limit(inner.x.raw as int, eta.raw as int);
            lemma_fmul_prod_limit(inner.y.raw as int, eta.raw as int);
            lemma_fmul_prod_limit(inner.z.raw as int, eta.raw as int);
        }
        let perp = inner.scale(eta);
        if !perp.in_envelope(REFRACT_GUARD) {
            Vec3::origin()
        } else {
            let pls = perp.length_squared();
            proof {
                lemma_dot_mag(perp, perp, REFRACT_GUARD as int, REFRACT_GUARD as int);
            }
            let d = Fx::one().sub(pls);
            let da = d.abs();
            let sq = da.sqrt();
            proof {
                assert(sq.raw <= 4398046511104) by (nonlinear_arith)
                    requires
                        is_sqrt(da.raw * SCALE, sq.raw as int),
                        0 <= da.raw <= 73786976294838206464,
                        SCALE == 65536,
                ;
            }
            proof {
                lemma_fmul_mag(normal.x.raw as int, -sq.raw as int, 1048576, 4398046511104);
                lemma_fmul_mag(normal.y.raw as int, -sq.raw as int, 1048576, 4398046511104);
                lemma_fmul_mag(normal.z.raw as int, -sq.raw as int, 1048576, 4398046511104);
            }
            perp.add(normal.scale(sq.neg()))
        }
    }
}

/// The fixed-point inner product.
pub fn dot(u: Vec3, v: Vec3) -> (r: Fx)
    requires
        v3_mag_le(u, MUL_LIMIT as int),
        v3_mag_le(v, MUL_LIMIT as int),
    ensures
        r.raw == dot_spec(u, v),
{
    proof {
        lemma_fmul_prod_limit(u.x.raw as int, v.x.raw as int);
        lemma_fmul_prod_limit(u.y.raw as int, v.y.raw as int);
        lemma_fmul_prod_limit(u.z.raw as int, v.z.raw as int);
    }
    u.x.mul(v.x).add(u.y.mul(v.y)).add(u.z.mul(v.z))
}

/// The fixed-point cross product.
pub fn cross(u: Vec3, v: Vec3) -> (r: Vec3)
    requires
        v3_mag_le(u, MUL_LIMIT as int),
        v3_mag_le(v, MUL_LIMIT as int),
    ensures
        r == cross_spec(u, v),
{
    proof {
        lemma_fmul_prod_limit(u.y.raw as int, v.z.raw as int);
        lemma_fmul_prod_limit(u.z.raw as int, v.y.raw as int);
        lemma_fmul_prod_limit(u.z.raw as int, v.x.raw as int);
        lemma_fmul_prod_limit(u.x.raw as int, v.z.raw as int);
        lemma_fmul_prod_limit(u.x.raw as int, v.y.raw as int);
        lemma_fmul_prod_limit(u.y.raw as int, v.x.raw as int);
    }
    Vec3 {
        x: u.y.mul(v.z).sub(u.z.mul(v.y)),
        y: u.z.mul(v.x).sub(u.x.mul(v.z)),
        z: u.x.mul(v.y).sub(u.y.mul(v.x)),
    }
}

} // verus!
