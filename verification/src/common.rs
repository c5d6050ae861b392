//! Shared utilities: the explicit random stream and scalar helpers.
//!
//! Every random draw comes from a caller-owned, explicitly seeded generator,
//! so a run is reproducible and parallel workers can hold independent
//! streams.

use vstd::prelude::*;
use crate::fx::{Fx, SCALE, MUL_LIMIT, mag_le, lemma_fmul_unit, lemma_fmul_unit_strict};
use crate::ray::POS_LIMIT;

verus! {

/// Declares rand's standard generator type so library signatures can carry
/// it; the value itself is opaque to verification.
#[verifier::external_type_specification]
#[verifier::external_body]
pub struct ExStdRng(rand::rngs::StdRng);

/// Relies on rand's `SeedableRng::seed_from_u64`: builds a `StdRng`
/// deterministically from the seed, so one seed reproduces one stream.
#[verifier::external_body]
pub fn rng_from_seed(seed: u64) -> rand::rngs::StdRng {
    <rand::rngs::StdRng as rand::SeedableRng>::seed_from_u64(seed)
}

/// Relies on rand's `RngExt::random` at `u16`: one uniform draw; nothing is
/// assumed of the value beyond the type's own range.
#[verifier::external_body]
pub fn random_bits(rng: &mut rand::rngs::StdRng) -> u16 {
    rand::RngExt::random::<u16>(rng)
}

/// A uniform fixed-point draw in `[0, 1)`: sixteen fresh fraction bits.
pub fn random_double(rng: &mut rand::rngs::StdRng) -> (r: Fx)
    ensures
        0 <= r.raw < SCALE,
{
    let bits: u16 = random_bits(rng);
    Fx { raw: bits as i128 }
}

/// A uniform fixed-point draw in `[min, max)`, or exactly `min` when the
/// ends coincide: the scaled fraction stays strictly below the width.
pub fn random_double_range(rng: &mut rand::rngs::StdRng, min: Fx, max: Fx) -> (r: Fx)
    requires
        mag_le(min.raw as int, (MUL_LIMIT / 2) as int),
        mag_le(max.raw as int, (MUL_LIMIT / 2) as int),
        min.raw <= max.raw,
    ensures
        min.raw <= r.raw <= max.raw,
        min.raw < max.raw ==> r.raw < max.raw,
        min.raw == max.raw ==> r.raw == min.raw,
{
    let u = random_double(rng);
    let delta = max.sub(min);
    let off = delta.mul(u);
    proof {
        lemma_fmul_unit(delta.raw as int, u.raw as int);
        if delta.raw >= 1 {
            lemma_fmul_unit_strict(delta.raw as int, u.raw as int);
        }
    }
    min.add(off)
}

/// Clamps `x` into `[lo, hi]`.
pub fn clamp(x: Fx, lo: Fx, hi: Fx) -> (r: Fx)
    requires
        lo.raw <= hi.raw,
    ensures
        r.raw == if x.raw < lo.raw {
            lo.raw as int
        } else if x.raw > hi.raw {
            hi.raw as int
        } else {
            x.raw as int
        },
{
    if x.raw < lo.raw {
        lo
    } else if x.raw > hi.raw {
        hi
    } else {
        x
    }
}

/// The largest parametric distance a trace considers: stands in for an
/// unbounded upper limit while staying inside the tracing envelope.
pub fn infinity() -> (r: Fx)
    ensures
        r.raw == POS_LIMIT,
{
    Fx { raw: POS_LIMIT }
}

} // verus!
