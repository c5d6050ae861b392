//! Material scattering: diffuse, metallic and dielectric variants.
//!
//! Scattering maps an incoming ray and an intersection record to an
//! attenuation color and an outgoing ray, or to absorption (`None`). The
//! random draws enter as explicit arguments of the `*_with` cores, whose
//! results are pinned down exactly; the `scatter` entry points feed them
//! from the caller's generator.

use vstd::prelude::*;
use crate::fx::{
    Fx, SCALE, ADD_LIMIT, MUL_LIMIT, mag_le, fmul, fdiv, fsqrt, lemma_fmul_mag, lemma_fmul_mono,
    lemma_fmul_comm, lemma_fmul_unit, lemma_fdiv_mag, lemma_fdiv_le_one,
};
use crate::vec3::{
    Vec3, Color, v3_mag_le, dot_spec, add_spec, neg_spec, scale_spec, norm_spec, reflect_spec,
    refract_spec, near_zero_spec, color_wf, UNIT_LIMIT, lemma_dot_mag, lemma_norm_mag,
    lemma_norm_unit_bound, lemma_sq_term_nonneg,
};
use crate::ray::{Ray, ray_wf, DIR_LIMIT};
use crate::hittable::{HitRecord, rec_wf, NORMAL_LIMIT};
use crate::common::{random_double, clamp};

verus! {

/// Diffuse material: scatters about the surface normal, tinted by a fixed
/// albedo.
#[derive(Clone, Copy, PartialEq, Eq, Structural, Debug)]
pub struct Lambertian {
    pub albedo: Color,
}

/// Reflective material with a roughness perturbation in `[0, 1]`.
#[derive(Clone, Copy, PartialEq, Eq, Structural, Debug)]
pub struct Metal {
    pub albedo: Color,
    pub fuzz: Fx,
}

/// Transparent material characterized by its refraction index.
#[derive(Clone, Copy, PartialEq, Eq, Structural, Debug)]
pub struct Dielectric {
    pub refraction_index: Fx,
}

/// The closed set of scattering behaviors a primitive can carry.
#[derive(Clone, Copy, PartialEq, Eq, Structural, Debug)]
pub enum Material {
    Lambertian(Lambertian),
    Metal(Metal),
    Dielectric(Dielectric),
}

/// A material whose parameters lie in their documented ranges.
pub open spec fn material_wf(m: Material) -> bool {
    match m {
        Material::Lambertian(l) => color_wf(l.albedo),
        Material::Metal(mt) => color_wf(mt.albedo) && 0 <= mt.fuzz.raw <= SCALE,
        Material::Dielectric(d) => 1 <= d.refraction_index.raw <= 16777216,
    }
}

/// The diffuse scatter direction: normal plus sampled unit vector, falling
/// back to the bare normal when the sum degenerates to near zero.
pub open spec fn lambertian_dir_spec(n: Vec3, u: Vec3) -> Vec3 {
    let d = add_spec(n, u);
    if near_zero_spec(d) {
        n
    } else {
        d
    }
}

/// The metallic scatter result: the normalized mirror reflection perturbed
/// by `fuzz` times the sampled unit vector; absorption exactly when the
/// perturbed direction does not point away from the surface.
pub open spec fn metal_scatter_spec(m: Metal, unit: Vec3, ray: Ray, rec: HitRecord) -> Option<
    (Color, Ray),
> {
    let dir = add_spec(
        norm_spec(reflect_spec(ray.direction, rec.normal)),
        scale_spec(unit, m.fuzz.raw as int),
    );
    if dot_spec(dir, rec.normal) > 0 {
        Some((m.albedo, Ray { origin: rec.point, direction: dir }))
    } else {
        None
    }
}

/// The diffuse scatter result: the albedo and a ray from the hit point
/// along the diffuse direction.
pub open spec fn lambertian_scatter_spec(l: Lambertian, unit: Vec3, rec: HitRecord) -> (
    Color,
    Ray,
) {
    (l.albedo, Ray { origin: rec.point, direction: lambertian_dir_spec(rec.normal, unit) })
}

/// The Schlick reflectance: `r0 + (1 - r0) * (1 - cos)^5` with
/// `r0 = ((1 - ratio) / (1 + ratio))^2`, the base clamped into `[0, 1]`.
pub open spec fn schlick_spec(cos: int, ratio: int) -> int {
    let r0 = schlick_r0(ratio);
    let b0 = SCALE - cos;
    let b = if b0 < 0 {
        0
    } else if b0 > SCALE {
        SCALE as int
    } else {
        b0
    };
    let b2 = fmul(b, b);
    let b4 = fmul(b2, b2);
    let b5 = fmul(b4, b);
    r0 + fmul(SCALE - r0, b5)
}

/// The normal-incidence reflectance `((1 - ratio) / (1 + ratio))^2`.
pub open spec fn schlick_r0(ratio: int) -> int {
    let q = fdiv(SCALE - ratio, SCALE + ratio);
    fmul(q, q)
}

/// The dielectric scatter result, deterministic in the uniform draw `coin`:
/// reflect on total internal reflection or a Schlick-weighted coin toss,
/// refract otherwise; attenuation is always white and the ray always
/// scatters. A degenerate computed direction (near zero, or out of the
/// tracing envelope) falls back to the oriented surface normal, the same
/// guard the diffuse case uses, so the idealized medium never absorbs.
pub open spec fn dielectric_scatter_spec(d: Dielectric, coin: Fx, ray: Ray, rec: HitRecord)
    -> Option<(Color, Ray)> {
    let ratio = if rec.front_face {
        fdiv(SCALE as int, d.refraction_index.raw as int)
    } else {
        d.refraction_index.raw as int
    };
    let u = norm_spec(ray.direction);
    let cos0 = dot_spec(neg_spec(u), rec.normal);
    let cos = if cos0 <= SCALE {
        cos0
    } else {
        SCALE as int
    };
    let s2 = SCALE - fmul(cos, cos);
    let cannot_refract = s2 < 0 || fmul(ratio, fsqrt(s2)) > SCALE;
    let will_reflect = cannot_refract || schlick_spec(cos, ratio) > coin.raw;
    let dir0 = if will_reflect {
        reflect_spec(u, rec.normal)
    } else {
        refract_spec(u, rec.normal, ratio)
    };
    let dir = if near_zero_spec(dir0) || !v3_mag_le(dir0, DIR_LIMIT as int) {
        rec.normal
    } else {
        dir0
    };
    Some(
        (
            Vec3 { x: Fx { raw: SCALE }, y: Fx { raw: SCALE }, z: Fx { raw: SCALE } },
            Ray { origin: rec.point, direction: dir },
        ),
    )
}

/// Law: at full alignment (`cos == 1`) the Schlick reflectance is exactly
/// the normal-incidence reflectance `r0`.
pub proof fn lemma_schlick_at_full_alignment(ratio: int)
    ensures
        schlick_spec(SCALE as int, ratio) == schlick_r0(ratio),
{
    assert(fmul(0, 0) == 0);
    assert(fmul(SCALE - schlick_r0(ratio), 0) == 0);
}

/// Law: the Schlick reflectance is monotonically non-increasing in the
/// cosine — a shallower view angle never reflects less.
pub proof fn lemma_schlick_monotone(cos1: int, cos2: int, ratio: int)
    requires
        0 <= cos1 <= cos2 <= SCALE,
        0 <= ratio,
    ensures
        schlick_spec(cos2, ratio) <= schlick_spec(cos1, ratio),
{
    let s = SCALE as int;
    let r0 = schlick_r0(ratio);
    lemma_fdiv_le_one(s - ratio, s + ratio);
    let q = fdiv(s - ratio, s + ratio);
    lemma_sq_term_nonneg(q);
    lemma_fmul_mag(q, q, s, s);
    lemma_fmul_unit(s, s);
    assert(0 <= r0 <= s);
    let x = s - cos2;
    let y = s - cos1;
    assert(0 <= x <= y <= s);
    let x2 = fmul(x, x);
    let y2 = fmul(y, y);
    lemma_fmul_mono(x, y, x);
    lemma_fmul_comm(y, x);
    lemma_fmul_mono(x, y, y);
    lemma_fmul_comm(y, y);
    assert(0 <= x2 <= y2);
    lemma_fmul_unit(y, y);
    assert(y2 <= s);
    let x4 = fmul(x2, x2);
    let y4 = fmul(y2, y2);
    lemma_fmul_mono(x2, y2, x2);
    lemma_fmul_comm(y2, x2);
    lemma_fmul_mono(x2, y2, y2);
    lemma_fmul_comm(y2, y2);
    assert(0 <= x4 <= y4);
    lemma_fmul_unit(y2, y2);
    assert(y4 <= s);
    let x5 = fmul(x4, x);
    let y5 = fmul(y4, y);
    lemma_fmul_mono(x4, y4, x);
    lemma_fmul_comm(y4, x);
    lemma_fmul_mono(x, y, y4);
    assert(0 <= x5 <= y5);
    lemma_fmul_unit(y4, y);
    assert(y5 <= s);
    lemma_fmul_mono(x5, y5, s - r0);
    lemma_fmul_comm(y5, s - r0);
    lemma_fmul_comm(x5, s - r0);
    assert(fmul(s - r0, x5) <= fmul(s - r0, y5));
}

impl Lambertian {
    /// Builds a diffuse material with the given albedo.
    pub fn new(albedo: Color) -> (r: Lambertian)
        requires
            color_wf(albedo),
        ensures
            r.albedo == albedo,
    {
        Lambertian { albedo }
    }

    /// Deterministic core of diffuse scattering, taking the sampled unit
    /// direction as an argument.
    pub fn scatter_with(&self, unit: Vec3, rec: &HitRecord) -> (r: (Color, Ray))
        requires
            rec_wf(*rec),
            color_wf(self.albedo),
            v3_mag_le(unit, UNIT_LIMIT as int),
        ensures
            r == lambertian_scatter_spec(*self, unit, *rec),
            r.0 == self.albedo,
            r.1.origin == rec.point,
            r.1.direction == lambertian_dir_spec(rec.normal, unit),
            !near_zero_spec(r.1.direction),
            ray_wf(r.1),
    {
        let mut dir = rec.normal.add(unit);
        if dir.near_zero() {
            dir = rec.normal;
        }
        (self.albedo, Ray { origin: rec.point, direction: dir })
    }

    /// Diffuse scattering: always scatters, tinting by the albedo.
    pub fn scatter(&self, rng: &mut rand::rngs::StdRng, _ray: &Ray, rec: &HitRecord) -> (r: Option<
        (Color, Ray),
    >)
        requires
            rec_wf(*rec),
            color_wf(self.albedo),
        ensures
            r is Some,
            r matches Some(p) ==> p.0 == self.albedo && p.1.origin == rec.point && ray_wf(p.1)
                && !near_zero_spec(p.1.direction),
            exists|u: Vec3|
                v3_mag_le(u, UNIT_LIMIT as int) && r == Some(
                    #[trigger] lambertian_scatter_spec(*self, u, *rec),
                ),
    {
        let u = Vec3::random_unit_vector(rng);
        let p = self.scatter_with(u, rec);
        proof {
            assert(v3_mag_le(u, UNIT_LIMIT as int) && p == lambertian_scatter_spec(
                *self,
                u,
                *rec,
            ));
        }
        Some(p)
    }
}

impl Metal {
    /// Builds a metallic material; the roughness is clamped into `[0, 1]`.
    pub fn new(albedo: Color, fuzz: Fx) -> (r: Metal)
        requires
            color_wf(albedo),
            mag_le(fuzz.raw as int, ADD_LIMIT as int),
        ensures
            r.albedo == albedo,
            r.fuzz.raw == if fuzz.raw < 0 {
                0
            } else if fuzz.raw > SCALE {
                SCALE as int
            } else {
                fuzz.raw as int
            },
    {
        Metal { albedo, fuzz: clamp(fuzz, Fx::zero(), Fx::one()) }
    }

    /// Deterministic core of metallic scattering, taking the sampled unit
    /// perturbation as an argument. Absorbs exactly when the perturbed
    /// reflection does not point away from the surface.
    pub fn scatter_with(&self, unit: Vec3, ray: &Ray, rec: &HitRecord) -> (r: Option<(Color, Ray)>)
        requires
            ray_wf(*ray),
            rec_wf(*rec),
            color_wf(self.albedo),
            0 <= self.fuzz.raw <= SCALE,
            v3_mag_le(unit, UNIT_LIMIT as int),
        ensures
            r == metal_scatter_spec(*self, unit, *ray, *rec),
            r matches Some(p) ==> p.0 == self.albedo && p.1.origin == rec.point && ray_wf(p.1)
                && dot_spec(p.1.direction, rec.normal) > 0,
    {
        proof {
            lemma_dot_mag(ray.direction, rec.normal, DIR_LIMIT as int, NORMAL_LIMIT as int);
        }
        let reflected = ray.direction().reflect(rec.normal);
        proof {
            lemma_fmul_mag(
                rec.normal.x.raw as int,
                2 * dot_spec(ray.direction, rec.normal),
                NORMAL_LIMIT as int,
                1649267441664,
            );
            lemma_fmul_mag(
                rec.normal.y.raw as int,
                2 * dot_spec(ray.direction, rec.normal),
                NORMAL_LIMIT as int,
                1649267441664,
            );
            lemma_fmul_mag(
                rec.normal.z.raw as int,
                2 * dot_spec(ray.direction, rec.normal),
                NORMAL_LIMIT as int,
                1649267441664,
            );
            lemma_norm_unit_bound(reflected);
        }
        let rn = reflected.normalize();
        proof {
            lemma_fmul_mag(unit.x.raw as int, self.fuzz.raw as int, UNIT_LIMIT as int, SCALE as int);
            lemma_fmul_mag(unit.y.raw as int, self.fuzz.raw as int, UNIT_LIMIT as int, SCALE as int);
            lemma_fmul_mag(unit.z.raw as int, self.fuzz.raw as int, UNIT_LIMIT as int, SCALE as int);
        }
        let fz = unit.scale(self.fuzz);
        let dir = rn.add(fz);
        let d = crate::vec3::dot(dir, rec.normal);
        if d.raw > 0 {
            Some((self.albedo, Ray { origin: rec.point, direction: dir }))
        } else {
            None
        }
    }

    /// Metallic scattering: whatever unit perturbation was drawn, a
    /// scattered ray always points away from the surface; otherwise the ray
    /// is absorbed.
    pub fn scatter(&self, rng: &mut rand::rngs::StdRng, ray: &Ray, rec: &HitRecord) -> (r: Option<
        (Color, Ray),
    >)
        requires
            ray_wf(*ray),
            rec_wf(*rec),
            color_wf(self.albedo),
            0 <= self.fuzz.raw <= SCALE,
        ensures
            r matches Some(p) ==> p.0 == self.albedo && p.1.origin == rec.point && ray_wf(p.1)
                && dot_spec(p.1.direction, rec.normal) > 0,
            exists|u: Vec3|
                v3_mag_le(u, UNIT_LIMIT as int) && r == #[trigger] metal_scatter_spec(
                    *self,
                    u,
                    *ray,
                    *rec,
                ),
    {
        let u = Vec3::random_unit_vector(rng);
        let r = self.scatter_with(u, ray, rec);
        proof {
            assert(v3_mag_le(u, UNIT_LIMIT as int) && r == metal_scatter_spec(
                *self,
                u,
                *ray,
                *rec,
            ));
        }
        r
    }
}

impl Dielectric {
    /// Builds a transparent material with the given refraction index.
    pub fn new(refraction_index: Fx) -> (r: Dielectric)
        requires
            1 <= refraction_index.raw <= 16777216,
        ensures
            r.refraction_index == refraction_index,
    {
        Dielectric { refraction_index }
    }

    /// The Schlick reflectance approximation.
    pub fn reflectance(cosine: Fx, refraction_index: Fx) -> (r: Fx)
        requires
            0 <= refraction_index.raw <= 4294967296,
            mag_le(cosine.raw as int, MUL_LIMIT as int),
        ensures
            r.raw == schlick_spec(cosine.raw as int, refraction_index.raw as int),
            0 <= r.raw <= SCALE,
    {
        let one = Fx::one();
        let q = one.sub(refraction_index).div(one.add(refraction_index));
        proof {
            lemma_fdiv_le_one(SCALE - refraction_index.raw, SCALE + refraction_index.raw);
            lemma_fmul_mag(q.raw as int, q.raw as int, SCALE as int, SCALE as int);
            lemma_sq_term_nonneg(q.raw as int);
        }
        let r0 = q.mul(q);
        let b = clamp(one.sub(cosine), Fx::zero(), one);
        proof {
            lemma_fmul_unit(b.raw as int, b.raw as int);
        }
        let b2 = b.mul(b);
        proof {
            lemma_fmul_unit(b2.raw as int, b2.raw as int);
        }
        let b4 = b2.mul(b2);
        proof {
            lemma_fmul_unit(b4.raw as int, b.raw as int);
        }
        let b5 = b4.mul(b);
        let om = one.sub(r0);
        proof {
            lemma_fmul_unit(om.raw as int, b5.raw as int);
        }
        r0.add(om.mul(b5))
    }

    /// Deterministic core of dielectric scattering, taking the uniform coin
    /// draw as an argument.
    pub fn scatter_with(&self, coin: Fx, ray: &Ray, rec: &HitRecord) -> (r: Option<(Color, Ray)>)
        requires
            ray_wf(*ray),
            rec_wf(*rec),
            1 <= self.refraction_index.raw <= 16777216,
            0 <= coin.raw <= SCALE,
        ensures
            r == dielectric_scatter_spec(*self, coin, *ray, *rec),
            r is Some,
            r matches Some(p) ==> p.0 == (Vec3 {
                x: Fx { raw: SCALE },
                y: Fx { raw: SCALE },
                z: Fx { raw: SCALE },
            }) && p.1.origin == rec.point && ray_wf(p.1),
    {
        let ratio = if rec.front_face {
            proof {
                lemma_fdiv_mag(SCALE as int, self.refraction_index.raw as int, SCALE as int);
            }
            Fx::one().div(self.refraction_index)
        } else {
            self.refraction_index
        };
        proof {
            lemma_norm_mag(ray.direction, DIR_LIMIT as int);
        }
        let unit_direction = ray.direction().normalize();
        proof {
            lemma_dot_mag(
                neg_spec(norm_spec(ray.direction)),
                rec.normal,
                1125899906842624,
                NORMAL_LIMIT as int,
            );
        }
        let cos0 = crate::vec3::dot(unit_direction.neg(), rec.normal);
        let cos_theta = cos0.min(Fx::one());
        proof {
            lemma_fmul_mag(cos_theta.raw as int, cos_theta.raw as int, MUL_LIMIT as int, MUL_LIMIT as int);
        }
        proof {
            lemma_sq_term_nonneg(cos_theta.raw as int);
        }
        let s2 = Fx::one().sub(cos_theta.mul(cos_theta));
        let cannot_refract: bool = if s2.raw < 0 {
            true
        } else {
            let sin_theta = s2.sqrt();
            proof {
                assert(sin_theta.raw <= 65536) by (nonlinear_arith)
                    requires
                        crate::fx::is_sqrt(s2.raw * SCALE, sin_theta.raw as int),
                        0 <= s2.raw <= 65536,
                        SCALE == 65536,
                ;
            }
            ratio.mul(sin_theta).raw > SCALE
        };
        let will_reflect: bool = if cannot_refract {
            true
        } else {
            let refl = Dielectric::reflectance(cos_theta, ratio);
            refl.raw > coin.raw
        };
        proof {
            lemma_dot_mag(
                norm_spec(ray.direction),
                rec.normal,
                1125899906842624,
                NORMAL_LIMIT as int,
            );
        }
        let direction = if will_reflect {
            unit_direction.reflect(rec.normal)
        } else {
            unit_direction.refract(rec.normal, ratio)
        };
        let dir = if direction.near_zero() || !direction.in_envelope(DIR_LIMIT) {
            rec.normal
        } else {
            direction
        };
        let white = Vec3 { x: Fx::one(), y: Fx::one(), z: Fx::one() };
        Some((white, Ray { origin: rec.point, direction: dir }))
    }

    /// Dielectric scattering: reflect or refract by total internal
    /// reflection and a Schlick-weighted coin toss; attenuation is white
    /// and the ray always scatters.
    pub fn scatter(&self, rng: &mut rand::rngs::StdRng, ray: &Ray, rec: &HitRecord) -> (r: Option<
        (Color, Ray),
    >)
        requires
            ray_wf(*ray),
            rec_wf(*rec),
            1 <= self.refraction_index.raw <= 16777216,
        ensures
            r is Some,
            r matches Some(p) ==> p.0 == (Vec3 {
                x: Fx { raw: SCALE },
                y: Fx { raw: SCALE },
                z: Fx { raw: SCALE },
            }) && p.1.origin == rec.point && ray_wf(p.1),
            exists|coin: Fx|
                0 <= coin.raw < SCALE && r == #[trigger] dielectric_scatter_spec(
                    *self,
                    coin,
                    *ray,
                    *rec,
                ),
    {
        let coin = random_double(rng);
        let r = self.scatter_with(coin, ray, rec);
        proof {
            assert(0 <= coin.raw < SCALE && r == dielectric_scatter_spec(*self, coin, *ray, *rec));
        }
        r
    }
}

impl Material {
    /// Dispatches scattering to the variant's behavior. Whatever the random
    /// draws, a scattered ray starts at the hit point, stays inside the
    /// tracing envelope, and carries a valid attenuation color.
    pub fn scatter(&self, rng: &mut rand::rngs::StdRng, ray: &Ray, rec: &HitRecord) -> (r: Option<
        (Color, Ray),
    >)
        requires
            ray_wf(*ray),
            rec_wf(*rec),
            material_wf(*self),
        ensures
            r matches Some(p) ==> color_wf(p.0) && p.1.origin == rec.point && ray_wf(p.1),
            match *self {
                Material::Lambertian(l) => r is Some && exists|u: Vec3|
                    v3_mag_le(u, UNIT_LIMIT as int) && r == Some(
                        #[trigger] lambertian_scatter_spec(l, u, *rec),
                    ),
                Material::Metal(m) => exists|u: Vec3|
                    v3_mag_le(u, UNIT_LIMIT as int) && r == #[trigger] metal_scatter_spec(
                        m,
                        u,
                        *ray,
                        *rec,
                    ),
                Material::Dielectric(d) => r is Some && exists|coin: Fx|
                    0 <= coin.raw < SCALE && r == #[trigger] dielectric_scatter_spec(
                        d,
                        coin,
                        *ray,
                        *rec,
                    ),
            },
    {
        match self {
            Material::Lambertian(l) => l.scatter(rng, ray, rec),
            Material::Metal(m) => m.scatter(rng, ray, rec),
            Material::Dielectric(d) => d.scatter(rng, ray, rec),
        }
    }
}

} // verus!
