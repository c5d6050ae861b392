//! Intersectable primitives and their aggregation.
//!
//! A sphere test solves the ray/sphere quadratic over fixed-point
//! arithmetic, exactly as `sphere_hit_spec` states; a scene is an ordered
//! list of spheres whose query reports the nearest qualifying hit by a
//! linear scan (an explicit scalability limit, not a defect).

use vstd::prelude::*;
use crate::fx::{
    Fx, SCALE, mag_le, fmul, fdiv, fsqrt, is_sqrt, lemma_fmul_mag, lemma_fdiv_mag,
    lemma_sqrt_floor_exists, lemma_fdiv_mono,
};
use crate::vec3::{
    Vec3, Point3, v3_mag_le, dot_spec, sub_spec, neg_spec, div_scale_spec, near_zero_spec,
    lemma_dot_mag, lemma_len_sq_nonneg,
};
use crate::ray::{Ray, ray_wf, at_spec, POS_LIMIT, DIR_LIMIT};
use crate::material::{Material, material_wf};

verus! {

/// Envelope on the components of a surface normal: 2^20 (a true unit normal
/// lies far inside it).
pub const NORMAL_LIMIT: i128 = 1048576;

/// The record of one ray/primitive intersection.
#[derive(Clone, Copy, PartialEq, Eq, Structural, Debug)]
pub struct HitRecord {
    pub point: Point3,
    pub normal: Vec3,
    pub t: Fx,
    pub front_face: bool,
    pub material: Material,
}

/// A record whose fields lie in the tracing envelopes; the normal is never
/// degenerate, so a scatter fallback along it yields a usable ray.
pub open spec fn rec_wf(rec: HitRecord) -> bool {
    &&& v3_mag_le(rec.point, POS_LIMIT as int)
    &&& v3_mag_le(rec.normal, NORMAL_LIMIT as int)
    &&& !near_zero_spec(rec.normal)
    &&& 0 <= rec.t.raw <= POS_LIMIT
    &&& material_wf(rec.material)
}

/// A sphere primitive: center, positive radius, and its material.
#[derive(Clone, Copy, PartialEq, Eq, Structural, Debug)]
pub struct Sphere {
    pub center: Point3,
    pub radius: Fx,
    pub material: Material,
}

/// A sphere whose geometry lies in the tracing envelopes.
pub open spec fn sphere_wf(s: Sphere) -> bool {
    &&& v3_mag_le(s.center, POS_LIMIT as int)
    &&& 0 < s.radius.raw <= POS_LIMIT
    &&& material_wf(s.material)
}

/// `a` of the ray/sphere quadratic: the direction's squared length.
pub open spec fn sphere_a(s: Sphere, ray: Ray) -> int {
    dot_spec(ray.direction, ray.direction)
}

/// `half_b` of the quadratic: `(origin - center) . direction`.
pub open spec fn sphere_half_b(s: Sphere, ray: Ray) -> int {
    dot_spec(sub_spec(ray.origin, s.center), ray.direction)
}

/// `c` of the quadratic: `|origin - center|^2 - radius^2`.
pub open spec fn sphere_c(s: Sphere, ray: Ray) -> int {
    let oc = sub_spec(ray.origin, s.center);
    dot_spec(oc, oc) - fmul(s.radius.raw as int, s.radius.raw as int)
}

/// The discriminant `half_b^2 - a c`, negative exactly when the ray misses
/// the sphere's surface.
pub open spec fn sphere_disc(s: Sphere, ray: Ray) -> int {
    fmul(sphere_half_b(s, ray), sphere_half_b(s, ray)) - fmul(sphere_a(s, ray), sphere_c(s, ray))
}

/// The record built for a qualifying root: hit point, outward-corrected
/// normal and front-face flag. A root whose derived point leaves the
/// position envelope, or whose outward normal leaves the normal envelope or
/// degenerates to near zero, reports a miss instead. For scenes with a
/// margin between their extent and the envelopes the true hit point lies on
/// the struck sphere and the true normal is unit, so these guards are idle;
/// discharging them formally would take a bound on how far the rounded root
/// strays from the exact quadratic solution, which the exact-truncation
/// contracts do not state.
pub open spec fn sphere_rec_spec(s: Sphere, ray: Ray, root: int) -> Option<HitRecord> {
    let point = at_spec(ray, root);
    if !v3_mag_le(point, POS_LIMIT as int) {
        None
    } else {
        let outward = div_scale_spec(sub_spec(point, s.center), s.radius.raw as int);
        if !v3_mag_le(outward, NORMAL_LIMIT as int) || near_zero_spec(outward) {
            None
        } else {
            let ff = dot_spec(ray.direction, outward) < 0;
            let normal = if ff {
                outward
            } else {
                neg_spec(outward)
            };
            Some(
                HitRecord {
                    point,
                    normal,
                    t: Fx { raw: root as i128 },
                    front_face: ff,
                    material: s.material,
                },
            )
        }
    }
}

/// The rounded square root of the discriminant.
pub open spec fn sphere_sd(s: Sphere, ray: Ray) -> int {
    fsqrt(sphere_disc(s, ray))
}

/// The smaller quadratic root `(-half_b - sd) / a`.
pub open spec fn sphere_root1(s: Sphere, ray: Ray) -> int {
    fdiv(-sphere_half_b(s, ray) - sphere_sd(s, ray), sphere_a(s, ray))
}

/// The larger quadratic root `(-half_b + sd) / a`.
pub open spec fn sphere_root2(s: Sphere, ray: Ray) -> int {
    fdiv(-sphere_half_b(s, ray) + sphere_sd(s, ray), sphere_a(s, ray))
}

/// The full ray/sphere test over the open interval `(t_min, t_max)`: no hit
/// on a negative discriminant (or a degenerate direction); otherwise the
/// smaller root is preferred and a root outside the interval is rejected.
pub open spec fn sphere_hit_spec(s: Sphere, ray: Ray, t_min: int, t_max: int) -> Option<
    HitRecord,
> {
    if sphere_a(s, ray) <= 0 || sphere_disc(s, ray) < 0 {
        None
    } else if t_min < sphere_root1(s, ray) && sphere_root1(s, ray) < t_max {
        sphere_rec_spec(s, ray, sphere_root1(s, ray))
    } else if t_min < sphere_root2(s, ray) && sphere_root2(s, ray) < t_max {
        sphere_rec_spec(s, ray, sphere_root2(s, ray))
    } else {
        None
    }
}

/// The scan over a sphere sequence: each hit narrows the admissible
/// interval, so the final record is the nearest hit; first wins on a tie.
pub open spec fn scan_hit(
    objs: Seq<Sphere>,
    ray: Ray,
    t_min: int,
    closest: int,
    best: Option<HitRecord>,
) -> Option<HitRecord>
    decreases objs.len(),
{
    if objs.len() == 0 {
        best
    } else {
        match sphere_hit_spec(objs[0], ray, t_min, closest) {
            Some(rec) => scan_hit(objs.drop_first(), ray, t_min, rec.t.raw as int, Some(rec)),
            None => scan_hit(objs.drop_first(), ray, t_min, closest, best),
        }
    }
}

/// The nearest hit over a whole sphere sequence within `(t_min, t_max)`.
pub open spec fn nearest_hit_spec(objs: Seq<Sphere>, ray: Ray, t_min: int, t_max: int) -> Option<
    HitRecord,
> {
    scan_hit(objs, ray, t_min, t_max, None)
}

/// Bounds on the quadratic's ingredients for a well-formed sphere and ray;
/// in particular the roots exist and fit the scalar representation.
pub proof fn lemma_sphere_quad_bounds(s: Sphere, ray: Ray)
    requires
        sphere_wf(s),
        ray_wf(ray),
    ensures
        0 <= sphere_a(s, ray),
        mag_le(sphere_a(s, ray), 13510798882111488),
        mag_le(sphere_half_b(s, ray), 108086391056891904),
        mag_le(sphere_c(s, ray), 1188950301625810944),
        mag_le(sphere_disc(s, ray), 633825300114114700748351602688),
        sphere_disc(s, ray) >= 0 ==> 0 <= sphere_sd(s, ray) <= 288230376151711744,
        sphere_disc(s, ray) >= 0 && sphere_a(s, ray) > 0 ==> mag_le(
            sphere_root1(s, ray),
            1208925819614629174706176,
        ) && mag_le(sphere_root2(s, ray), 1208925819614629174706176),
{
    let oc = sub_spec(ray.origin, s.center);
    assert(v3_mag_le(oc, 137438953472));
    lemma_dot_mag(ray.direction, ray.direction, DIR_LIMIT as int, DIR_LIMIT as int);
    lemma_len_sq_nonneg(ray.direction);
    lemma_dot_mag(oc, ray.direction, 137438953472, DIR_LIMIT as int);
    lemma_dot_mag(oc, oc, 137438953472, 137438953472);
    lemma_fmul_mag(s.radius.raw as int, s.radius.raw as int, POS_LIMIT as int, POS_LIMIT as int);
    let hb = sphere_half_b(s, ray);
    let a = sphere_a(s, ray);
    let c = sphere_c(s, ray);
    lemma_fmul_mag(hb, hb, 108086391056891904, 108086391056891904);
    lemma_fmul_mag(a, c, 13510798882111488, 1188950301625810944);
    let disc = sphere_disc(s, ray);
    if disc >= 0 {
        lemma_sqrt_floor_exists(disc * SCALE);
        let sd = sphere_sd(s, ray);
        assert(is_sqrt(disc * SCALE, sd));
        assert(sd <= 288230376151711744) by (nonlinear_arith)
            requires
                0 <= sd,
                sd * sd <= disc * SCALE,
                disc * SCALE <= 633825300114114700748351602688int * 65536,
        ;
        if a > 0 {
            lemma_fdiv_mag(-hb - sd, a, 396316767208603708620800);
            lemma_fdiv_mag(-hb + sd, a, 396316767208603708620800);
        }
    }
}

/// Law: a negative discriminant means the test reports no hit, and a
/// nonnegative discriminant whose two roots both fall outside the open
/// interval reports no hit either.
pub proof fn lemma_sphere_miss(s: Sphere, ray: Ray, t_min: int, t_max: int)
    ensures
        sphere_disc(s, ray) < 0 ==> sphere_hit_spec(s, ray, t_min, t_max) is None,
        !(t_min < sphere_root1(s, ray) < t_max) && !(t_min < sphere_root2(s, ray) < t_max)
            ==> sphere_hit_spec(s, ray, t_min, t_max) is None,
{
}

/// A reported hit carries the root it was built from: its distance lies
/// strictly inside the interval and names one of the two quadratic roots.
pub proof fn lemma_sphere_hit_range(s: Sphere, ray: Ray, t_min: int, t_max: int)
    requires
        sphere_wf(s),
        ray_wf(ray),
        mag_le(t_min, POS_LIMIT as int),
        mag_le(t_max, POS_LIMIT as int),
    ensures
        sphere_hit_spec(s, ray, t_min, t_max) matches Some(rec) ==> t_min < rec.t.raw < t_max && (
        rec.t.raw == sphere_root1(s, ray) || rec.t.raw == sphere_root2(s, ray)),
{
    lemma_sphere_quad_bounds(s, ray);
}

/// Narrowing the interval's upper end keeps the reported hit when its
/// distance still qualifies and removes it otherwise.
pub proof fn lemma_sphere_hit_narrow(s: Sphere, ray: Ray, t_min: int, t_new: int, t_max: int)
    requires
        sphere_wf(s),
        ray_wf(ray),
        mag_le(t_min, POS_LIMIT as int),
        mag_le(t_max, POS_LIMIT as int),
        mag_le(t_new, POS_LIMIT as int),
        t_new <= t_max,
    ensures
        sphere_hit_spec(s, ray, t_min, t_max) is None ==> sphere_hit_spec(s, ray, t_min, t_new)
            is None,
        sphere_hit_spec(s, ray, t_min, t_max) matches Some(rec) ==> sphere_hit_spec(
            s,
            ray,
            t_min,
            t_new,
        ) == (if rec.t.raw < t_new {
            Some(rec)
        } else {
            None::<HitRecord>
        }),
{
    lemma_sphere_quad_bounds(s, ray);
    let a = sphere_a(s, ray);
    let disc = sphere_disc(s, ray);
    if a > 0 && disc >= 0 {
        lemma_fdiv_mono(
            -sphere_half_b(s, ray) - sphere_sd(s, ray),
            -sphere_half_b(s, ray) + sphere_sd(s, ray),
            a,
        );
        assert(sphere_root1(s, ray) <= sphere_root2(s, ray));
    }
}

/// The scan's result is the minimum-distance hit: generalized over the
/// accumulated best record and its narrowed interval.
#[verifier::spinoff_prover]
#[verifier::rlimit(60)]
proof fn lemma_scan_min(
    objs: Seq<Sphere>,
    ray: Ray,
    t_min: int,
    closest: int,
    best: Option<HitRecord>,
)
    requires
        forall|i: int| 0 <= i < objs.len() ==> sphere_wf(#[trigger] objs[i]),
        ray_wf(ray),
        0 <= t_min <= POS_LIMIT,
        mag_le(closest, POS_LIMIT as int),
        best matches Some(b) ==> b.t.raw == closest,
    ensures
        ({
            let r = scan_hit(objs, ray, t_min, closest, best);
            &&& (best is Some ==> r is Some && r.unwrap().t.raw <= closest)
            &&& (r is None ==> best is None && forall|i: int|
                0 <= i < objs.len() ==> #[trigger] sphere_hit_spec(objs[i], ray, t_min, closest)
                    is None)
            &&& (r is Some ==> r == best || exists|i: int|
                0 <= i < objs.len() && #[trigger] sphere_hit_spec(objs[i], ray, t_min, closest)
                    == r)
            &&& (r is Some ==> forall|i: int|
                0 <= i < objs.len() ==> (#[trigger] sphere_hit_spec(
                    objs[i],
                    ray,
                    t_min,
                    closest,
                ) matches Some(ri) ==> r.unwrap().t.raw <= ri.t.raw))
        }),
    decreases objs.len(),
{
    if objs.len() == 0 {
    } else {
        let rest = objs.drop_first();
        assert(forall|j: int| 0 <= j < rest.len() ==> rest[j] == objs[j + 1]);
        assert forall|j: int| 0 <= j < rest.len() implies sphere_wf(#[trigger] rest[j]) by {
            assert(rest[j] == objs[j + 1]);
        }
        let r = scan_hit(objs, ray, t_min, closest, best);
        match sphere_hit_spec(objs[0], ray, t_min, closest) {
            Some(rec) => {
                lemma_sphere_hit_range(objs[0], ray, t_min, closest);
                assert(r == scan_hit(rest, ray, t_min, rec.t.raw as int, Some(rec)));
                lemma_scan_min(rest, ray, t_min, rec.t.raw as int, Some(rec));
                assert(r is Some && r.unwrap().t.raw <= rec.t.raw);
                // the reported record comes from some member, at this interval
                if r == Some(rec) {
                    assert(sphere_hit_spec(objs[0], ray, t_min, closest) == r);
                } else {
                    let j = choose|j: int|
                        0 <= j < rest.len() && #[trigger] sphere_hit_spec(
                            rest[j],
                            ray,
                            t_min,
                            rec.t.raw as int,
                        ) == r;
                    lemma_sphere_hit_narrow(objs[j + 1], ray, t_min, rec.t.raw as int, closest);
                    assert(sphere_hit_spec(objs[j + 1], ray, t_min, closest) == r);
                }
                // minimality over the un-narrowed interval
                assert forall|i: int|
                    0 <= i < objs.len() && #[trigger] sphere_hit_spec(
                        objs[i],
                        ray,
                        t_min,
                        closest,
                    ) is Some implies r.unwrap().t.raw <= sphere_hit_spec(
                    objs[i],
                    ray,
                    t_min,
                    closest,
                ).unwrap().t.raw by {
                    if i == 0 {
                    } else {
                        let ri = sphere_hit_spec(objs[i], ray, t_min, closest).unwrap();
                        lemma_sphere_hit_narrow(objs[i], ray, t_min, rec.t.raw as int, closest);
                        if ri.t.raw < rec.t.raw {
                            assert(sphere_hit_spec(objs[i], ray, t_min, rec.t.raw as int) == Some(
                                ri,
                            ));
                            assert(rest[i - 1] == objs[i]);
                        }
                    }
                }
            },
            None => {
                assert(r == scan_hit(rest, ray, t_min, closest, best));
                lemma_scan_min(rest, ray, t_min, closest, best);
                if r is None {
                    assert forall|i: int| 0 <= i < objs.len() implies #[trigger] sphere_hit_spec(
                        objs[i],
                        ray,
                        t_min,
                        closest,
                    ) is None by {
                        if i > 0 {
                            assert(rest[i - 1] == objs[i]);
                            assert(sphere_hit_spec(rest[i - 1], ray, t_min, closest) is None);
                        }
                    }
                }
                if r is Some {
                    if r != best {
                        let j = choose|j: int|
                            0 <= j < rest.len() && #[trigger] sphere_hit_spec(
                                rest[j],
                                ray,
                                t_min,
                                closest,
                            ) == r;
                        assert(sphere_hit_spec(objs[j + 1], ray, t_min, closest) == r);
                    }
                    assert forall|i: int|
                        0 <= i < objs.len() && #[trigger] sphere_hit_spec(
                            objs[i],
                            ray,
                            t_min,
                            closest,
                        ) is Some implies r.unwrap().t.raw <= sphere_hit_spec(
                        objs[i],
                        ray,
                        t_min,
                        closest,
                    ).unwrap().t.raw by {
                        if i > 0 {
                            assert(rest[i - 1] == objs[i]);
                        }
                    }
                }
            },
        }
    }
}

/// Law: over any scene, the aggregate query returns exactly the minimum-
/// distance hit among every member's individual test over the same
/// interval — and no hit exactly when every member reports none.
pub proof fn lemma_scene_hit_is_nearest(objs: Seq<Sphere>, ray: Ray, t_min: int, t_max: int)
    requires
        forall|i: int| 0 <= i < objs.len() ==> sphere_wf(#[trigger] objs[i]),
        ray_wf(ray),
        0 <= t_min <= POS_LIMIT,
        mag_le(t_max, POS_LIMIT as int),
    ensures
        ({
            let r = nearest_hit_spec(objs, ray, t_min, t_max);
            &&& (r is None ==> forall|i: int|
                0 <= i < objs.len() ==> #[trigger] sphere_hit_spec(objs[i], ray, t_min, t_max)
                    is None)
            &&& (r is Some ==> exists|i: int|
                0 <= i < objs.len() && #[trigger] sphere_hit_spec(objs[i], ray, t_min, t_max)
                    == r)
            &&& (r is Some ==> forall|i: int|
                0 <= i < objs.len() ==> (#[trigger] sphere_hit_spec(
                    objs[i],
                    ray,
                    t_min,
                    t_max,
                ) matches Some(ri) ==> r.unwrap().t.raw <= ri.t.raw))
        }),
{
    lemma_scan_min(objs, ray, t_min, t_max, None);
}

/// Anything a ray can strike: the executable test must report exactly what
/// the implementor's `hit_spec` states.
pub trait Hittable {
    /// The mathematical result of the intersection test.
    spec fn hit_spec(&self, ray: Ray, t_min: int, t_max: int) -> Option<HitRecord>;

    /// The implementor's well-formedness.
    spec fn hittable_wf(&self) -> bool;

    /// Reports the intersection of `ray` with `self` over `(t_min, t_max)`.
    fn hit(&self, ray: &Ray, t_min: Fx, t_max: Fx) -> (r: Option<HitRecord>)
        requires
            self.hittable_wf(),
            ray_wf(*ray),
            0 <= t_min.raw,
            t_min.raw <= t_max.raw,
            t_max.raw <= POS_LIMIT,
        ensures
            r == self.hit_spec(*ray, t_min.raw as int, t_max.raw as int),
            r matches Some(rec) ==> rec_wf(rec) && t_min.raw < rec.t.raw < t_max.raw,
    ;
}

impl Sphere {
    /// Builds a sphere from its geometry and material.
    pub fn new(center: Point3, radius: Fx, material: Material) -> (r: Sphere)
        requires
            v3_mag_le(center, POS_LIMIT as int),
            0 < radius.raw <= POS_LIMIT,
            material_wf(material),
        ensures
            r.center == center,
            r.radius == radius,
            r.material == material,
            sphere_wf(r),
    {
        Sphere { center, radius, material }
    }
}

impl Hittable for Sphere {
    open spec fn hit_spec(&self, ray: Ray, t_min: int, t_max: int) -> Option<HitRecord> {
        sphere_hit_spec(*self, ray, t_min, t_max)
    }

    open spec fn hittable_wf(&self) -> bool {
        sphere_wf(*self)
    }

    fn hit(&self, ray: &Ray, t_min: Fx, t_max: Fx) -> (r: Option<HitRecord>) {
        proof {
            lemma_dot_mag(ray.direction, ray.direction, DIR_LIMIT as int, DIR_LIMIT as int);
            lemma_len_sq_nonneg(ray.direction);
        }
        let oc = ray.origin().sub(self.center);
        proof {
            lemma_dot_mag(oc, ray.direction, 137438953472, DIR_LIMIT as int);
            lemma_dot_mag(oc, oc, 137438953472, 137438953472);
            lemma_fmul_mag(self.radius.raw as int, self.radius.raw as int, POS_LIMIT as int, POS_LIMIT as int);
        }
        let a = crate::vec3::dot(ray.direction(), ray.direction());
        let half_b = crate::vec3::dot(oc, ray.direction());
        let c = crate::vec3::dot(oc, oc).sub(self.radius.mul(self.radius));
        proof {
            lemma_fmul_mag(half_b.raw as int, half_b.raw as int, 108086391056891904, 108086391056891904);
            lemma_fmul_mag(a.raw as int, c.raw as int, 13510798882111488, 1188950301625810944);
        }
        let disc = half_b.mul(half_b).sub(a.mul(c));
        if a.raw <= 0 || disc.raw < 0 {
            None
        } else {
            let sd = disc.sqrt();
            let root1 = half_b.neg().sub(sd).div(a);
            if t_min.raw < root1.raw && root1.raw < t_max.raw {
                self.make_record(ray, root1)
            } else {
                let root2 = half_b.neg().add(sd).div(a);
                if t_min.raw < root2.raw && root2.raw < t_max.raw {
                    self.make_record(ray, root2)
                } else {
                    None
                }
            }
        }
    }
}

impl Sphere {
    /// Builds the intersection record for a root already known to lie in
    /// the admissible interval; misses when a derived quantity leaves the
    /// arithmetic envelope.
    fn make_record(&self, ray: &Ray, root: Fx) -> (r: Option<HitRecord>)
        requires
            sphere_wf(*self),
            ray_wf(*ray),
            0 <= root.raw <= POS_LIMIT,
        ensures
            r == sphere_rec_spec(*self, *ray, root.raw as int),
            r matches Some(rec) ==> rec_wf(rec) && rec.t == root,
    {
        let point = ray.at(root);
        if !point.in_envelope(POS_LIMIT) {
            None
        } else {
            proof {
                lemma_fdiv_mag(point.x.raw - self.center.x.raw, self.radius.raw as int, 137438953472);
                lemma_fdiv_mag(point.y.raw - self.center.y.raw, self.radius.raw as int, 137438953472);
                lemma_fdiv_mag(point.z.raw - self.center.z.raw, self.radius.raw as int, 137438953472);
            }
            let outward = point.sub(self.center).div_scale(self.radius);
            if !outward.in_envelope(NORMAL_LIMIT) || outward.near_zero() {
                None
            } else {
                Some(HitRecord::new(ray, root, outward, self.material))
            }
        }
    }
}

impl HitRecord {
    /// Builds the record for a confirmed root: evaluates the hit point and
    /// orients the outward normal against the incoming ray.
    pub fn new(ray: &Ray, root: Fx, outward_normal: Vec3, material: Material) -> (r: HitRecord)
        requires
            ray_wf(*ray),
            0 <= root.raw <= POS_LIMIT,
            v3_mag_le(outward_normal, NORMAL_LIMIT as int),
            !near_zero_spec(outward_normal),
            v3_mag_le(at_spec(*ray, root.raw as int), POS_LIMIT as int),
            material_wf(material),
        ensures
            r.point == at_spec(*ray, root.raw as int),
            r.t == root,
            r.front_face == (dot_spec(ray.direction, outward_normal) < 0),
            r.normal == if dot_spec(ray.direction, outward_normal) < 0 {
                outward_normal
            } else {
                neg_spec(outward_normal)
            },
            r.material == material,
            rec_wf(r),
    {
        let t = root;
        let point = ray.at(root);
        let (front_face, normal) = HitRecord::calculate_normal(ray, outward_normal);
        HitRecord { point, normal, t, front_face, material }
    }

    /// Orients the outward normal to oppose the incoming ray and reports
    /// whether the front face was struck.
    fn calculate_normal(ray: &Ray, outward_normal: Vec3) -> (r: (bool, Vec3))
        requires
            ray_wf(*ray),
            v3_mag_le(outward_normal, NORMAL_LIMIT as int),
        ensures
            r.0 == (dot_spec(ray.direction, outward_normal) < 0),
            r.1 == if dot_spec(ray.direction, outward_normal) < 0 {
                outward_normal
            } else {
                neg_spec(outward_normal)
            },
    {
        let d = crate::vec3::dot(ray.direction(), outward_normal);
        let front_face: bool = d.raw < 0;
        if front_face {
            (front_face, outward_normal)
        } else {
            (front_face, outward_normal.neg())
        }
    }
}

/// The ordered scene: a list of spheres queried as one aggregate.
pub struct HittableList {
    pub objects: Vec<Sphere>,
}

/// Every member of the scene is well-formed.
pub open spec fn list_wf(l: HittableList) -> bool {
    forall|i: int| 0 <= i < l.objects@.len() ==> sphere_wf(#[trigger] l.objects@[i])
}

impl HittableList {
    /// An empty scene.
    pub fn new() -> (r: HittableList)
        ensures
            r.objects@.len() == 0,
            list_wf(r),
    {
        HittableList { objects: Vec::new() }
    }

    /// Appends a primitive; insertion order does not change what the query
    /// reports except on exact ties, where the earlier member wins.
    pub fn add(&mut self, s: Sphere)
        requires
            sphere_wf(s),
        ensures
            final(self).objects@ == old(self).objects@.push(s),
            list_wf(*old(self)) ==> list_wf(*final(self)),
    {
        self.objects.push(s);
    }
}

impl Hittable for HittableList {
    open spec fn hit_spec(&self, ray: Ray, t_min: int, t_max: int) -> Option<HitRecord> {
        nearest_hit_spec(self.objects@, ray, t_min, t_max)
    }

    open spec fn hittable_wf(&self) -> bool {
        list_wf(*self)
    }

    fn hit(&self, ray: &Ray, t_min: Fx, t_max: Fx) -> (r: Option<HitRecord>) {
        let mut best: Option<HitRecord> = None;
        let mut closest: Fx = t_max;
        let n = self.objects.len();
        let mut i: usize = 0;
        proof {
            assert(self.objects@.skip(0) =~= self.objects@);
        }
        while i < n
            invariant
                i <= n,
                n == self.objects@.len(),
                list_wf(*self),
                ray_wf(*ray),
                0 <= t_min.raw,
                t_min.raw <= closest.raw <= t_max.raw,
                t_max.raw <= POS_LIMIT,
                best matches Some(b) ==> b.t.raw == closest.raw && rec_wf(b) && t_min.raw
                    < b.t.raw < t_max.raw,
                best is None ==> closest.raw == t_max.raw,
                scan_hit(self.objects@.skip(i as int), *ray, t_min.raw as int, closest.raw as int, best)
                    == nearest_hit_spec(self.objects@, *ray, t_min.raw as int, t_max.raw as int),
            decreases n - i,
        {
            let ghost pre = self.objects@.skip(i as int);
            proof {
                assert(pre[0] == self.objects@[i as int]);
                assert(pre.drop_first() =~= self.objects@.skip(i as int + 1));
            }
            let s = self.objects[i];
            match s.hit(ray, t_min, closest) {
                Some(rec) => {
                    best = Some(rec);
                    closest = rec.t;
                },
                None => {},
            }
            i = i + 1;
        }
        proof {
            assert(self.objects@.skip(n as int).len() == 0);
        }
        best
    }
}

} // verus!
