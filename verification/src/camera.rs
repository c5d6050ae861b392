//! The camera and the render loop.
//!
//! Construction derives the view basis and viewport from the configuration,
//! validating it instead of propagating degenerate derived values; rendering
//! maps every pixel through jittered primary rays and the recursive path
//! tracing kernel, whose depth budget makes termination structural.

use vstd::prelude::*;
use crate::fx::{
    Fx, SCALE, MUL_LIMIT, mag_le, fmul, fdiv, lemma_fmul_mag, lemma_fdiv_mag, lemma_fmul_unit,
    lemma_fmul_mono, lemma_fdiv_le_k, lemma_fmul_comm,
};
use crate::vec3::{
    Vec3, Point3, Color, v3_mag_le, norm_spec, cross_spec, sub_spec, add_spec, scale_spec,
    neg_spec, near_zero_spec, zero_spec, color_wf, cross, lemma_norm_mag, lemma_fmul_prod_limit,
};
use crate::ray::{Ray, ray_wf, POS_LIMIT, DIR_LIMIT};
use crate::hittable::{Hittable, HittableList, list_wf, nearest_hit_spec};
use crate::common::{random_double, clamp, infinity};

verus! {

/// Envelope on camera basis vectors: 2^20.
pub const BASIS_LIMIT: i128 = 1048576;

/// Guard envelope on a normalized basis vector: two units.
pub const UNIT_ENV: i128 = 131072;

/// Envelope on the camera's viewport vectors: 2^31.
pub const CAM_VEC_LIMIT: i128 = 2147483648;

/// Envelope on the camera position: 2^30.
pub const CAM_POS_LIMIT: i128 = 1073741824;

/// The lower end of the trace interval: keeps a scattered ray from
/// immediately re-hitting the surface it just left.
pub const SHADOW_EPS: i128 = 66;

/// One half in raw steps.
pub const HALF: i128 = 32768;

/// Why a camera configuration was rejected.
#[derive(Clone, Copy, PartialEq, Eq, Structural, Debug)]
pub enum ConfigError {
    /// The image dimensions are out of range.
    InvalidDimensions,
    /// The view basis is degenerate or the viewport leaves the envelope.
    DegenerateView,
}

pub struct Camera {
    pub image_width: u64,
    pub image_height: u64,
    pub origin: Point3,
    pub horizontal: Vec3,
    pub vertical: Vec3,
    pub upper_left_corner: Point3,
    pub samples_per_pixel: u64,
    pub max_depth: u64,
    pub lens_radius: Fx,
    pub u: Vec3,
    pub v: Vec3,
}

/// A camera whose derived values lie in the tracing envelopes.
pub open spec fn camera_wf(c: Camera) -> bool {
    &&& 2 <= c.image_width <= 16384
    &&& 2 <= c.image_height <= 16384
    &&& 1 <= c.samples_per_pixel <= 65536
    &&& v3_mag_le(c.origin, CAM_POS_LIMIT as int)
    &&& v3_mag_le(c.horizontal, CAM_VEC_LIMIT as int)
    &&& v3_mag_le(c.vertical, CAM_VEC_LIMIT as int)
    &&& v3_mag_le(c.upper_left_corner, CAM_VEC_LIMIT as int)
    &&& v3_mag_le(c.u, BASIS_LIMIT as int)
    &&& v3_mag_le(c.v, BASIS_LIMIT as int)
    &&& 0 <= c.lens_radius.raw <= BASIS_LIMIT
}

/// The derived image height: `floor(width / aspect_ratio)`.
pub open spec fn height_of(width: int, aspect: int) -> int {
    fdiv(width * SCALE, aspect) / (SCALE as int)
}

/// The forward basis vector `w`.
pub open spec fn cam_w(look_from: Point3, look_at: Point3) -> Vec3 {
    norm_spec(sub_spec(look_from, look_at))
}

/// The right basis vector `u`.
pub open spec fn cam_u(view_up: Vec3, w: Vec3) -> Vec3 {
    norm_spec(cross_spec(view_up, w))
}

/// The focus-scaled viewport vector along `u` (horizontal) for a given
/// tangent of the half field of view.
pub open spec fn cam_fw(tan_half_fov: int, aspect: int, focus: int) -> int {
    fmul(focus, fmul(2 * tan_half_fov, aspect))
}

/// The focus-scaled viewport extent along `v` (vertical).
pub open spec fn cam_fh(tan_half_fov: int, focus: int) -> int {
    fmul(focus, 2 * tan_half_fov)
}

/// Exactly which error `Camera::new` reports, or `None` when construction
/// succeeds: the checks mirror the constructor, in its order.
pub open spec fn camera_error_spec(
    aspect: int,
    width: int,
    tan_half_fov: int,
    look_from: Point3,
    look_at: Point3,
    view_up: Vec3,
    focus: int,
) -> Option<ConfigError> {
    let h = height_of(width, aspect);
    if width < 2 || h < 2 || h > 16384 {
        Some(ConfigError::InvalidDimensions)
    } else {
        let w = cam_w(look_from, look_at);
        if near_zero_spec(w) || !v3_mag_le(w, UNIT_ENV as int) {
            Some(ConfigError::DegenerateView)
        } else {
            let u = cam_u(view_up, w);
            if near_zero_spec(u) || !v3_mag_le(u, UNIT_ENV as int) {
                Some(ConfigError::DegenerateView)
            } else {
                let fw = cam_fw(tan_half_fov, aspect, focus);
                let fh = cam_fh(tan_half_fov, focus);
                if fw > MUL_LIMIT || fw < 0 || fh > MUL_LIMIT || fh < 0 {
                    Some(ConfigError::DegenerateView)
                } else {
                    let horizontal = scale_spec(u, fw);
                    let vertical = scale_spec(neg_spec(cross_spec(w, u)), fh);
                    if !v3_mag_le(horizontal, CAM_VEC_LIMIT as int) || !v3_mag_le(
                        vertical,
                        CAM_VEC_LIMIT as int,
                    ) {
                        Some(ConfigError::DegenerateView)
                    } else {
                        let ulc = sub_spec(
                            sub_spec(
                                sub_spec(look_from, scale_spec(w, focus)),
                                scale_spec(horizontal, HALF as int),
                            ),
                            scale_spec(vertical, HALF as int),
                        );
                        if !v3_mag_le(ulc, CAM_VEC_LIMIT as int) {
                            Some(ConfigError::DegenerateView)
                        } else {
                            None
                        }
                    }
                }
            }
        }
    }
}

/// The primary ray for pixel `(i, j)`, deterministic in the two jitter
/// draws and the lens-disk sample.
pub open spec fn get_ray_spec(c: Camera, jit_i: int, jit_j: int, disk: Vec3, i: int, j: int)
    -> Ray {
    let dh = fdiv(i * SCALE + jit_i, (c.image_width - 1) * SCALE);
    let dv = fdiv(j * SCALE + jit_j, (c.image_height - 1) * SCALE);
    let rd = scale_spec(disk, c.lens_radius.raw as int);
    let offset = add_spec(scale_spec(c.u, rd.x.raw as int), scale_spec(c.v, rd.y.raw as int));
    let direction = sub_spec(
        sub_spec(
            add_spec(
                add_spec(c.upper_left_corner, scale_spec(c.horizontal, dh)),
                scale_spec(c.vertical, dv),
            ),
            c.origin,
        ),
        offset,
    );
    Ray { origin: add_spec(c.origin, offset), direction }
}

/// A grid of quantized pixels, row-major, top row first.
pub struct Image {
    pub width: u64,
    pub height: u64,
    pub pixels: Vec<(u8, u8, u8)>,
}

/// The background gradient: white at the downward extreme blending to pale
/// blue at the upward extreme, by the direction's normalized vertical
/// component (clamped against rounding overshoot).
pub open spec fn background_spec(ray: Ray) -> Color {
    let unit = norm_spec(ray.direction);
    let t0 = fmul(HALF as int, unit.y.raw + SCALE);
    let t = if t0 < 0 {
        0
    } else if t0 > SCALE {
        SCALE as int
    } else {
        t0
    };
    let om = SCALE - t;
    Vec3 {
        x: Fx { raw: (fmul(SCALE as int, om) + fmul(HALF as int, t)) as i128 },
        y: Fx { raw: (fmul(SCALE as int, om) + fmul(45875, t)) as i128 },
        z: Fx { raw: (fmul(SCALE as int, om) + fmul(SCALE as int, t)) as i128 },
    }
}

/// The background gradient a missed ray resolves to.
pub fn background(ray: &Ray) -> (r: Color)
    requires
        ray_wf(*ray),
    ensures
        r == background_spec(*ray),
        color_wf(r),
{
    proof {
        lemma_norm_mag(ray.direction, DIR_LIMIT as int);
    }
    let unit = ray.direction().normalize();
    proof {
        lemma_fmul_prod_limit(HALF as int, unit.y.raw + SCALE);
    }
    let t0 = Fx { raw: HALF }.mul(unit.y.add(Fx::one()));
    let t = clamp(t0, Fx::zero(), Fx::one());
    let om = Fx::one().sub(t);
    let white = Vec3 { x: Fx::one(), y: Fx::one(), z: Fx::one() };
    let blue = Vec3 { x: Fx { raw: HALF }, y: Fx { raw: 45875 }, z: Fx::one() };
    proof {
        lemma_fmul_unit(SCALE as int, om.raw as int);
        lemma_fmul_unit(SCALE as int, t.raw as int);
        lemma_fmul_comm(SCALE as int, om.raw as int);
        lemma_fmul_comm(SCALE as int, t.raw as int);
        lemma_fmul_comm(HALF as int, t.raw as int);
        lemma_fmul_comm(45875, t.raw as int);
        lemma_fmul_mono(HALF as int, SCALE as int, t.raw as int);
        lemma_fmul_mono(45875, SCALE as int, t.raw as int);
        lemma_fmul_mono(0, HALF as int, t.raw as int);
        lemma_fmul_mono(0, 45875, t.raw as int);
        lemma_fmul_mono(0, SCALE as int, t.raw as int);
        lemma_fmul_mono(0, SCALE as int, om.raw as int);
    }
    white.scale(om).add(blue.scale(t))
}

impl Camera {
    /// Derives a camera from its configuration, rejecting dimensions and
    /// view setups that would propagate degenerate values. `tan_half_fov`
    /// is the tangent of half the vertical field of view.
    pub fn new(
        aspect_ratio: Fx,
        image_width: u64,
        samples_per_pixel: u64,
        max_depth: u64,
        tan_half_fov: Fx,
        look_from: Point3,
        look_at: Point3,
        view_up: Vec3,
        aperture: Fx,
        focus_distance: Fx,
    ) -> (r: Result<Camera, ConfigError>)
        requires
            0 < aspect_ratio.raw <= 16777216,
            image_width <= 16384,
            1 <= samples_per_pixel <= 65536,
            0 < tan_half_fov.raw <= 1048576,
            v3_mag_le(look_from, CAM_POS_LIMIT as int),
            v3_mag_le(look_at, CAM_POS_LIMIT as int),
            v3_mag_le(view_up, 1048576),
            0 <= aperture.raw <= 1048576,
            0 < focus_distance.raw <= 16777216,
        ensures
            ({
                let err = camera_error_spec(
                    aspect_ratio.raw as int,
                    image_width as int,
                    tan_half_fov.raw as int,
                    look_from,
                    look_at,
                    view_up,
                    focus_distance.raw as int,
                );
                match r {
                    Ok(c) => err is None && camera_wf(c) && c.image_width == image_width
                        && c.image_height as int == height_of(
                        image_width as int,
                        aspect_ratio.raw as int,
                    ) && c.samples_per_pixel == samples_per_pixel && c.max_depth == max_depth
                        && c.origin == look_from && c.u == cam_u(
                        view_up,
                        cam_w(look_from, look_at),
                    ) && c.v == cross_spec(cam_w(look_from, look_at), c.u) && c.horizontal
                        == scale_spec(
                        c.u,
                        cam_fw(
                            tan_half_fov.raw as int,
                            aspect_ratio.raw as int,
                            focus_distance.raw as int,
                        ),
                    ) && c.vertical == scale_spec(
                        neg_spec(c.v),
                        cam_fh(tan_half_fov.raw as int, focus_distance.raw as int),
                    ) && c.upper_left_corner == sub_spec(
                        sub_spec(
                            sub_spec(
                                look_from,
                                scale_spec(cam_w(look_from, look_at), focus_distance.raw as int),
                            ),
                            scale_spec(c.horizontal, HALF as int),
                        ),
                        scale_spec(c.vertical, HALF as int),
                    ) && c.lens_radius.raw == fmul(aperture.raw as int, HALF as int),
                    Err(e) => err == Some(e),
                }
            }),
    {
        if image_width < 2 {
            return Err(ConfigError::InvalidDimensions);
        }
        proof {
            lemma_fdiv_mag(image_width as int * SCALE, aspect_ratio.raw as int, 1073741824);
        }
        let wfx = Fx::from_int(image_width as i64);
        let hfx = wfx.div(aspect_ratio);
        proof {
            vstd::arithmetic::div_mod::lemma_div_pos_is_pos(
                (image_width as int * SCALE) * SCALE,
                aspect_ratio.raw as int,
            );
        }
        let image_height: u64 = ((hfx.raw as u128) / 65536) as u64;
        if image_height < 2 || image_height > 16384 {
            return Err(ConfigError::InvalidDimensions);
        }
        let viewport_height = tan_half_fov.add(tan_half_fov);
        proof {
            lemma_fmul_mag(viewport_height.raw as int, aspect_ratio.raw as int, 2097152, 16777216);
        }
        let viewport_width = viewport_height.mul(aspect_ratio);

        let w = look_from.sub(look_at).normalize();
        if w.near_zero() || !w.in_envelope(UNIT_ENV) {
            return Err(ConfigError::DegenerateView);
        }
        let cu = cross(view_up, w);
        proof {
            lemma_fmul_mag(view_up.x.raw as int, w.y.raw as int, 1048576, UNIT_ENV as int);
            lemma_fmul_mag(view_up.x.raw as int, w.z.raw as int, 1048576, UNIT_ENV as int);
            lemma_fmul_mag(view_up.y.raw as int, w.x.raw as int, 1048576, UNIT_ENV as int);
            lemma_fmul_mag(view_up.y.raw as int, w.z.raw as int, 1048576, UNIT_ENV as int);
            lemma_fmul_mag(view_up.z.raw as int, w.x.raw as int, 1048576, UNIT_ENV as int);
            lemma_fmul_mag(view_up.z.raw as int, w.y.raw as int, 1048576, UNIT_ENV as int);
        }
        let u = cu.normalize();
        if u.near_zero() || !u.in_envelope(UNIT_ENV) {
            return Err(ConfigError::DegenerateView);
        }
        proof {
            lemma_fmul_prod_limit(u.y.raw as int, w.z.raw as int);
            lemma_fmul_mag(w.x.raw as int, u.y.raw as int, UNIT_ENV as int, UNIT_ENV as int);
            lemma_fmul_mag(w.x.raw as int, u.z.raw as int, UNIT_ENV as int, UNIT_ENV as int);
            lemma_fmul_mag(w.y.raw as int, u.x.raw as int, UNIT_ENV as int, UNIT_ENV as int);
            lemma_fmul_mag(w.y.raw as int, u.z.raw as int, UNIT_ENV as int, UNIT_ENV as int);
            lemma_fmul_mag(w.z.raw as int, u.x.raw as int, UNIT_ENV as int, UNIT_ENV as int);
            lemma_fmul_mag(w.z.raw as int, u.y.raw as int, UNIT_ENV as int, UNIT_ENV as int);
        }
        let v = cross(w, u);

        let origin = look_from;
        proof {
            lemma_fmul_mag(focus_distance.raw as int, viewport_width.raw as int, 16777216, 549755813888);
            lemma_fmul_mag(focus_distance.raw as int, viewport_height.raw as int, 16777216, 2097152);
        }
        let fw = focus_distance.mul(viewport_width);
        let fh = focus_distance.mul(viewport_height);
        if fw.raw > MUL_LIMIT || fw.raw < 0 || fh.raw > MUL_LIMIT || fh.raw < 0 {
            return Err(ConfigError::DegenerateView);
        }
        proof {
            lemma_fmul_prod_limit(u.x.raw as int, fw.raw as int);
            lemma_fmul_prod_limit(u.y.raw as int, fw.raw as int);
            lemma_fmul_prod_limit(u.z.raw as int, fw.raw as int);
            lemma_fmul_prod_limit(v.x.raw as int, fh.raw as int);
            lemma_fmul_prod_limit(v.y.raw as int, fh.raw as int);
            lemma_fmul_prod_limit(v.z.raw as int, fh.raw as int);
        }
        let horizontal = u.scale(fw);
        let vertical = v.neg().scale(fh);
        if !horizontal.in_envelope(CAM_VEC_LIMIT) || !vertical.in_envelope(CAM_VEC_LIMIT) {
            return Err(ConfigError::DegenerateView);
        }
        proof {
            lemma_fmul_mag(w.x.raw as int, focus_distance.raw as int, UNIT_ENV as int, 16777216);
            lemma_fmul_mag(w.y.raw as int, focus_distance.raw as int, UNIT_ENV as int, 16777216);
            lemma_fmul_mag(w.z.raw as int, focus_distance.raw as int, UNIT_ENV as int, 16777216);
            lemma_fmul_mag(horizontal.x.raw as int, HALF as int, CAM_VEC_LIMIT as int, HALF as int);
            lemma_fmul_mag(horizontal.y.raw as int, HALF as int, CAM_VEC_LIMIT as int, HALF as int);
            lemma_fmul_mag(horizontal.z.raw as int, HALF as int, CAM_VEC_LIMIT as int, HALF as int);
            lemma_fmul_mag(vertical.x.raw as int, HALF as int, CAM_VEC_LIMIT as int, HALF as int);
            lemma_fmul_mag(vertical.y.raw as int, HALF as int, CAM_VEC_LIMIT as int, HALF as int);
            lemma_fmul_mag(vertical.z.raw as int, HALF as int, CAM_VEC_LIMIT as int, HALF as int);
        }
        let half = Fx { raw: HALF };
        let upper_left_corner = origin.sub(w.scale(focus_distance)).sub(horizontal.scale(half)).sub(
            vertical.scale(half),
        );
        if !upper_left_corner.in_envelope(CAM_VEC_LIMIT) {
            return Err(ConfigError::DegenerateView);
        }
        proof {
            lemma_fmul_mag(aperture.raw as int, HALF as int, 1048576, HALF as int);
            lemma_fmul_mono(0, aperture.raw as int, HALF as int);
        }
        let lens_radius = aperture.mul(half);
        Ok(
            Camera {
                image_width,
                image_height,
                origin,
                horizontal,
                vertical,
                upper_left_corner,
                samples_per_pixel,
                max_depth,
                lens_radius,
                u,
                v,
            },
        )
    }

    /// Emits one jittered primary ray through pixel `(i, j)`, offsetting the
    /// origin over the lens disk when depth of field is on.
    pub fn get_ray(&self, rng: &mut rand::rngs::StdRng, i: u64, j: u64) -> (r: Ray)
        requires
            camera_wf(*self),
            i < self.image_width,
            j < self.image_height,
        ensures
            ray_wf(r),
            exists|ji: Fx, jj: Fx, dk: Vec3|
                0 <= ji.raw < SCALE && 0 <= jj.raw < SCALE && v3_mag_le(dk, SCALE as int)
                    && dk.z.raw == 0 && r == #[trigger] get_ray_spec(
                    *self,
                    ji.raw as int,
                    jj.raw as int,
                    dk,
                    i as int,
                    j as int,
                ),
    {
        let jit_i = random_double(rng);
        let jit_j = random_double(rng);
        let disk = Vec3::random_in_unit_disk(rng);
        let r = self.get_ray_with(jit_i, jit_j, disk, i, j);
        proof {
            assert(0 <= jit_i.raw < SCALE && 0 <= jit_j.raw < SCALE && v3_mag_le(
                disk,
                SCALE as int,
            ) && disk.z.raw == 0 && r == get_ray_spec(
                *self,
                jit_i.raw as int,
                jit_j.raw as int,
                disk,
                i as int,
                j as int,
            ));
        }
        r
    }

    /// Deterministic core of primary-ray generation, taking the pixel
    /// jitters and the lens-disk sample as arguments.
    pub fn get_ray_with(&self, jit_i: Fx, jit_j: Fx, disk: Vec3, i: u64, j: u64) -> (r: Ray)
        requires
            camera_wf(*self),
            i < self.image_width,
            j < self.image_height,
            0 <= jit_i.raw < SCALE,
            0 <= jit_j.raw < SCALE,
            v3_mag_le(disk, SCALE as int),
        ensures
            r == get_ray_spec(*self, jit_i.raw as int, jit_j.raw as int, disk, i as int, j as int),
            ray_wf(r),
    {
        let ifx = Fx::from_int(i as i64);
        let jfx = Fx::from_int(j as i64);
        let wm1 = Fx::from_int((self.image_width - 1) as i64);
        let hm1 = Fx::from_int((self.image_height - 1) as i64);
        proof {
            assert(ifx.raw == i * (SCALE as int));
            assert(wm1.raw == (self.image_width - 1) * (SCALE as int));
            assert(ifx.raw + jit_i.raw <= 2 * wm1.raw);
            assert(jfx.raw == j * (SCALE as int));
            assert(hm1.raw == (self.image_height - 1) * (SCALE as int));
            assert(jfx.raw + jit_j.raw <= 2 * hm1.raw) by (nonlinear_arith)
                requires
                    jfx.raw == j * 65536,
                    hm1.raw == (self.image_height - 1) * 65536,
                    j < self.image_height,
                    2 <= self.image_height,
                    0 <= jit_j.raw < 65536,
            ;
            lemma_fdiv_le_k(ifx.raw + jit_i.raw, wm1.raw as int, 2);
            lemma_fdiv_le_k(jfx.raw + jit_j.raw, hm1.raw as int, 2);
        }
        let dh = ifx.add(jit_i).div(wm1);
        let dv = jfx.add(jit_j).div(hm1);
        proof {
            lemma_fmul_mag(disk.x.raw as int, self.lens_radius.raw as int, SCALE as int, BASIS_LIMIT as int);
            lemma_fmul_mag(disk.y.raw as int, self.lens_radius.raw as int, SCALE as int, BASIS_LIMIT as int);
            lemma_fmul_mag(disk.z.raw as int, self.lens_radius.raw as int, SCALE as int, BASIS_LIMIT as int);
        }
        let rd = disk.scale(self.lens_radius);
        proof {
            lemma_fmul_mag(self.u.x.raw as int, rd.x.raw as int, BASIS_LIMIT as int, BASIS_LIMIT as int);
            lemma_fmul_mag(self.u.y.raw as int, rd.x.raw as int, BASIS_LIMIT as int, BASIS_LIMIT as int);
            lemma_fmul_mag(self.u.z.raw as int, rd.x.raw as int, BASIS_LIMIT as int, BASIS_LIMIT as int);
            lemma_fmul_mag(self.v.x.raw as int, rd.y.raw as int, BASIS_LIMIT as int, BASIS_LIMIT as int);
            lemma_fmul_mag(self.v.y.raw as int, rd.y.raw as int, BASIS_LIMIT as int, BASIS_LIMIT as int);
            lemma_fmul_mag(self.v.z.raw as int, rd.y.raw as int, BASIS_LIMIT as int, BASIS_LIMIT as int);
        }
        let offset = self.u.scale(rd.x()).add(self.v.scale(rd.y()));
        proof {
            lemma_fmul_mag(self.horizontal.x.raw as int, dh.raw as int, CAM_VEC_LIMIT as int, 131072);
            lemma_fmul_mag(self.horizontal.y.raw as int, dh.raw as int, CAM_VEC_LIMIT as int, 131072);
            lemma_fmul_mag(self.horizontal.z.raw as int, dh.raw as int, CAM_VEC_LIMIT as int, 131072);
            lemma_fmul_mag(self.vertical.x.raw as int, dv.raw as int, CAM_VEC_LIMIT as int, 131072);
            lemma_fmul_mag(self.vertical.y.raw as int, dv.raw as int, CAM_VEC_LIMIT as int, 131072);
            lemma_fmul_mag(self.vertical.z.raw as int, dv.raw as int, CAM_VEC_LIMIT as int, 131072);
        }
        let direction = self.upper_left_corner.add(self.horizontal.scale(dh)).add(
            self.vertical.scale(dv),
        ).sub(self.origin).sub(offset);
        Ray { origin: self.origin.add(offset), direction }
    }

    /// The path tracing kernel. A zero depth budget resolves to black; a
    /// miss resolves to the background gradient; a hit defers to the struck
    /// material and recurses with one less bounce, tinting the result.
    pub fn ray_color(ray: &Ray, world: &HittableList, depth: u64, rng: &mut rand::rngs::StdRng)
        -> (r: Color)
        requires
            ray_wf(*ray),
            list_wf(*world),
        ensures
            color_wf(r),
            depth == 0 ==> r == zero_spec(),
            depth > 0 && nearest_hit_spec(
                world.objects@,
                *ray,
                SHADOW_EPS as int,
                POS_LIMIT as int,
            ) is None ==> r == background_spec(*ray),
            depth == 1 && nearest_hit_spec(
                world.objects@,
                *ray,
                SHADOW_EPS as int,
                POS_LIMIT as int,
            ) is Some ==> r == zero_spec(),
        decreases depth,
    {
        if depth == 0 {
            return Vec3::origin();
        }
        let tmin = Fx { raw: SHADOW_EPS };
        let tmax = infinity();
        match world.hit(ray, tmin, tmax) {
            Some(rec) => {
                match rec.material.scatter(rng, ray, &rec) {
                    Some((attenuation, scattered)) => {
                        let inner = Camera::ray_color(&scattered, world, depth - 1, rng);
                        proof {
                            lemma_fmul_unit(attenuation.x.raw as int, inner.x.raw as int);
                            lemma_fmul_unit(attenuation.y.raw as int, inner.y.raw as int);
                            lemma_fmul_unit(attenuation.z.raw as int, inner.z.raw as int);
                            if depth == 1 {
                                lemma_fmul_mag(attenuation.x.raw as int, 0, SCALE as int, 0);
                                lemma_fmul_mag(attenuation.y.raw as int, 0, SCALE as int, 0);
                                lemma_fmul_mag(attenuation.z.raw as int, 0, SCALE as int, 0);
                            }
                        }
                        attenuation.comp_mul(inner)
                    },
                    None => Vec3::origin(),
                }
            },
            None => background(ray),
        }
    }

    /// Renders one scanline: the quantized pixels of row `j`, left to
    /// right. A parallel driver can map rows over independent seeded
    /// streams and concatenate them in order.
    pub fn render_row(&self, world: &HittableList, j: u64, rng: &mut rand::rngs::StdRng) -> (row:
        Vec<(u8, u8, u8)>)
        requires
            camera_wf(*self),
            list_wf(*world),
            j < self.image_height,
        ensures
            row@.len() == self.image_width,
            self.max_depth == 0 ==> forall|k: int|
                0 <= k < row@.len() ==> row@[k] == (0u8, 0u8, 0u8),
    {
        let mut row: Vec<(u8, u8, u8)> = Vec::new();
        let mut i: u64 = 0;
        while i < self.image_width
            invariant
                camera_wf(*self),
                list_wf(*world),
                j < self.image_height,
                i <= self.image_width,
                row@.len() == i,
                self.max_depth == 0 ==> forall|k: int|
                    0 <= k < row@.len() ==> row@[k] == (0u8, 0u8, 0u8),
            decreases self.image_width - i,
        {
            let mut pixel_color = Vec3::origin();
            let mut s: u64 = 0;
            while s < self.samples_per_pixel
                invariant
                    camera_wf(*self),
                    list_wf(*world),
                    i < self.image_width,
                    j < self.image_height,
                    s <= self.samples_per_pixel,
                    0 <= pixel_color.x.raw <= s * SCALE,
                    0 <= pixel_color.y.raw <= s * SCALE,
                    0 <= pixel_color.z.raw <= s * SCALE,
                    self.max_depth == 0 ==> pixel_color == zero_spec(),
                decreases self.samples_per_pixel - s,
            {
                let ray = self.get_ray(rng, i, j);
                let sample = Camera::ray_color(&ray, world, self.max_depth, rng);
                pixel_color = pixel_color.add(sample);
                s = s + 1;
            }
            let px = pixel_color.format_color(self.samples_per_pixel);
            proof {
                if self.max_depth == 0 {
                    vstd::arithmetic::div_mod::lemma_div_of0(
                        self.samples_per_pixel * (SCALE as int),
                    );
                    assert(px == (0u8, 0u8, 0u8));
                }
            }
            row.push(px);
            i = i + 1;
        }
        row
    }

    /// Renders the scene into a pixel grid: row-major, top row first, each
    /// pixel the gamma-adjusted average of its samples.
    pub fn render(&self, world: &HittableList, rng: &mut rand::rngs::StdRng) -> (r: Image)
        requires
            camera_wf(*self),
            list_wf(*world),
        ensures
            r.width == self.image_width,
            r.height == self.image_height,
            r.pixels@.len() == self.image_width * self.image_height,
            self.max_depth == 0 ==> forall|k: int|
                0 <= k < r.pixels@.len() ==> r.pixels@[k] == (0u8, 0u8, 0u8),
    {
        let mut pixels: Vec<(u8, u8, u8)> = Vec::new();
        let mut j: u64 = 0;
        while j < self.image_height
            invariant
                camera_wf(*self),
                list_wf(*world),
                j <= self.image_height,
                pixels@.len() == j * self.image_width,
                self.max_depth == 0 ==> forall|k: int|
                    0 <= k < pixels@.len() ==> pixels@[k] == (0u8, 0u8, 0u8),
            decreases self.image_height - j,
        {
            let mut row = self.render_row(world, j, rng);
            pixels.append(&mut row);
            j = j + 1;
            proof {
                assert(j * self.image_width == (j - 1) * self.image_width + self.image_width)
                    by (nonlinear_arith);
            }
        }
        proof {
            assert(self.image_height * self.image_width == self.image_width * self.image_height)
                by (nonlinear_arith);
        }
        Image { width: self.image_width, height: self.image_height, pixels }
    }
}

} // verus!
