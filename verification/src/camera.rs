//! The camera: an orthonormal viewing basis built once, and per-sample
//! ray generation with lens defocus and shutter-time sampling.  The
//! tangent of the half field of view is supplied by the caller, as all
//! trigonometry happens outside this crate.

use vstd::prelude::*;
use crate::fixed::{abs_i, fmul, mul_fx, div_floor, SCALE};
use crate::vec3::{Vec3, spec_add, spec_sub, spec_scale, spec_cross, spec_sq_len, spec_unit, bounded_vec};
use crate::ray::{Ray, lemma_fmul_abs};
use crate::rng::{rng_below, random_in_unit_disk};
use crate::hittable::{GEOM_LIMIT, SCENE_ROOM, lemma_fmul_unit};

verus! {

#[derive(Clone, Copy, PartialEq, Eq, Structural, Debug)]
pub struct Camera {
    pub lower_left_corner: Vec3,
    pub horizontal: Vec3,
    pub vertical: Vec3,
    pub origin: Vec3,
    pub u: Vec3,
    pub v: Vec3,
    pub lens_radius: i64,
    pub time0: i64,
    pub time1: i64,
}

/// Bounds under which every generated ray stays within the scene room.
pub open spec fn camera_wf(c: Camera) -> bool {
    &&& bounded_vec(c.lower_left_corner, 0x400_0000)
    &&& bounded_vec(c.horizontal, 0x400_0000)
    &&& bounded_vec(c.vertical, 0x400_0000)
    &&& bounded_vec(c.origin, 0x100_0000)
    &&& bounded_vec(c.u, 8 * (SCALE as int))
    &&& bounded_vec(c.v, 8 * (SCALE as int))
    &&& 0 <= c.lens_radius <= 0x10_0000
    &&& abs_i(c.time0 as int) <= GEOM_LIMIT as int
    &&& abs_i(c.time1 as int) <= GEOM_LIMIT as int
    &&& c.time0 <= c.time1
}

/// The ray for screen coordinates (s, t), a lens-disk sample d and a
/// shutter fraction tm.
pub open spec fn spec_get_ray(c: Camera, s: int, t: int, d: Vec3, tm: int) -> Ray {
    let rd = spec_scale(d, c.lens_radius as int);
    let offset = spec_add(spec_scale(c.u, rd.x as int), spec_scale(c.v, rd.y as int));
    Ray {
        origin: spec_add(c.origin, offset),
        direction: spec_sub(
            spec_sub(
                spec_add(
                    spec_add(c.lower_left_corner, spec_scale(c.horizontal, s)),
                    spec_scale(c.vertical, t),
                ),
                c.origin,
            ),
            offset,
        ),
        time: (c.time0 + fmul(tm, c.time1 - c.time0)) as i64,
    }
}

impl Camera {
    /// Builds the viewing basis.  half_height is tan of half the
    /// vertical field of view, in fixed point; the shutter is open over
    /// [time0, time1].
    #[verifier::rlimit(100)]
    pub fn new(
        lookfrom: Vec3,
        lookat: Vec3,
        vup: Vec3,
        half_height: i64,
        aspect: i64,
        aperture: i64,
        focus_dist: i64,
        time0: i64,
        time1: i64,
    ) -> (c: Camera)
        requires
            bounded_vec(lookfrom, 0x80_0000),
            bounded_vec(lookat, 0x80_0000),
            bounded_vec(vup, 16 * (SCALE as int)),
            spec_sq_len(spec_sub(lookfrom, lookat)) > 0,
            spec_sq_len(
                spec_cross(vup, spec_unit(spec_sub(lookfrom, lookat))),
            ) > 0,
            0 < half_height <= 2 * SCALE,
            0 < aspect <= 2 * SCALE,
            0 <= aperture <= 0x20_0000,
            16 <= focus_dist <= 0x10_0000,
            abs_i(time0 as int) <= GEOM_LIMIT as int,
            abs_i(time1 as int) <= GEOM_LIMIT as int,
            time0 <= time1,
        ensures
            camera_wf(c),
            c.origin == lookfrom,
            c.time0 == time0,
            c.time1 == time1,
            c.lens_radius == aperture as int / 2,
            ({
                let w = spec_unit(spec_sub(lookfrom, lookat));
                let cu = spec_unit(spec_cross(vup, w));
                let cv = spec_cross(w, cu);
                let half_width = fmul(aspect as int, half_height as int);
                let fw = fmul(focus_dist as int, half_width);
                let fh = fmul(focus_dist as int, half_height as int);
                &&& c.u == cu
                &&& c.v == cv
                &&& c.horizontal == spec_scale(cu, 2 * fw)
                &&& c.vertical == spec_scale(cv, 2 * fh)
                &&& c.lower_left_corner == spec_sub(
                    spec_sub(spec_sub(lookfrom, spec_scale(cu, fw)), spec_scale(cv, fh)),
                    spec_scale(w, focus_dist as int),
                )
            }),
    {
        let lens_radius = div_floor(aperture, 2);
        proof {
            lemma_fmul_abs(aspect as int, half_height as int, 131072, 131072);
            lemma_fmul_abs(focus_dist as int, fmul(aspect as int, half_height as int), 0x10_0000, 262144);
            lemma_fmul_abs(focus_dist as int, half_height as int, 0x10_0000, 131072);
        }
        let half_width = mul_fx(aspect, half_height);
        let diff = lookfrom.sub(lookat);
        proof {
            lemma_fmul_abs(diff.x as int, diff.x as int, 0x200_0000, 0x200_0000);
            lemma_fmul_abs(diff.y as int, diff.y as int, 0x200_0000, 0x200_0000);
            lemma_fmul_abs(diff.z as int, diff.z as int, 0x200_0000, 0x200_0000);
        }
        let w = diff.unit_vector();
        proof {
            lemma_fmul_abs(vup.y as int, w.z as int, 0x10_0000, 131072);
            lemma_fmul_abs(vup.z as int, w.y as int, 0x10_0000, 131072);
            lemma_fmul_abs(vup.x as int, w.z as int, 0x10_0000, 131072);
            lemma_fmul_abs(vup.z as int, w.x as int, 0x10_0000, 131072);
            lemma_fmul_abs(vup.x as int, w.y as int, 0x10_0000, 131072);
            lemma_fmul_abs(vup.y as int, w.x as int, 0x10_0000, 131072);
        }
        let crossed = vup.cross(w);
        proof {
            lemma_fmul_abs(crossed.x as int, crossed.x as int, 0x80_0000, 0x80_0000);
            lemma_fmul_abs(crossed.y as int, crossed.y as int, 0x80_0000, 0x80_0000);
            lemma_fmul_abs(crossed.z as int, crossed.z as int, 0x80_0000, 0x80_0000);
        }
        let cu = crossed.unit_vector();
        proof {
            lemma_fmul_abs(w.y as int, cu.z as int, 131072, 131072);
            lemma_fmul_abs(w.z as int, cu.y as int, 131072, 131072);
            lemma_fmul_abs(w.x as int, cu.z as int, 131072, 131072);
            lemma_fmul_abs(w.z as int, cu.x as int, 131072, 131072);
            lemma_fmul_abs(w.x as int, cu.y as int, 131072, 131072);
            lemma_fmul_abs(w.y as int, cu.x as int, 131072, 131072);
        }
        let cv = w.cross(cu);
        let fw = mul_fx(focus_dist, half_width);
        let fh = mul_fx(focus_dist, half_height);
        proof {
            assert(bounded_vec(cu, 131072) && bounded_vec(cv, 524288) && bounded_vec(
                w,
                131072,
            ));
            lemma_fmul_abs(w.x as int, focus_dist as int, 131072, 0x10_0000);
            lemma_fmul_abs(w.y as int, focus_dist as int, 131072, 0x10_0000);
            lemma_fmul_abs(w.z as int, focus_dist as int, 131072, 0x10_0000);
            lemma_fmul_abs(cu.x as int, fw as int, 131072, 0x40_0000);
            lemma_fmul_abs(cu.y as int, fw as int, 131072, 0x40_0000);
            lemma_fmul_abs(cu.z as int, fw as int, 131072, 0x40_0000);
            lemma_fmul_abs(cv.x as int, fh as int, 524288, 0x40_0000);
            lemma_fmul_abs(cv.y as int, fh as int, 524288, 0x40_0000);
            lemma_fmul_abs(cv.z as int, fh as int, 524288, 0x40_0000);
            lemma_fmul_abs(cu.x as int, 2 * fw as int, 131072, 0x80_0000);
            lemma_fmul_abs(cu.y as int, 2 * fw as int, 131072, 0x80_0000);
            lemma_fmul_abs(cu.z as int, 2 * fw as int, 131072, 0x80_0000);
            lemma_fmul_abs(cv.x as int, 2 * fh as int, 524288, 0x80_0000);
            lemma_fmul_abs(cv.y as int, 2 * fh as int, 524288, 0x80_0000);
            lemma_fmul_abs(cv.z as int, 2 * fh as int, 524288, 0x80_0000);
        }
        let lower_left_corner = lookfrom.sub(cu.scale(fw)).sub(cv.scale(fh)).sub(
            w.scale(focus_dist),
        );
        let horizontal = cu.scale(2 * fw);
        let vertical = cv.scale(2 * fh);
        Camera {
            lower_left_corner,
            horizontal,
            vertical,
            origin: lookfrom,
            u: cu,
            v: cv,
            lens_radius,
            time0,
            time1,
        }
    }

    /// One primary ray through normalized screen coordinates (s, t),
    /// with defocus from a lens-disk sample and a shutter time drawn
    /// uniformly from the camera's span.
    #[verifier::rlimit(100)]
    pub fn get_ray(&self, s: i64, t: i64, rng: &mut rand::rngs::StdRng) -> (r: Ray)
        requires
            camera_wf(*self),
            0 <= s <= SCALE,
            0 <= t <= SCALE,
        ensures
            exists|d: Vec3, tm: int|
                crate::material::spec_in_ball(d) && d.z == 0 && 0 <= tm < SCALE as int && r
                    == #[trigger] spec_get_ray(*self, s as int, t as int, d, tm),
            bounded_vec(r.origin, SCENE_ROOM as int),
            bounded_vec(r.direction, SCENE_ROOM as int),
            self.time0 <= r.time <= self.time1,
            abs_i(r.time as int) <= GEOM_LIMIT as int,
    {
        let d = random_in_unit_disk(rng);
        proof {
            lemma_fmul_unit(d.x as int, self.lens_radius as int);
            lemma_fmul_unit(d.y as int, self.lens_radius as int);
            lemma_fmul_unit(d.z as int, self.lens_radius as int);
        }
        let rd = d.scale(self.lens_radius);
        proof {
            lemma_fmul_abs(self.u.x as int, rd.x as int, 524288, 0x10_0000);
            lemma_fmul_abs(self.u.y as int, rd.x as int, 524288, 0x10_0000);
            lemma_fmul_abs(self.u.z as int, rd.x as int, 524288, 0x10_0000);
            lemma_fmul_abs(self.v.x as int, rd.y as int, 524288, 0x10_0000);
            lemma_fmul_abs(self.v.y as int, rd.y as int, 524288, 0x10_0000);
            lemma_fmul_abs(self.v.z as int, rd.y as int, 524288, 0x10_0000);
        }
        let offset = self.u.scale(rd.x).add(self.v.scale(rd.y));
        proof {
            lemma_fmul_unit(s as int, self.horizontal.x as int);
            lemma_fmul_unit(s as int, self.horizontal.y as int);
            lemma_fmul_unit(s as int, self.horizontal.z as int);
            lemma_fmul_unit(t as int, self.vertical.x as int);
            lemma_fmul_unit(t as int, self.vertical.y as int);
            lemma_fmul_unit(t as int, self.vertical.z as int);
        }
        let tm = rng_below(rng, 65536) as i64;
        proof {
            lemma_fmul_unit(tm as int, (self.time1 - self.time0) as int);
            assert(fmul(tm as int, (self.time1 - self.time0) as int) >= 0) by (nonlinear_arith)
                requires
                    tm >= 0,
                    self.time1 - self.time0 >= 0,
                    fmul(tm as int, (self.time1 - self.time0) as int) == crate::fixed::tdiv(
                        tm as int * (self.time1 - self.time0) as int,
                        65536,
                    ),
            {
            }
        }
        let time = self.time0 + mul_fx(tm, self.time1 - self.time0);
        let origin = self.origin.add(offset);
        let direction = self.lower_left_corner.add(self.horizontal.scale(s)).add(
            self.vertical.scale(t),
        ).sub(self.origin).sub(offset);
        let r = Ray::new(origin, direction, time);
        proof {
            assert(crate::material::spec_in_ball(d) && d.z == 0 && 0 <= tm < SCALE as int && r
                == spec_get_ray(*self, s as int, t as int, d, tm as int));
        }
        r
    }
}

} // verus!
