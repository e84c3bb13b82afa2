//! Parametric rays and the reflection/refraction helpers of the material
//! model.

use vstd::prelude::*;
use crate::fixed::{abs_i, fmul, fdiv, sqrt_i, is_sqrt, mul_fx, div_fx, sqrt_fx, lemma_mul_bound, lemma_tdiv_bound, SCALE};
use crate::vec3::{Vec3, dot, spec_add, spec_sub, spec_scale, spec_dot, spec_sq_len, spec_unit, bounded_vec};

verus! {

#[derive(Clone, Copy, PartialEq, Eq, Structural, Debug)]
pub struct Ray {
    pub origin: Vec3,
    pub direction: Vec3,
    pub time: i64,
}

/// The point reached after travelling the parameter t along the ray.
pub open spec fn spec_point_at(r: Ray, t: int) -> Vec3 {
    spec_add(r.origin, spec_scale(r.direction, t))
}

/// All six overflow conditions of evaluating a ray at parameter t.
pub open spec fn point_at_fits(r: Ray, t: int) -> bool {
    &&& abs_i(fmul(r.direction.x as int, t)) <= i64::MAX as int
    &&& abs_i(fmul(r.direction.y as int, t)) <= i64::MAX as int
    &&& abs_i(fmul(r.direction.z as int, t)) <= i64::MAX as int
    &&& abs_i(r.origin.x + fmul(r.direction.x as int, t)) <= i64::MAX as int
    &&& abs_i(r.origin.y + fmul(r.direction.y as int, t)) <= i64::MAX as int
    &&& abs_i(r.origin.z + fmul(r.direction.z as int, t)) <= i64::MAX as int
}

impl Ray {
    pub fn new(origin: Vec3, direction: Vec3, time: i64) -> (r: Ray)
        ensures
            r == (Ray { origin, direction, time }),
    {
        Ray { origin, direction, time }
    }

    pub fn point_at_parameter(&self, t: i64) -> (p: Vec3)
        requires
            point_at_fits(*self, t as int),
        ensures
            p == spec_point_at(*self, t as int),
    {
        self.origin.add(self.direction.scale(t))
    }

    pub fn default() -> (r: Ray)
        ensures
            r == (Ray {
                origin: Vec3 { x: 0, y: 0, z: 0 },
                direction: Vec3 { x: 0, y: 0, z: 0 },
                time: 0,
            }),
    {
        Ray::new(Vec3::new(0, 0, 0), Vec3::new(0, 0, 0), 0)
    }
}

/// |fmul(a, b)| <= x*y/SCALE whenever |a| <= x and |b| <= y.
pub proof fn lemma_fmul_abs(a: int, b: int, x: int, y: int)
    requires
        abs_i(a) <= x,
        abs_i(b) <= y,
    ensures
        abs_i(fmul(a, b)) <= x * y / (SCALE as int),
{
    let s = SCALE as int;
    lemma_mul_bound(a, b, x, y);
    lemma_tdiv_bound(a * b, s);
    assert(abs_i(a * b) / s <= x * y / s) by (nonlinear_arith)
        requires
            0 <= abs_i(a * b) <= x * y,
            s == 65536,
    {
    }
}

/// Mirror reflection of v about the normal n.
pub open spec fn spec_reflect(v: Vec3, n: Vec3) -> Vec3 {
    spec_sub(v, spec_scale(n, 2 * spec_dot(v, n)))
}

pub fn reflect(v: &Vec3, n: &Vec3) -> (r: Vec3)
    requires
        bounded_vec(*v, 0x1_0000_0000),
        bounded_vec(*n, 262144),
    ensures
        r == spec_reflect(*v, *n),
{
    proof {
        lemma_fmul_abs(v.x as int, n.x as int, 0x1_0000_0000, 262144);
        lemma_fmul_abs(v.y as int, n.y as int, 0x1_0000_0000, 262144);
        lemma_fmul_abs(v.z as int, n.z as int, 0x1_0000_0000, 262144);
    }
    let d = dot(v, n);
    proof {
        assert(abs_i(2 * spec_dot(*v, *n)) <= 0x18_0000_0000);
        lemma_fmul_abs(n.x as int, 2 * spec_dot(*v, *n), 262144, 0x18_0000_0000);
        lemma_fmul_abs(n.y as int, 2 * spec_dot(*v, *n), 262144, 0x18_0000_0000);
        lemma_fmul_abs(n.z as int, 2 * spec_dot(*v, *n), 262144, 0x18_0000_0000);
    }
    v.sub(n.scale(2 * d))
}

/// Snell refraction of v through a surface with outward normal n and
/// relative index ratio eta (fixed point): None on total internal
/// reflection, i.e. when the discriminant is not positive.
pub open spec fn spec_refract(v: Vec3, n: Vec3, eta: int) -> Option<Vec3> {
    let uv = spec_unit(v);
    let dt = spec_dot(uv, n);
    let disc = (SCALE as int) - fmul(fmul(eta, eta), (SCALE as int) - fmul(dt, dt));
    if disc > 0 {
        Some(
            spec_sub(
                spec_scale(spec_sub(uv, spec_scale(n, dt)), eta),
                spec_scale(n, sqrt_i(disc * (SCALE as int))),
            ),
        )
    } else {
        None
    }
}

pub fn refract(v: &Vec3, n: &Vec3, ni_over_nt: i64) -> (r: Option<Vec3>)
    requires
        spec_sq_len(*v) > 0,
        spec_sq_len(*v) * (SCALE as int) <= u64::MAX as int,
        bounded_vec(*v, 0x1000_0000_0000),
        bounded_vec(*n, 131072),
        0 < ni_over_nt <= 524288,
    ensures
        r == spec_refract(*v, *n, ni_over_nt as int),
        r matches Some(w) ==> bounded_vec(w, 0x2000_0000),
{
    let ghost eta = ni_over_nt as int;
    let uv = v.unit_vector();
    proof {
        lemma_fmul_abs(uv.x as int, n.x as int, 131072, 131072);
        lemma_fmul_abs(uv.y as int, n.y as int, 131072, 131072);
        lemma_fmul_abs(uv.z as int, n.z as int, 131072, 131072);
    }
    let dt = dot(&uv, n);
    proof {
        assert(abs_i(dt as int) <= 786432);
        lemma_fmul_abs(dt as int, dt as int, 786432, 786432);
        lemma_fmul_abs(eta, eta, 524288, 524288);
    }
    let inner = SCALE - mul_fx(dt, dt);
    let eta2 = mul_fx(ni_over_nt, ni_over_nt);
    proof {
        assert(abs_i(inner as int) <= 9502720);
        lemma_fmul_abs(eta2 as int, inner as int, 4194304, 9502720);
    }
    let discriminant = SCALE - mul_fx(eta2, inner);
    if discriminant > 0 {
        let root = sqrt_fx(discriminant);
        proof {
            assert(root as int <= 6356992) by (nonlinear_arith)
                requires
                    is_sqrt(discriminant as int * 65536, root as int),
                    0 < discriminant <= 608239616,
            {
            }
            lemma_fmul_abs(n.x as int, dt as int, 131072, 786432);
            lemma_fmul_abs(n.y as int, dt as int, 131072, 786432);
            lemma_fmul_abs(n.z as int, dt as int, 131072, 786432);
        }
        let shifted = uv.sub(n.scale(dt));
        proof {
            assert(bounded_vec(shifted, 1703936));
            lemma_fmul_abs(shifted.x as int, eta, 1703936, 524288);
            lemma_fmul_abs(shifted.y as int, eta, 1703936, 524288);
            lemma_fmul_abs(shifted.z as int, eta, 1703936, 524288);
            lemma_fmul_abs(n.x as int, root as int, 131072, 6356992);
            lemma_fmul_abs(n.y as int, root as int, 131072, 6356992);
            lemma_fmul_abs(n.z as int, root as int, 131072, 6356992);
        }
        Some(shifted.scale(ni_over_nt).sub(n.scale(root)))
    } else {
        None
    }
}

/// The Schlick polynomial approximation of Fresnel reflectance,
/// in fixed point.
pub open spec fn spec_schlick(cosine: int, ref_idx: int) -> int {
    let s = SCALE as int;
    let r0 = fdiv(s - ref_idx, s + ref_idx);
    let r0sq = fmul(r0, r0);
    let base = s - cosine;
    let p2 = fmul(base, base);
    let p4 = fmul(p2, p2);
    let p5 = fmul(p4, base);
    r0sq + fmul(s - r0sq, p5)
}

pub fn schlick(cosine: i64, ref_idx: i64) -> (r: i64)
    requires
        abs_i(cosine as int) <= 131072,
        0 < ref_idx <= 524288,
    ensures
        r == spec_schlick(cosine as int, ref_idx as int),
{
    proof {
        lemma_tdiv_bound((SCALE as int - ref_idx) * 65536, SCALE as int + ref_idx);
        assert(abs_i((SCALE as int - ref_idx) * 65536) <= 0x7_0000_0000) by (nonlinear_arith)
            requires
                0 < ref_idx <= 524288,
                SCALE == 65536,
        {
        }
        assert(abs_i((SCALE as int - ref_idx) * 65536) / abs_i(SCALE as int + ref_idx)
            <= 0x7_0000_0000) by (nonlinear_arith)
            requires
                abs_i((SCALE as int - ref_idx) * 65536) <= 0x7_0000_0000,
                abs_i(SCALE as int + ref_idx) >= 1,
        {
        }
    }
    let r0 = div_fx(SCALE - ref_idx, SCALE + ref_idx);
    proof {
        lemma_fmul_abs(r0 as int, r0 as int, 0x7_0000_0000, 0x7_0000_0000);
    }
    let r0sq = mul_fx(r0, r0);
    let base = SCALE - cosine;
    proof {
        assert(abs_i(base as int) <= 196608);
        lemma_fmul_abs(base as int, base as int, 196608, 196608);
    }
    let p2 = mul_fx(base, base);
    proof {
        lemma_fmul_abs(p2 as int, p2 as int, 589824, 589824);
    }
    let p4 = mul_fx(p2, p2);
    proof {
        lemma_fmul_abs(p4 as int, base as int, 5308416, 196608);
    }
    let p5 = mul_fx(p4, base);
    proof {
        lemma_fmul_abs(SCALE as int - r0sq as int, p5 as int, 0x32_0000_0000_0000, 15925248);
    }
    r0sq + mul_fx(SCALE - r0sq, p5)
}

} // verus!

verus! {

/// With matched refractive indices (ratio one) refraction leaves the
/// direction unchanged: the refracted ray is exactly the normalized
/// incoming direction.  Stated for entering rays whose squared cosine
/// is an exact fixed-point value; off that grid the per-step truncation
/// can shift the result by single fixed-point steps.
pub proof fn lemma_refract_identity(v: Vec3, n: Vec3)
    requires
        bounded_vec(spec_unit(v), 2 * (SCALE as int)),
        bounded_vec(n, 2 * (SCALE as int)),
        spec_dot(spec_unit(v), n) < 0,
        (spec_dot(spec_unit(v), n) * spec_dot(spec_unit(v), n)) % (SCALE as int) == 0,
    ensures
        spec_refract(v, n, SCALE as int) == Some(spec_unit(v)),
{
    let s = SCALE as int;
    let uv = spec_unit(v);
    let dt = spec_dot(uv, n);
    crate::hittable::lemma_fmul_scale_cases(s - fmul(dt, dt));
    assert(fmul(s, s) == s) by (nonlinear_arith)
        requires
            fmul(s, s) == crate::fixed::tdiv(s * s, s),
            s == 65536,
    {
    }
    assert(dt * dt >= s) by (nonlinear_arith)
        requires
            dt < 0,
            (dt * dt) % s == 0,
            s == 65536,
    {
    }
    assert(fmul(dt, dt) == (dt * dt) / s) by (nonlinear_arith)
        requires
            fmul(dt, dt) == crate::fixed::tdiv(dt * dt, s),
            dt * dt >= 0,
            s == 65536,
    {
    }
    let disc = s - fmul(fmul(s, s), s - fmul(dt, dt));
    assert(disc == fmul(dt, dt));
    assert(disc >= 1);
    assert(disc * s == dt * dt) by (nonlinear_arith)
        requires
            disc == (dt * dt) / s,
            (dt * dt) % s == 0,
            dt * dt >= 0,
            s == 65536,
    {
    }
    assert(is_sqrt(dt * dt, -dt)) by (nonlinear_arith)
        requires
            dt < 0,
    {
    }
    crate::fixed::lemma_sqrt_exists(disc * s);
    crate::fixed::lemma_sqrt_unique(disc * s, sqrt_i(disc * s), -dt);
    lemma_fmul_abs(uv.x as int, n.x as int, 131072, 131072);
    lemma_fmul_abs(uv.y as int, n.y as int, 131072, 131072);
    lemma_fmul_abs(uv.z as int, n.z as int, 131072, 131072);
    assert(abs_i(dt) <= 786432);
    lemma_fmul_abs(n.x as int, dt, 131072, 786432);
    lemma_fmul_abs(n.y as int, dt, 131072, 786432);
    lemma_fmul_abs(n.z as int, dt, 131072, 786432);
    let shifted = spec_sub(uv, spec_scale(n, dt));
    crate::hittable::lemma_fmul_scale_cases(shifted.x as int);
    crate::hittable::lemma_fmul_scale_cases(shifted.y as int);
    crate::hittable::lemma_fmul_scale_cases(shifted.z as int);
    assert(spec_scale(shifted, s) == shifted);
    let refr = spec_sub(spec_scale(shifted, s), spec_scale(n, sqrt_i(disc * s)));
    assert(sqrt_i(disc * s) == -dt);
    assert(fmul(n.x as int, -dt) == -fmul(n.x as int, dt)) by (nonlinear_arith)
        requires
            fmul(n.x as int, -dt) == crate::fixed::tdiv(n.x as int * -dt, 65536),
            fmul(n.x as int, dt) == crate::fixed::tdiv(n.x as int * dt, 65536),
    {
    }
    assert(fmul(n.y as int, -dt) == -fmul(n.y as int, dt)) by (nonlinear_arith)
        requires
            fmul(n.y as int, -dt) == crate::fixed::tdiv(n.y as int * -dt, 65536),
            fmul(n.y as int, dt) == crate::fixed::tdiv(n.y as int * dt, 65536),
    {
    }
    assert(fmul(n.z as int, -dt) == -fmul(n.z as int, dt)) by (nonlinear_arith)
        requires
            fmul(n.z as int, -dt) == crate::fixed::tdiv(n.z as int * -dt, 65536),
            fmul(n.z as int, dt) == crate::fixed::tdiv(n.z as int * dt, 65536),
    {
    }
    assert(refr == uv);
}

} // verus!
