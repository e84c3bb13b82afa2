//! Everything a ray can strike: spheres, axis rectangles, boxes, the
//! structural wrappers, flat lists, the bounding-volume hierarchy and
//! constant-density media, as one closed enum with a single dispatch.
//!
//! Each deterministic variant's `hit` is pinned to a specification
//! mirror; the volumetric medium draws a free-flight distance and its
//! pure decision rule is specified separately for every drawn value.

use vstd::prelude::*;
use vstd::multiset::Multiset;
use crate::fixed::{abs_i, fmul, fdiv, tdiv, sqrt_i, is_sqrt, sclamp, mul_fx, div_fx, div_floor, clamp_fx, min_fx, max_fx, isqrt_u128, lemma_mul_bound, lemma_tdiv_bound, lemma_sqrt_exists, SCALE};
use crate::vec3::{Vec3, dot, vnew, spec_add, spec_sub, spec_dot, spec_sq_len, bounded_vec, lemma_sq_len_nonneg, lemma_fmul_sq_nonneg};
use crate::ray::{Ray, spec_point_at, point_at_fits, lemma_fmul_abs};
use crate::aabb::{AABB, spec_aabb_hit, spec_surrounding, surrounding_box, box_contains_box};
use crate::rng::rng_below;

verus! {

/// Scene geometry (centers, corners, offsets) stays within this bound:
/// 256 world units.  It is the overflow margin of the 64-bit fixed-point
/// intersection pipeline; callers with larger worlds rescale them
/// uniformly, which leaves every intersection and color unchanged.
pub const GEOM_LIMIT: i64 = 0x100_0000;

/// Rays handed to leaf shapes stay within this bound.
pub const LEAF_ROOM: i64 = 0x4000_0000;

/// The stand-in for an unbounded search interval.
pub const T_FAR: i64 = 0x100_0000_0000;

/// Largest magnitude accepted for the search interval ends.
pub const T_QUERY_LIMIT: i64 = 0x200_0000_0000;

/// Thickness padding of an axis rectangle's bounding box, and the
/// reentry offset of the medium's second boundary probe (about 1e-4).
pub const PAD_FX: i64 = 7;

#[derive(Clone, Copy, PartialEq, Eq, Structural, Debug)]
pub struct HitRecord {
    pub t: i64,
    pub p: Vec3,
    pub normal: Vec3,
    pub mat: usize,
    pub u: i64,
    pub v: i64,
}

impl HitRecord {
    pub fn new(t: i64, p: Vec3, normal: Vec3, mat: usize, u: i64, v: i64) -> (r: Self)
        ensures
            r == (HitRecord { t, p, normal, mat, u, v }),
    {
        HitRecord { t, p, normal, mat, u, v }
    }
}

pub struct Sphere {
    pub r: i64,
    pub center: Vec3,
    pub material: usize,
}

pub struct MovingSphere {
    pub r: i64,
    pub center0: Vec3,
    pub center1: Vec3,
    pub time0: i64,
    pub time1: i64,
    pub material: usize,
}

pub struct XYRect {
    pub x0: i64,
    pub x1: i64,
    pub y0: i64,
    pub y1: i64,
    pub k: i64,
    pub material: usize,
}

pub struct XZRect {
    pub x0: i64,
    pub x1: i64,
    pub z0: i64,
    pub z1: i64,
    pub k: i64,
    pub material: usize,
}

pub struct YZRect {
    pub y0: i64,
    pub y1: i64,
    pub z0: i64,
    pub z1: i64,
    pub k: i64,
    pub material: usize,
}

pub struct Translate {
    pub object: Box<Hittable>,
    pub offset: Vec3,
}

pub struct RotateY {
    pub object: Box<Hittable>,
    pub sin_theta: i64,
    pub cos_theta: i64,
    pub aabb: Option<AABB>,
}

pub struct FlipNormal {
    pub hittable: Box<Hittable>,
}

pub struct HitableList {
    pub entities: Vec<Hittable>,
}

pub struct BoxShape {
    pub pmin: Vec3,
    pub pmax: Vec3,
    pub hit_objects: HitableList,
}

pub struct BVHNode {
    pub b_box: AABB,
    pub left: Box<Hittable>,
    pub right: Box<Hittable>,
}

pub struct ConstantMedium {
    pub boundary: Box<Hittable>,
    pub density: i64,
    pub phase_material: usize,
}

pub enum Hittable {
    Sphere(Sphere),
    MovingSphere(MovingSphere),
    XYRect(XYRect),
    XZRect(XZRect),
    YZRect(YZRect),
    BoxShape(BoxShape),
    Translate(Translate),
    RotateY(RotateY),
    FlipNormal(FlipNormal),
    List(HitableList),
    Bvh(BVHNode),
    ConstantMedium(ConstantMedium),
}

/// Static soundness of the geometry: bounded coordinates, nonempty
/// extents, positive radii and densities.
pub open spec fn hittable_wf(h: Hittable) -> bool
    decreases h,
{
    match h {
        Hittable::Sphere(s) => 4096 <= s.r <= GEOM_LIMIT && bounded_vec(s.center, GEOM_LIMIT as int),
        Hittable::MovingSphere(s) => {
            &&& 4096 <= s.r <= GEOM_LIMIT
            &&& bounded_vec(s.center0, GEOM_LIMIT as int)
            &&& bounded_vec(s.center1, GEOM_LIMIT as int)
            &&& abs_i(s.time0 as int) <= GEOM_LIMIT
            &&& abs_i(s.time1 as int) <= GEOM_LIMIT
            &&& s.time0 < s.time1
        },
        Hittable::XYRect(rc) => {
            &&& abs_i(rc.x0 as int) <= GEOM_LIMIT && abs_i(rc.x1 as int) <= GEOM_LIMIT
            &&& abs_i(rc.y0 as int) <= GEOM_LIMIT && abs_i(rc.y1 as int) <= GEOM_LIMIT
            &&& abs_i(rc.k as int) <= GEOM_LIMIT
            &&& rc.x0 < rc.x1 && rc.y0 < rc.y1
        },
        Hittable::XZRect(rc) => {
            &&& abs_i(rc.x0 as int) <= GEOM_LIMIT && abs_i(rc.x1 as int) <= GEOM_LIMIT
            &&& abs_i(rc.z0 as int) <= GEOM_LIMIT && abs_i(rc.z1 as int) <= GEOM_LIMIT
            &&& abs_i(rc.k as int) <= GEOM_LIMIT
            &&& rc.x0 < rc.x1 && rc.z0 < rc.z1
        },
        Hittable::YZRect(rc) => {
            &&& abs_i(rc.y0 as int) <= GEOM_LIMIT && abs_i(rc.y1 as int) <= GEOM_LIMIT
            &&& abs_i(rc.z0 as int) <= GEOM_LIMIT && abs_i(rc.z1 as int) <= GEOM_LIMIT
            &&& abs_i(rc.k as int) <= GEOM_LIMIT
            &&& rc.y0 < rc.y1 && rc.z0 < rc.z1
        },
        Hittable::BoxShape(b) => {
            &&& bounded_vec(b.pmin, GEOM_LIMIT as int)
            &&& bounded_vec(b.pmax, GEOM_LIMIT as int)
            &&& forall|i: int|
                0 <= i < b.hit_objects.entities@.len() ==> hittable_wf(
                    #[trigger] b.hit_objects.entities@[i],
                )
        },
        Hittable::Translate(t) => bounded_vec(t.offset, GEOM_LIMIT as int) && hittable_wf(
            *t.object,
        ),
        Hittable::RotateY(ry) => {
            &&& abs_i(ry.sin_theta as int) <= SCALE as int
            &&& abs_i(ry.cos_theta as int) <= SCALE as int
            &&& abs_i(
                fmul(ry.sin_theta as int, ry.sin_theta as int) + fmul(
                    ry.cos_theta as int,
                    ry.cos_theta as int,
                ) - SCALE as int,
            ) <= 4
            &&& hittable_wf(*ry.object)
            &&& match ry.aabb {
                Some(b) => bounded_vec(b.min, 0x4000_0000) && bounded_vec(b.max, 0x4000_0000),
                None => true,
            }
        },
        Hittable::FlipNormal(f) => hittable_wf(*f.hittable),
        Hittable::List(l) => forall|i: int|
            0 <= i < l.entities@.len() ==> hittable_wf(#[trigger] l.entities@[i]),
        Hittable::Bvh(n) => {
            &&& hittable_wf(*n.left)
            &&& hittable_wf(*n.right)
            &&& bounded_vec(n.b_box.min, 0x4000_0000)
            &&& bounded_vec(n.b_box.max, 0x4000_0000)
        },
        Hittable::ConstantMedium(m) => 1 <= m.density <= (SCALE as int) * 65536 && hittable_wf(
            *m.boundary,
        ),
    }
}

/// A ray whose origin and direction are bounded by b can be traced
/// through this subtree without overflow: translations widen the bound
/// and rotations double it on the way down.
pub open spec fn ray_fits(h: Hittable, b: int) -> bool
    decreases h,
{
    match h {
        Hittable::Sphere(_) => b <= LEAF_ROOM,
        Hittable::MovingSphere(_) => b <= LEAF_ROOM,
        Hittable::XYRect(_) => b <= LEAF_ROOM,
        Hittable::XZRect(_) => b <= LEAF_ROOM,
        Hittable::YZRect(_) => b <= LEAF_ROOM,
        Hittable::BoxShape(bs) => forall|i: int|
            0 <= i < bs.hit_objects.entities@.len() ==> ray_fits(
                #[trigger] bs.hit_objects.entities@[i],
                b,
            ),
        Hittable::Translate(t) => ray_fits(*t.object, b + GEOM_LIMIT),
        Hittable::RotateY(ry) => ray_fits(*ry.object, 2 * b),
        Hittable::FlipNormal(f) => ray_fits(*f.hittable, b),
        Hittable::List(l) => forall|i: int|
            0 <= i < l.entities@.len() ==> ray_fits(#[trigger] l.entities@[i], b),
        Hittable::Bvh(n) => ray_fits(*n.left, b) && ray_fits(*n.right, b),
        Hittable::ConstantMedium(m) => b <= 0x4000_0000 && ray_fits(*m.boundary, b),
    }
}

/// The time lies within the keyframe span of every moving sphere of the
/// subtree, so interpolated centers stay between the keyframe centers.
pub open spec fn time_ok(h: Hittable, time: int) -> bool
    decreases h,
{
    match h {
        Hittable::MovingSphere(s) => s.time0 <= time <= s.time1,
        Hittable::BoxShape(b) => forall|i: int|
            0 <= i < b.hit_objects.entities@.len() ==> time_ok(
                #[trigger] b.hit_objects.entities@[i],
                time,
            ),
        Hittable::Translate(t) => time_ok(*t.object, time),
        Hittable::RotateY(ry) => time_ok(*ry.object, time),
        Hittable::FlipNormal(f) => time_ok(*f.hittable, time),
        Hittable::List(l) => forall|i: int|
            0 <= i < l.entities@.len() ==> time_ok(#[trigger] l.entities@[i], time),
        Hittable::Bvh(n) => time_ok(*n.left, time) && time_ok(*n.right, time),
        Hittable::ConstantMedium(m) => time_ok(*m.boundary, time),
        _ => true,
    }
}

/// No constant-density medium anywhere: the subtree's hit answer is a
/// pure function of the ray and interval.
pub open spec fn deterministic(h: Hittable) -> bool
    decreases h,
{
    match h {
        Hittable::ConstantMedium(_) => false,
        Hittable::BoxShape(b) => forall|i: int|
            0 <= i < b.hit_objects.entities@.len() ==> deterministic(
                #[trigger] b.hit_objects.entities@[i],
            ),
        Hittable::Translate(t) => deterministic(*t.object),
        Hittable::RotateY(ry) => deterministic(*ry.object),
        Hittable::FlipNormal(f) => deterministic(*f.hittable),
        Hittable::List(l) => forall|i: int|
            0 <= i < l.entities@.len() ==> deterministic(#[trigger] l.entities@[i]),
        Hittable::Bvh(n) => deterministic(*n.left) && deterministic(*n.right),
        _ => true,
    }
}

/// Upper bound for hit points produced when tracing a ray bounded by b
/// through this subtree: each level transforms its child's points the
/// way its hit transforms them.
pub open spec fn p_bound(h: Hittable, b: int) -> int
    decreases h, 1int,
{
    match h {
        Hittable::BoxShape(bs) => p_bound_list(
            bs.hit_objects,
            bs.hit_objects.entities@.len() as int,
            b,
        ),
        Hittable::Translate(t) => p_bound(*t.object, b + GEOM_LIMIT) + GEOM_LIMIT,
        Hittable::RotateY(ry) => 2 * p_bound(*ry.object, 2 * b),
        Hittable::FlipNormal(f) => p_bound(*f.hittable, b),
        Hittable::List(l) => p_bound_list(l, l.entities@.len() as int, b),
        Hittable::Bvh(n) => {
            let pl = p_bound(*n.left, b);
            let pr = p_bound(*n.right, b);
            if pl >= pr {
                pl
            } else {
                pr
            }
        },
        Hittable::ConstantMedium(m) => {
            let pb = p_bound(*m.boundary, b);
            if pb >= b * 0x400_0000 {
                pb
            } else {
                b * 0x400_0000
            }
        },
        _ => b * 0x400_0000,
    }
}

pub open spec fn p_bound_list(l: HitableList, n: int, b: int) -> int
    decreases l, 0int, n,
{
    if n <= 0 || n > l.entities@.len() {
        b * 0x400_0000
    } else {
        let prev = p_bound_list(l, n - 1, b);
        let cur = p_bound(l.entities@[n - 1], b);
        if prev >= cur {
            prev
        } else {
            cur
        }
    }
}

/// The whole environment a ray needs to traverse the subtree safely.
pub open spec fn ray_env(h: Hittable, r: Ray, b: int) -> bool {
    &&& 0 <= b <= 0x4_0000_0000
    &&& bounded_vec(r.origin, b)
    &&& bounded_vec(r.direction, b)
    &&& ray_fits(h, b)
    &&& p_bound(h, b) <= 0x1000_0000_0000_0000
}

pub open spec fn ray_ok(h: Hittable, r: Ray) -> bool {
    exists|b: int| ray_env(h, r, b)
}

/// Multiplying by a factor of magnitude at most one cannot grow a value.
pub proof fn lemma_fmul_unit(c: int, x: int)
    requires
        abs_i(c) <= SCALE as int,
    ensures
        abs_i(fmul(c, x)) <= abs_i(x),
        abs_i(fmul(x, c)) <= abs_i(x),
{
    lemma_mul_bound(c, x, SCALE as int, abs_i(x));
    lemma_tdiv_bound(c * x, SCALE as int);
    lemma_tdiv_bound(x * c, SCALE as int);
    assert(x * c == c * x) by (nonlinear_arith);
    assert(abs_i(c * x) / 65536 <= abs_i(x)) by (nonlinear_arith)
        requires
            abs_i(c * x) <= 65536 * abs_i(x),
    {
    }
}

/// Each child's point bound is dominated by the list's.
pub proof fn lemma_p_bound_list_ge(l: HitableList, n: int, i: int, b: int)
    requires
        0 <= i < n <= l.entities@.len(),
    ensures
        p_bound(l.entities@[i], b) <= p_bound_list(l, n, b),
        b * 0x400_0000 <= p_bound_list(l, n, b),
    decreases n,
{
    assert(p_bound_list(l, 0, b) == b * 0x400_0000);
    if n - 1 > 0 {
        if i < n - 1 {
            lemma_p_bound_list_ge(l, n - 1, i, b);
        } else {
            lemma_p_bound_list_ge(l, n - 1, 0, b);
        }
    }
}

/// Every subtree's point bound dominates the plain travel bound.
pub proof fn lemma_p_bound_lower(h: Hittable, b: int)
    requires
        0 <= b,
    ensures
        p_bound(h, b) >= b * 0x400_0000,
    decreases h, 1int,
{
    match h {
        Hittable::BoxShape(bs) => {
            let n = bs.hit_objects.entities@.len() as int;
            if n > 0 {
                lemma_p_bound_list_ge(bs.hit_objects, n, 0, b);
            } else {
                assert(p_bound_list(bs.hit_objects, 0, b) == b * 0x400_0000);
            }
        },
        Hittable::Translate(t) => {
            lemma_p_bound_lower(*t.object, b + GEOM_LIMIT as int);
            assert((b + GEOM_LIMIT as int) * 0x400_0000 >= b * 0x400_0000) by (nonlinear_arith)
                requires
                    b >= 0,
                    GEOM_LIMIT == 0x100_0000,
            {
            }
        },
        Hittable::RotateY(ry) => {
            lemma_p_bound_lower(*ry.object, 2 * b);
            assert(2 * ((2 * b) * 0x400_0000) >= b * 0x400_0000) by (nonlinear_arith)
                requires
                    b >= 0,
            {
            }
        },
        Hittable::FlipNormal(f) => {
            lemma_p_bound_lower(*f.hittable, b);
        },
        Hittable::List(l) => {
            let n = l.entities@.len() as int;
            if n > 0 {
                lemma_p_bound_list_ge(l, n, 0, b);
            } else {
                assert(p_bound_list(l, 0, b) == b * 0x400_0000);
            }
        },
        Hittable::Bvh(n) => {
            lemma_p_bound_lower(*n.left, b);
        },
        Hittable::ConstantMedium(_) => {
        },
        _ => {
        },
    }
}

/// The diamond-angle stand-in for atan2: a continuous, monotone sweep of
/// [0, 4] (in fixed point) over the four quadrants.
pub open spec fn spec_datan2(y: int, x: int) -> int {
    if y == 0 && x == 0 {
        0
    } else if y >= 0 && x >= 0 {
        fdiv(y, x + y)
    } else if y >= 0 {
        (SCALE as int) + fdiv(-x, y - x)
    } else if x < 0 {
        2 * (SCALE as int) + fdiv(-y, -x - y)
    } else {
        3 * (SCALE as int) + fdiv(x, x - y)
    }
}

/// Surface coordinates of a point of the unit sphere: longitude by the
/// diamond angle, latitude linearly in y.
pub open spec fn spec_sphere_uv(q: Vec3) -> (int, int) {
    (
        (SCALE as int) - tdiv(spec_datan2(q.z as int, q.x as int), 4),
        tdiv(sclamp(q.y as int, SCALE as int) + (SCALE as int), 2),
    )
}

pub open spec fn spec_clamp_vec(v: Vec3, b: int) -> Vec3 {
    vnew(sclamp(v.x as int, b), sclamp(v.y as int, b), sclamp(v.z as int, b))
}

/// The record a sphere produces for an accepted root t.
pub open spec fn spec_sphere_record(
    center: Vec3,
    radius: int,
    mat: int,
    r: Ray,
    t: int,
) -> HitRecord {
    let p = spec_point_at(r, t);
    let q = spec_sub(p, center);
    let n_raw = vnew(fdiv(q.x as int, radius), fdiv(q.y as int, radius), fdiv(q.z as int, radius));
    let n = spec_clamp_vec(n_raw, 2 * (SCALE as int));
    let uv = spec_sphere_uv(n);
    HitRecord { t: t as i64, p, normal: n, mat: mat as usize, u: uv.0 as i64, v: uv.1 as i64 }
}

/// The analytic sphere intersection: solve the quadratic exactly on wide
/// integers and accept the nearest root strictly inside the interval.
pub open spec fn spec_sphere_core(
    center: Vec3,
    radius: int,
    mat: int,
    r: Ray,
    t_min: int,
    t_max: int,
) -> Option<HitRecord> {
    let oc = spec_sub(r.origin, center);
    let a = spec_dot(r.direction, r.direction);
    let b = spec_dot(oc, r.direction);
    let c = spec_dot(oc, oc) - fmul(radius, radius);
    let disc = b * b - a * c;
    if disc > 0 && a > 0 {
        let root = sqrt_i(disc);
        let t1 = tdiv((-b - root) * (SCALE as int), a);
        let t2 = tdiv((-b + root) * (SCALE as int), a);
        if t_min < t1 && t1 < t_max {
            Some(spec_sphere_record(center, radius, mat, r, t1))
        } else if t_min < t2 && t2 < t_max {
            Some(spec_sphere_record(center, radius, mat, r, t2))
        } else {
            None
        }
    } else {
        None
    }
}

/// Where a moving sphere's center is at the given time: linear
/// interpolation between the keyframe centers.
pub open spec fn spec_ms_center(s: MovingSphere, time: int) -> Vec3 {
    let f = fdiv(time - s.time0, s.time1 - s.time0);
    spec_add(
        s.center0,
        vnew(
            fmul(s.center1.x - s.center0.x, f),
            fmul(s.center1.y - s.center0.y, f),
            fmul(s.center1.z - s.center0.z, f),
        ),
    )
}

/// An axis rectangle intersection in the plane fixed = k, solving one
/// linear equation; o and d are the ray components along the fixed axis,
/// (oa, da, a0, a1) the first in-plane axis, (ob, db, b0, b1) the second.
pub open spec fn spec_rect_core(
    o: int,
    d: int,
    k: int,
    oa: int,
    da: int,
    a0: int,
    a1: int,
    ob: int,
    db: int,
    b0: int,
    b1: int,
) -> Option<(int, int, int)> {
    if d == 0 {
        None
    } else {
        let t = fdiv(k - o, d);
        let a = oa + fmul(t, da);
        let b = ob + fmul(t, db);
        if a < a0 || a > a1 || b < b0 || b > b1 {
            None
        } else {
            Some((t, fdiv(a - a0, a1 - a0), fdiv(b - b0, b1 - b0)))
        }
    }
}

/// The full hit relation for deterministic trees; a constant medium has
/// no deterministic answer and yields None here, guarded by
/// `deterministic` wherever this mirror is relied on.
pub open spec fn spec_hit(h: Hittable, r: Ray, t_min: int, t_max: int) -> Option<HitRecord>
    decreases h, 1int,
{
    match h {
        Hittable::Sphere(s) => spec_sphere_core(
            s.center,
            s.r as int,
            s.material as int,
            r,
            t_min,
            t_max,
        ),
        Hittable::MovingSphere(s) => spec_sphere_core(
            spec_ms_center(s, r.time as int),
            s.r as int,
            s.material as int,
            r,
            t_min,
            t_max,
        ),
        Hittable::XYRect(rc) => {
            match spec_rect_core(
                r.origin.z as int,
                r.direction.z as int,
                rc.k as int,
                r.origin.x as int,
                r.direction.x as int,
                rc.x0 as int,
                rc.x1 as int,
                r.origin.y as int,
                r.direction.y as int,
                rc.y0 as int,
                rc.y1 as int,
            ) {
                Some(w) => if t_min <= w.0 <= t_max {
                    Some(
                        HitRecord {
                            t: w.0 as i64,
                            p: spec_point_at(r, w.0),
                            normal: Vec3 { x: 0, y: 0, z: SCALE },
                            mat: rc.material,
                            u: w.1 as i64,
                            v: w.2 as i64,
                        },
                    )
                } else {
                    None
                },
                None => None,
            }
        },
        Hittable::XZRect(rc) => {
            match spec_rect_core(
                r.origin.y as int,
                r.direction.y as int,
                rc.k as int,
                r.origin.x as int,
                r.direction.x as int,
                rc.x0 as int,
                rc.x1 as int,
                r.origin.z as int,
                r.direction.z as int,
                rc.z0 as int,
                rc.z1 as int,
            ) {
                Some(w) => if t_min <= w.0 <= t_max {
                    Some(
                        HitRecord {
                            t: w.0 as i64,
                            p: spec_point_at(r, w.0),
                            normal: Vec3 { x: 0, y: SCALE, z: 0 },
                            mat: rc.material,
                            u: w.1 as i64,
                            v: w.2 as i64,
                        },
                    )
                } else {
                    None
                },
                None => None,
            }
        },
        Hittable::YZRect(rc) => {
            match spec_rect_core(
                r.origin.x as int,
                r.direction.x as int,
                rc.k as int,
                r.origin.y as int,
                r.direction.y as int,
                rc.y0 as int,
                rc.y1 as int,
                r.origin.z as int,
                r.direction.z as int,
                rc.z0 as int,
                rc.z1 as int,
            ) {
                Some(w) => if t_min <= w.0 <= t_max {
                    Some(
                        HitRecord {
                            t: w.0 as i64,
                            p: spec_point_at(r, w.0),
                            normal: Vec3 { x: SCALE, y: 0, z: 0 },
                            mat: rc.material,
                            u: w.1 as i64,
                            v: w.2 as i64,
                        },
                    )
                } else {
                    None
                },
                None => None,
            }
        },
        Hittable::BoxShape(b) => spec_list_hit(
            b.hit_objects,
            b.hit_objects.entities@.len() as int,
            r,
            t_min,
            t_max,
        ),
        Hittable::Translate(tr) => {
            let moved = Ray {
                origin: spec_sub(r.origin, tr.offset),
                direction: r.direction,
                time: r.time,
            };
            match spec_hit(*tr.object, moved, t_min, t_max) {
                Some(rec) => Some(HitRecord { p: spec_add(rec.p, tr.offset), ..rec }),
                None => None,
            }
        },
        Hittable::RotateY(ry) => {
            let c = ry.cos_theta as int;
            let s = ry.sin_theta as int;
            let o = r.origin;
            let d = r.direction;
            let rotated = Ray {
                origin: vnew(
                    fmul(c, o.x as int) - fmul(s, o.z as int),
                    o.y as int,
                    fmul(s, o.x as int) + fmul(c, o.z as int),
                ),
                direction: vnew(
                    fmul(c, d.x as int) - fmul(s, d.z as int),
                    d.y as int,
                    fmul(s, d.x as int) + fmul(c, d.z as int),
                ),
                time: r.time,
            };
            match spec_hit(*ry.object, rotated, t_min, t_max) {
                Some(rec) => {
                    let p = rec.p;
                    let n = rec.normal;
                    Some(
                        HitRecord {
                            p: vnew(
                                fmul(c, p.x as int) + fmul(s, p.z as int),
                                p.y as int,
                                -fmul(s, p.x as int) + fmul(c, p.z as int),
                            ),
                            normal: spec_clamp_vec(
                                vnew(
                                    fmul(c, n.x as int) + fmul(s, n.z as int),
                                    n.y as int,
                                    -fmul(s, n.x as int) + fmul(c, n.z as int),
                                ),
                                2 * (SCALE as int),
                            ),
                            ..rec
                        },
                    )
                },
                None => None,
            }
        },
        Hittable::FlipNormal(f) => {
            match spec_hit(*f.hittable, r, t_min, t_max) {
                Some(rec) => Some(
                    HitRecord {
                        normal: vnew(
                            -(rec.normal.x as int),
                            -(rec.normal.y as int),
                            -(rec.normal.z as int),
                        ),
                        ..rec
                    },
                ),
                None => None,
            }
        },
        Hittable::List(l) => spec_list_hit(l, l.entities@.len() as int, r, t_min, t_max),
        Hittable::Bvh(n) => {
            match spec_aabb_hit(n.b_box, r, t_min, t_max) {
                Some(w) => {
                    let hl = spec_hit(*n.left, r, w.0, w.1);
                    let hr = spec_hit(*n.right, r, w.0, w.1);
                    match (hl, hr) {
                        (Some(lr), Some(rr)) => if lr.t < rr.t {
                            Some(lr)
                        } else {
                            Some(rr)
                        },
                        (Some(lr), None) => Some(lr),
                        (None, Some(rr)) => Some(rr),
                        (None, None) => None,
                    }
                },
                None => None,
            }
        },
        Hittable::ConstantMedium(_) => None,
    }
}

/// The linear scan over the first n children: each accepted hit shrinks
/// the far end of the interval, so only strictly nearer hits replace it.
pub open spec fn spec_list_hit(
    l: HitableList,
    n: int,
    r: Ray,
    t_min: int,
    t_max: int,
) -> Option<HitRecord>
    decreases l, 0int, n,
{
    if n <= 0 || n > l.entities@.len() {
        None
    } else {
        let prev = spec_list_hit(l, n - 1, r, t_min, t_max);
        let cur_max = match prev {
            Some(rec) => rec.t as int,
            None => t_max,
        };
        match spec_hit(l.entities@[n - 1], r, t_min, cur_max) {
            Some(rec) => Some(rec),
            None => prev,
        }
    }
}

/// The bounding box over a time span, None for unboundable geometry.
pub open spec fn spec_bbox(h: Hittable, t0: int, t1: int) -> Option<AABB>
    decreases h, 1int,
{
    match h {
        Hittable::Sphere(s) => Some(
            AABB {
                min: vnew(s.center.x - s.r, s.center.y - s.r, s.center.z - s.r),
                max: vnew(s.center.x + s.r, s.center.y + s.r, s.center.z + s.r),
            },
        ),
        Hittable::MovingSphere(s) => {
            let c0 = spec_ms_center(s, t0);
            let c1 = spec_ms_center(s, t1);
            Some(
                spec_surrounding(
                    AABB {
                        min: vnew(c0.x - s.r, c0.y - s.r, c0.z - s.r),
                        max: vnew(c0.x + s.r, c0.y + s.r, c0.z + s.r),
                    },
                    AABB {
                        min: vnew(c1.x - s.r, c1.y - s.r, c1.z - s.r),
                        max: vnew(c1.x + s.r, c1.y + s.r, c1.z + s.r),
                    },
                ),
            )
        },
        Hittable::XYRect(rc) => Some(
            AABB {
                min: vnew(rc.x0 as int, rc.y0 as int, rc.k - PAD_FX),
                max: vnew(rc.x1 as int, rc.y1 as int, rc.k + PAD_FX),
            },
        ),
        Hittable::XZRect(rc) => Some(
            AABB {
                min: vnew(rc.x0 as int, rc.k - PAD_FX, rc.z0 as int),
                max: vnew(rc.x1 as int, rc.k + PAD_FX, rc.z1 as int),
            },
        ),
        Hittable::YZRect(rc) => Some(
            AABB {
                min: vnew(rc.k - PAD_FX, rc.y0 as int, rc.z0 as int),
                max: vnew(rc.k + PAD_FX, rc.y1 as int, rc.z1 as int),
            },
        ),
        Hittable::BoxShape(b) => Some(AABB { min: b.pmin, max: b.pmax }),
        Hittable::Translate(tr) => {
            match spec_bbox(*tr.object, t0, t1) {
                Some(b) => Some(
                    AABB {
                        min: vnew(
                            sclamp(b.min.x + tr.offset.x, 0x10_0000_0000_0000),
                            sclamp(b.min.y + tr.offset.y, 0x10_0000_0000_0000),
                            sclamp(b.min.z + tr.offset.z, 0x10_0000_0000_0000),
                        ),
                        max: vnew(
                            sclamp(b.max.x + tr.offset.x, 0x10_0000_0000_0000),
                            sclamp(b.max.y + tr.offset.y, 0x10_0000_0000_0000),
                            sclamp(b.max.z + tr.offset.z, 0x10_0000_0000_0000),
                        ),
                    },
                ),
                None => None,
            }
        },
        Hittable::RotateY(ry) => ry.aabb,
        Hittable::FlipNormal(f) => spec_bbox(*f.hittable, t0, t1),
        Hittable::List(l) => spec_list_bbox(l, l.entities@.len() as int, t0, t1),
        Hittable::Bvh(n) => Some(n.b_box),
        Hittable::ConstantMedium(m) => spec_bbox(*m.boundary, t0, t1),
    }
}

/// Union of the boxes of the first n children; None once any child has
/// no box or the list is empty.
pub open spec fn spec_list_bbox(l: HitableList, n: int, t0: int, t1: int) -> Option<AABB>
    decreases l, 0int, n,
{
    if n <= 0 || n > l.entities@.len() {
        None
    } else if n == 1 {
        spec_bbox(l.entities@[0], t0, t1)
    } else {
        match (spec_list_bbox(l, n - 1, t0, t1), spec_bbox(l.entities@[n - 1], t0, t1)) {
            (Some(b0), Some(b1)) => Some(spec_surrounding(b0, b1)),
            _ => None,
        }
    }
}

} // verus!

verus! {

/// 0 <= num <= den gives a fixed-point quotient in [0, 1].
pub proof fn lemma_frac_unit_pub(num: int, den: int)
    requires
        0 <= num <= den,
        1 <= den,
    ensures
        0 <= fdiv(num, den) <= SCALE as int,
{
    lemma_frac_unit(num, den);
}

/// 0 <= num <= den gives a fixed-point quotient in [0, 1].
proof fn lemma_frac_unit(num: int, den: int)
    requires
        0 <= num <= den,
        1 <= den,
    ensures
        0 <= fdiv(num, den) <= SCALE as int,
{
    assert(0 <= (num * 65536) / den <= 65536) by (nonlinear_arith)
        requires
            0 <= num <= den,
            1 <= den,
    {
    }
    assert(abs_i(num * 65536) == num * 65536) by (nonlinear_arith)
        requires
            num >= 0,
    {
    }
}

/// The diamond-angle approximation of atan2 over fixed-point inputs.
fn datan2(y: i64, x: i64) -> (r: i64)
    requires
        abs_i(y as int) <= 0x100_0000_0000,
        abs_i(x as int) <= 0x100_0000_0000,
    ensures
        r == spec_datan2(y as int, x as int),
        0 <= r <= 4 * SCALE,
{
    if y == 0 && x == 0 {
        0
    } else if y >= 0 && x >= 0 {
        proof {
            lemma_frac_unit(y as int, x as int + y as int);
        }
        div_fx(y, x + y)
    } else if y >= 0 {
        proof {
            lemma_frac_unit(-x as int, y as int - x as int);
        }
        SCALE + div_fx(-x, y - x)
    } else if x < 0 {
        proof {
            lemma_frac_unit(-y as int, -x as int - y as int);
        }
        2 * SCALE + div_fx(-y, -x - y)
    } else {
        proof {
            lemma_frac_unit(x as int, x as int - y as int);
        }
        3 * SCALE + div_fx(x, x - y)
    }
}

/// Surface coordinates for a unit-sphere offset.
fn sphere_uv(q: &Vec3) -> (uv: (i64, i64))
    requires
        bounded_vec(*q, 2 * (SCALE as int)),
    ensures
        uv.0 as int == spec_sphere_uv(*q).0,
        uv.1 as int == spec_sphere_uv(*q).1,
        0 <= uv.0 <= SCALE,
        0 <= uv.1 <= SCALE,
{
    let t = datan2(q.z, q.x);
    let u = SCALE - div_floor(t, 4);
    let yc = clamp_fx(q.y, SCALE);
    let v = div_floor(yc + SCALE, 2);
    (u, v)
}

/// The record for an accepted sphere root.
fn sphere_record(
    center: Vec3,
    radius: i64,
    mat: usize,
    r: &Ray,
    t: i64,
) -> (rec: HitRecord)
    requires
        bounded_vec(center, 3 * (GEOM_LIMIT as int)),
        4096 <= radius <= GEOM_LIMIT,
        bounded_vec(r.origin, LEAF_ROOM as int),
        bounded_vec(r.direction, LEAF_ROOM as int),
        abs_i(t as int) <= T_QUERY_LIMIT as int,
    ensures
        rec == spec_sphere_record(center, radius as int, mat as int, *r, t as int),
        rec.t == t,
        0 <= rec.u <= SCALE,
        0 <= rec.v <= SCALE,
        bounded_vec(rec.normal, 2 * (SCALE as int)),
{
    proof {
        lemma_fmul_abs(r.direction.x as int, t as int, LEAF_ROOM as int, T_QUERY_LIMIT as int);
        lemma_fmul_abs(r.direction.y as int, t as int, LEAF_ROOM as int, T_QUERY_LIMIT as int);
        lemma_fmul_abs(r.direction.z as int, t as int, LEAF_ROOM as int, T_QUERY_LIMIT as int);
    }
    let p = r.point_at_parameter(t);
    let q = p.sub(center);
    proof {
        lemma_norm_div_fits(q.x as int, radius as int);
        lemma_norm_div_fits(q.y as int, radius as int);
        lemma_norm_div_fits(q.z as int, radius as int);
    }
    let n = Vec3::new(
        clamp_fx(div_fx(q.x, radius), 2 * SCALE),
        clamp_fx(div_fx(q.y, radius), 2 * SCALE),
        clamp_fx(div_fx(q.z, radius), 2 * SCALE),
    );
    let uv = sphere_uv(&n);
    HitRecord::new(t, p, n, mat, uv.0, uv.1)
}

/// A hit-point offset divided by a radius of at least 256 fits an i64.
proof fn lemma_norm_div_fits(q: int, radius: int)
    requires
        abs_i(q) <= 0x100_0000_0000_0000,
        4096 <= radius,
    ensures
        abs_i(fdiv(q, radius)) <= 0x4000_0000_0000_0000,
{
    lemma_tdiv_bound(q * 65536, radius);
    assert(abs_i(q * 65536) <= 0x100_0000_0000_0000 * 65536) by (nonlinear_arith)
        requires
            abs_i(q) <= 0x100_0000_0000_0000,
    {
    }
    assert(abs_i(q * 65536) / abs_i(radius) <= 0x100_0000_0000_0000 * 65536 / 4096)
        by (nonlinear_arith)
        requires
            abs_i(q * 65536) <= 0x100_0000_0000_0000 * 65536,
            radius >= 4096,
            abs_i(radius) == radius,
    {
    }
}

/// The shared quadratic solver of the two sphere shapes.
fn sphere_hit_core(
    center: Vec3,
    radius: i64,
    mat: usize,
    r: &Ray,
    t_min: i64,
    t_max: i64,
) -> (res: Option<HitRecord>)
    requires
        bounded_vec(center, 3 * (GEOM_LIMIT as int)),
        4096 <= radius <= GEOM_LIMIT,
        bounded_vec(r.origin, LEAF_ROOM as int),
        bounded_vec(r.direction, LEAF_ROOM as int),
        abs_i(t_min as int) <= T_QUERY_LIMIT as int,
        abs_i(t_max as int) <= T_QUERY_LIMIT as int,
    ensures
        res == spec_sphere_core(
            center,
            radius as int,
            mat as int,
            *r,
            t_min as int,
            t_max as int,
        ),
        res matches Some(rec) ==> t_min < rec.t < t_max && 0 <= rec.u <= SCALE && 0 <= rec.v
            <= SCALE && bounded_vec(rec.normal, 2 * (SCALE as int)),
{
    let oc = r.origin.sub(center);
    proof {
        lemma_fmul_abs(r.direction.x as int, r.direction.x as int, LEAF_ROOM as int, LEAF_ROOM as int);
        lemma_fmul_abs(r.direction.y as int, r.direction.y as int, LEAF_ROOM as int, LEAF_ROOM as int);
        lemma_fmul_abs(r.direction.z as int, r.direction.z as int, LEAF_ROOM as int, LEAF_ROOM as int);
        lemma_fmul_abs(oc.x as int, r.direction.x as int, 0x4300_0000, LEAF_ROOM as int);
        lemma_fmul_abs(oc.y as int, r.direction.y as int, 0x4300_0000, LEAF_ROOM as int);
        lemma_fmul_abs(oc.z as int, r.direction.z as int, 0x4300_0000, LEAF_ROOM as int);
        lemma_fmul_abs(oc.x as int, oc.x as int, 0x4300_0000, 0x4300_0000);
        lemma_fmul_abs(oc.y as int, oc.y as int, 0x4300_0000, 0x4300_0000);
        lemma_fmul_abs(oc.z as int, oc.z as int, 0x4300_0000, 0x4300_0000);
        lemma_fmul_abs(radius as int, radius as int, GEOM_LIMIT as int, GEOM_LIMIT as int);
    }
    let a = dot(&r.direction, &r.direction);
    let b = dot(&oc, &r.direction);
    let c = dot(&oc, &oc) - mul_fx(radius, radius);
    proof {
        assert(abs_i(b as int) <= 0x3300_0000_0000);
        assert(abs_i(a as int) <= 0x3000_0000_0000);
        assert(abs_i(c as int) <= 0x4000_0000_0000);
        lemma_mul_bound(b as int, b as int, 0x3300_0000_0000, 0x3300_0000_0000);
        lemma_mul_bound(a as int, c as int, 0x3000_0000_0000, 0x4000_0000_0000);
    }
    let bb: i128 = (b as i128) * (b as i128);
    let ac: i128 = (a as i128) * (c as i128);
    let disc: i128 = bb - ac;
    if disc > 0 && a > 0 {
        let root_u = isqrt_u128(disc as u128);
        proof {
            assert(root_u * root_u <= disc);
            assert(root_u as int <= 0x1_0000_0000_0000_0000) by (nonlinear_arith)
                requires
                    (root_u as int) * (root_u as int) <= disc as int,
                    disc as int <= 0x1_0000_0000_0000_0000_0000_0000_0000_0000,
                    root_u as int >= 0,
            {
            }
        }
        let root: i128 = root_u as i128;
        let num1: i128 = (-(b as i128) - root) * 65536;
        let t1w: i128 = crate::fixed::tdiv_i128(num1, a);
        if (t_min as i128) < t1w && t1w < (t_max as i128) {
            let t1 = t1w as i64;
            Some(sphere_record(center, radius, mat, r, t1))
        } else {
            let num2: i128 = (-(b as i128) + root) * 65536;
            let t2w: i128 = crate::fixed::tdiv_i128(num2, a);
            if (t_min as i128) < t2w && t2w < (t_max as i128) {
                let t2 = t2w as i64;
                Some(sphere_record(center, radius, mat, r, t2))
            } else {
                None
            }
        }
    } else {
        None
    }
}

} // verus!

verus! {

/// The rect solution restricted to an interval, as the dispatch uses it.
pub open spec fn spec_rect_filtered(
    o: int,
    d: int,
    k: int,
    oa: int,
    da: int,
    a0: int,
    a1: int,
    ob: int,
    db: int,
    b0: int,
    b1: int,
    t_min: int,
    t_max: int,
) -> Option<(int, int, int)> {
    match spec_rect_core(o, d, k, oa, da, a0, a1, ob, db, b0, b1) {
        Some(w) => if t_min <= w.0 <= t_max {
            Some(w)
        } else {
            None
        },
        None => None,
    }
}

/// The shared plane solver of the three axis rectangles.
fn rect_hit_core(
    o: i64,
    d: i64,
    k: i64,
    oa: i64,
    da: i64,
    a0: i64,
    a1: i64,
    ob: i64,
    db: i64,
    b0: i64,
    b1: i64,
    t_min: i64,
    t_max: i64,
) -> (res: Option<(i64, i64, i64)>)
    requires
        abs_i(o as int) <= LEAF_ROOM as int,
        abs_i(oa as int) <= LEAF_ROOM as int,
        abs_i(ob as int) <= LEAF_ROOM as int,
        abs_i(d as int) <= LEAF_ROOM as int,
        abs_i(da as int) <= LEAF_ROOM as int,
        abs_i(db as int) <= LEAF_ROOM as int,
        abs_i(k as int) <= GEOM_LIMIT as int,
        abs_i(a0 as int) <= GEOM_LIMIT as int,
        abs_i(a1 as int) <= GEOM_LIMIT as int,
        abs_i(b0 as int) <= GEOM_LIMIT as int,
        abs_i(b1 as int) <= GEOM_LIMIT as int,
        a0 < a1,
        b0 < b1,
        abs_i(t_min as int) <= T_QUERY_LIMIT as int,
        abs_i(t_max as int) <= T_QUERY_LIMIT as int,
    ensures
        res matches Some(w) ==> spec_rect_filtered(
            o as int,
            d as int,
            k as int,
            oa as int,
            da as int,
            a0 as int,
            a1 as int,
            ob as int,
            db as int,
            b0 as int,
            b1 as int,
            t_min as int,
            t_max as int,
        ) == Some((w.0 as int, w.1 as int, w.2 as int)),
        res is None ==> spec_rect_filtered(
            o as int,
            d as int,
            k as int,
            oa as int,
            da as int,
            a0 as int,
            a1 as int,
            ob as int,
            db as int,
            b0 as int,
            b1 as int,
            t_min as int,
            t_max as int,
        ) is None,
        res matches Some(w) ==> t_min <= w.0 <= t_max && 0 <= w.1 <= SCALE && 0 <= w.2 <= SCALE,
{
    if d == 0 {
        return None;
    }
    proof {
        lemma_tdiv_bound((k - o) as int * 65536, d as int);
        assert(abs_i((k - o) as int * 65536) / abs_i(d as int) <= 0x4100_0000_0000)
            by (nonlinear_arith)
            requires
                abs_i((k - o) as int) <= 0x4100_0000,
                d != 0,
        {
        }
        assert(abs_i((k - o) as int * 65536) == abs_i((k - o) as int) * 65536)
            by (nonlinear_arith)
        {
        }
    }
    let t = div_fx(k - o, d);
    if t < t_min || t > t_max {
        return None;
    }
    proof {
        lemma_fmul_abs(t as int, da as int, 0x4100_0000_0000, LEAF_ROOM as int);
        lemma_fmul_abs(t as int, db as int, 0x4100_0000_0000, LEAF_ROOM as int);
    }
    let a = oa + mul_fx(t, da);
    let b = ob + mul_fx(t, db);
    if a < a0 || a > a1 || b < b0 || b > b1 {
        return None;
    }
    proof {
        lemma_frac_unit((a - a0) as int, (a1 - a0) as int);
        lemma_frac_unit((b - b0) as int, (b1 - b0) as int);
    }
    Some((t, div_fx(a - a0, a1 - a0), div_fx(b - b0, b1 - b0)))
}

/// Whether the medium scatters: compare the sampled free-flight distance
/// with the distance travelled inside the boundary, all scaled by the
/// direction length; on a scatter the hit parameter advances from the
/// clipped entry by flight/length.
pub open spec fn spec_medium_decision(
    t1: int,
    t2: int,
    t_min: int,
    t_max: int,
    flight: int,
    len: int,
) -> Option<int> {
    let e1 = if t1 < t_min {
        t_min
    } else {
        t1
    };
    let e2 = if t2 > t_max {
        t_max
    } else {
        t2
    };
    if e1 >= e2 {
        None
    } else {
        let s1 = if e1 < 0 {
            0
        } else {
            e1
        };
        let dist = fmul(e2 - s1, len);
        if flight < dist {
            Some(s1 + fdiv(flight, len))
        } else {
            None
        }
    }
}

/// A medium with zero sampled flight scatters at the entry; one whose
/// flight reaches past the boundary span never scatters.  In particular
/// a vanishing density, whose flights are overwhelmingly long, passes
/// rays through, and an enormous density scatters at once.
pub proof fn lemma_medium_decision(
    t1: int,
    t2: int,
    t_min: int,
    t_max: int,
    flight: int,
    len: int,
)
    requires
        0 <= flight,
        1 <= len,
    ensures
        ({
            let e1 = if t1 < t_min { t_min } else { t1 };
            let e2 = if t2 > t_max { t_max } else { t2 };
            let s1 = if e1 < 0 { 0 } else { e1 };
            &&& (flight >= fmul(e2 - s1, len) ==> spec_medium_decision(
                t1,
                t2,
                t_min,
                t_max,
                flight,
                len,
            ) is None)
            &&& (spec_medium_decision(t1, t2, t_min, t_max, flight, len) matches Some(t) ==> s1
                <= t <= e2)
        }),
{
    let e1 = if t1 < t_min { t_min } else { t1 };
    let e2 = if t2 > t_max { t_max } else { t2 };
    let s1 = if e1 < 0 { 0 } else { e1 };
    if e1 < e2 {
        let dist = fmul(e2 - s1, len);
        if flight < dist {
            if e2 - s1 < 0 {
                assert(fmul(e2 - s1, len) <= 0) by (nonlinear_arith)
                    requires
                        e2 - s1 < 0,
                        len >= 1,
                        fmul(e2 - s1, len) == tdiv((e2 - s1) * len, 65536),
                {
                }
                assert(false);
            }
            lemma_tdiv_bound(flight * 65536, len);
            assert(fdiv(flight, len) >= 0) by (nonlinear_arith)
                requires
                    flight >= 0,
                    len >= 1,
            {
            }
            assert(fdiv(flight, len) <= e2 - s1) by (nonlinear_arith)
                requires
                    0 <= flight,
                    1 <= len,
                    flight < fmul(e2 - s1, len),
                    fmul(e2 - s1, len) == tdiv((e2 - s1) * len, 65536),
                    fdiv(flight, len) == tdiv(flight * 65536, len),
                    0 <= e2 - s1,
            {
            }
        }
    }
}

/// One boundary probe of a constant medium: for a deterministic
/// boundary the probe's answer is pinned to the boundary's own hit
/// relation over the given window.
pub open spec fn medium_probe_ok(
    m: ConstantMedium,
    r: Ray,
    lo: int,
    hi: int,
    h: Option<HitRecord>,
) -> bool {
    deterministic(*m.boundary) ==> h == spec_hit(*m.boundary, r, lo, hi)
}

/// The whole behaviour of a constant medium's hit, for given boundary
/// probe answers and a sampled flight distance: a missed probe passes
/// the ray through, and otherwise the scatter decision fixes the
/// record completely.
pub open spec fn medium_rel(
    m: ConstantMedium,
    r: Ray,
    t_min: int,
    t_max: int,
    h1: Option<HitRecord>,
    h2: Option<HitRecord>,
    flight: int,
    res: Option<HitRecord>,
) -> bool {
    &&& medium_probe_ok(m, r, -(T_FAR as int), T_FAR as int, h1)
    &&& 0 <= flight
    &&& match h1 {
        None => res is None,
        Some(rec1) => {
            &&& medium_probe_ok(m, r, rec1.t + PAD_FX, T_FAR as int, h2)
            &&& match h2 {
                None => res is None,
                Some(rec2) => match spec_medium_decision(
                    rec1.t as int,
                    rec2.t as int,
                    t_min,
                    t_max,
                    flight,
                    crate::vec3::spec_len(r.direction),
                ) {
                    Some(t) => res == Some(
                        HitRecord {
                            t: t as i64,
                            p: spec_point_at(r, t),
                            normal: Vec3 { x: SCALE, y: 0, z: 0 },
                            mat: m.phase_material,
                            u: 0,
                            v: 0,
                        },
                    ),
                    None => res is None,
                },
            }
        },
    }
}

/// About -ln(u / SCALE) in fixed point for u in [1, SCALE]: normalize u
/// into [1, 2) by doublings and correct with two terms of the series.
fn neg_ln_fx(u: i64) -> (r: i64)
    requires
        1 <= u <= SCALE,
    ensures
        0 <= r <= 1_000_000,
{
    let mut x = u;
    let mut k: i64 = 0;
    while x < SCALE && k < 17
        invariant
            1 <= x <= 2 * SCALE,
            0 <= k <= 17,
        decreases 17 - k,
    {
        x = 2 * x;
        k = k + 1;
    }
    let g = if x >= SCALE {
        x - SCALE
    } else {
        0
    };
    proof {
        lemma_fmul_abs(g as int, g as int, 65536, 65536);
        crate::vec3::lemma_fmul_sq_nonneg(g as int);
    }
    let gg = mul_fx(g, g);
    let approx = g - div_floor(gg, 2);
    proof {
        assert(gg == (g as int * g as int) / 65536);
        assert(0 <= g as int - (g as int * g as int) / 65536 / 2 <= 36768) by (nonlinear_arith)
            requires
                0 <= g <= 65536,
                gg == (g as int * g as int) / 65536,
        {
        }
    }
    let r = k * 45426 - approx;
    if r >= 0 {
        r
    } else {
        0
    }
}

/// The sampled free-flight distance -ln(u)/density for a uniform u:
/// nonnegative for every draw, as the decision law expects.
fn sample_flight(density: i64, rng: &mut rand::rngs::StdRng) -> (r: i64)
    requires
        1 <= density,
    ensures
        0 <= r <= 0x10_0000_0000_0000,
{
    let u = rng_below(rng, 65536) as i64 + 1;
    let nl = neg_ln_fx(u);
    proof {
        lemma_tdiv_bound(nl as int * 65536, density as int);
        assert(abs_i(nl as int * 65536) <= 0x10_0000_0000_0000) by (nonlinear_arith)
            requires
                0 <= nl <= 1_000_000,
        {
        }
        assert(tdiv(nl as int * 65536, density as int) >= 0) by (nonlinear_arith)
            requires
                nl >= 0,
                density >= 1,
        {
        }
    }
    div_fx(nl, density)
}

} // verus!

verus! {

/// Points reached within the query range stay within a b-proportional
/// bound of the origin.
proof fn lemma_point_bound(r: Ray, t: int, b: int)
    requires
        0 <= b,
        b * 0x400_0000 <= 0x1000_0000_0000_0000,
        bounded_vec(r.origin, b),
        bounded_vec(r.direction, b),
        abs_i(t) <= T_QUERY_LIMIT as int,
    ensures
        bounded_vec(spec_point_at(r, t), b * 0x400_0000),
        point_at_fits(r, t),
{
    lemma_mul_bound(r.direction.x as int, t, b, 0x200_0000_0000);
    lemma_mul_bound(r.direction.y as int, t, b, 0x200_0000_0000);
    lemma_mul_bound(r.direction.z as int, t, b, 0x200_0000_0000);
    lemma_tdiv_bound(r.direction.x as int * t, 65536);
    lemma_tdiv_bound(r.direction.y as int * t, 65536);
    lemma_tdiv_bound(r.direction.z as int * t, 65536);
    assert(abs_i(r.direction.x as int * t) / 65536 <= b * 0x200_0000) by (nonlinear_arith)
        requires
            0 <= abs_i(r.direction.x as int * t) <= b * 0x200_0000_0000,
            b >= 0,
    {
    }
    assert(abs_i(r.direction.y as int * t) / 65536 <= b * 0x200_0000) by (nonlinear_arith)
        requires
            0 <= abs_i(r.direction.y as int * t) <= b * 0x200_0000_0000,
            b >= 0,
    {
    }
    assert(abs_i(r.direction.z as int * t) / 65536 <= b * 0x200_0000) by (nonlinear_arith)
        requires
            0 <= abs_i(r.direction.z as int * t) <= b * 0x200_0000_0000,
            b >= 0,
    {
    }
    assert(b + b * 0x200_0000 <= b * 0x400_0000) by (nonlinear_arith)
        requires
            b >= 0,
    {
    }
}

/// The interpolated center of a moving sphere at a time within its span.
fn ms_center(s: &MovingSphere, time: i64) -> (c: Vec3)
    requires
        hittable_wf(Hittable::MovingSphere(*s)),
        s.time0 <= time <= s.time1,
    ensures
        c == spec_ms_center(*s, time as int),
        bounded_vec(c, 3 * (GEOM_LIMIT as int)),
{
    proof {
        lemma_frac_unit((time - s.time0) as int, (s.time1 - s.time0) as int);
    }
    let f = div_fx(time - s.time0, s.time1 - s.time0);
    proof {
        lemma_fmul_unit(f as int, (s.center1.x - s.center0.x) as int);
        lemma_fmul_unit(f as int, (s.center1.y - s.center0.y) as int);
        lemma_fmul_unit(f as int, (s.center1.z - s.center0.z) as int);
    }
    let off = Vec3::new(
        mul_fx(s.center1.x - s.center0.x, f),
        mul_fx(s.center1.y - s.center0.y, f),
        mul_fx(s.center1.z - s.center0.z, f),
    );
    s.center0.add(off)
}

/// The pure scattering decision of a constant medium, for one sampled
/// free-flight distance.
pub fn medium_scatter_decision(
    t1: i64,
    t2: i64,
    t_min: i64,
    t_max: i64,
    flight: i64,
    len: i64,
) -> (res: Option<i64>)
    requires
        0 <= flight <= 0x10_0000_0000_0000,
        0 <= len <= 0x8000_0000,
        abs_i(t1 as int) <= 2 * (T_FAR as int),
        abs_i(t2 as int) <= 2 * (T_FAR as int),
        abs_i(t_min as int) <= T_QUERY_LIMIT as int,
        abs_i(t_max as int) <= T_QUERY_LIMIT as int,
    ensures
        match res {
            Some(t) => spec_medium_decision(
                t1 as int,
                t2 as int,
                t_min as int,
                t_max as int,
                flight as int,
                len as int,
            ) == Some(t as int) && t_min <= t <= t_max,
            None => spec_medium_decision(
                t1 as int,
                t2 as int,
                t_min as int,
                t_max as int,
                flight as int,
                len as int,
            ) is None,
        },
{
    let e1 = if t1 < t_min {
        t_min
    } else {
        t1
    };
    let e2 = if t2 > t_max {
        t_max
    } else {
        t2
    };
    if e1 >= e2 {
        return None;
    }
    let s1 = if e1 < 0 {
        0
    } else {
        e1
    };
    proof {
        lemma_fmul_abs((e2 - s1) as int, len as int, 0x300_0000_0000, 0x8000_0000);
    }
    let dist = mul_fx(e2 - s1, len);
    if flight < dist {
        proof {
            if len == 0 {
                assert(fmul((e2 - s1) as int, 0) == 0) by (nonlinear_arith)
                    requires
                        fmul((e2 - s1) as int, 0) == tdiv((e2 - s1) as int * 0, 65536),
                {
                }
                assert(false);
            }
            lemma_medium_decision(
                t1 as int,
                t2 as int,
                t_min as int,
                t_max as int,
                flight as int,
                len as int,
            );
            lemma_tdiv_bound(flight as int * 65536, len as int);
            assert(tdiv(flight as int * 65536, len as int) >= 0) by (nonlinear_arith)
                requires
                    flight >= 0,
                    len >= 1,
            {
            }
        }
        let step = div_fx(flight, len);
        Some(s1 + step)
    } else {
        None
    }
}

impl HitableList {
    pub fn new(entities: Vec<Hittable>) -> (r: Self)
        ensures
            r.entities == entities,
    {
        HitableList { entities }
    }

    pub fn push(&mut self, entity: Hittable)
        ensures
            final(self).entities@ == old(self).entities@.push(entity),
    {
        self.entities.push(entity);
    }

    /// The linear scan: every accepted hit becomes the new far limit, so
    /// the record kept at the end is the nearest.
    #[verifier::rlimit(100)]
    pub fn hit(
        &self,
        r: &Ray,
        t_min: i64,
        t_max: i64,
        rng: &mut rand::rngs::StdRng,
    ) -> (res: Option<HitRecord>)
        requires
            hittable_wf(Hittable::List(*self)),
            ray_ok(Hittable::List(*self), *r),
            abs_i(r.time as int) <= GEOM_LIMIT as int,
            time_ok(Hittable::List(*self), r.time as int),
            abs_i(t_min as int) <= T_QUERY_LIMIT as int,
            abs_i(t_max as int) <= T_QUERY_LIMIT as int,
        ensures
            deterministic(Hittable::List(*self)) ==> res == spec_list_hit(
                *self,
                self.entities@.len() as int,
                *r,
                t_min as int,
                t_max as int,
            ),
            res matches Some(rec) ==> t_min <= rec.t <= t_max && 0 <= rec.u <= SCALE && 0 <= rec.v
                <= SCALE && bounded_vec(rec.normal, 2 * (SCALE as int)),
            res matches Some(rec) ==> forall|b: int|
                ray_env(Hittable::List(*self), *r, b) ==> bounded_vec(
                    rec.p,
                    p_bound(Hittable::List(*self), b),
                ),
        decreases *self, 0int, 1int,
    {
        let ghost me = Hittable::List(*self);
        let mut result: Option<HitRecord> = None;
        let mut closest: i64 = t_max;
        let mut i: usize = 0;
        while i < self.entities.len()
            invariant
                hittable_wf(me),
                ray_ok(me, *r),
                abs_i(r.time as int) <= GEOM_LIMIT as int,
                time_ok(me, r.time as int),
                abs_i(t_min as int) <= T_QUERY_LIMIT as int,
                abs_i(t_max as int) <= T_QUERY_LIMIT as int,
                me == Hittable::List(*self),
                0 <= i <= self.entities@.len(),
                closest as int == match result {
                    Some(rec) => rec.t as int,
                    None => t_max as int,
                },
                deterministic(me) ==> result == spec_list_hit(
                    *self,
                    i as int,
                    *r,
                    t_min as int,
                    t_max as int,
                ),
                result matches Some(rec) ==> t_min <= rec.t <= t_max && 0 <= rec.u <= SCALE && 0
                    <= rec.v <= SCALE && bounded_vec(rec.normal, 2 * (SCALE as int)),
                result matches Some(rec) ==> forall|b: int|
                    ray_env(me, *r, b) ==> bounded_vec(rec.p, p_bound(me, b)),
            decreases self.entities@.len() - i,
        {
            proof {
                let b0 = choose|b0: int| ray_env(me, *r, b0);
                lemma_p_bound_list_ge(*self, self.entities@.len() as int, i as int, b0);
                assert(ray_env(self.entities@[i as int], *r, b0));
            }
            let cur = (&self.entities[i]).hit(r, t_min, closest, rng);
            proof {
                if cur is Some {
                    assert forall|b: int| ray_env(me, *r, b) implies bounded_vec(
                        cur->0.p,
                        p_bound(me, b),
                    ) by {
                        lemma_p_bound_list_ge(*self, self.entities@.len() as int, i as int, b);
                        assert(ray_env(self.entities@[i as int], *r, b));
                    }
                }
            }
            match cur {
                Some(rec) => {
                    closest = rec.t;
                    result = Some(rec);
                },
                None => (),
            }
            i = i + 1;
        }
        result
    }
}

impl Hittable {
    /// The nearest intersection of the ray with this object strictly
    /// inside the query interval, or None.
    #[verifier::rlimit(100)]
    pub fn hit(
        &self,
        r: &Ray,
        t_min: i64,
        t_max: i64,
        rng: &mut rand::rngs::StdRng,
    ) -> (res: Option<HitRecord>)
        requires
            hittable_wf(*self),
            ray_ok(*self, *r),
            abs_i(r.time as int) <= GEOM_LIMIT as int,
            time_ok(*self, r.time as int),
            abs_i(t_min as int) <= T_QUERY_LIMIT as int,
            abs_i(t_max as int) <= T_QUERY_LIMIT as int,
        ensures
            deterministic(*self) ==> res == spec_hit(*self, *r, t_min as int, t_max as int),
            res matches Some(rec) ==> t_min <= rec.t <= t_max && 0 <= rec.u <= SCALE && 0 <= rec.v
                <= SCALE && bounded_vec(rec.normal, 2 * (SCALE as int)),
            res matches Some(rec) ==> forall|b: int|
                ray_env(*self, *r, b) ==> bounded_vec(rec.p, p_bound(*self, b)),
            self matches Hittable::ConstantMedium(cm) ==> exists|
                h1: Option<HitRecord>,
                h2: Option<HitRecord>,
                flight: int,
            |
                #[trigger] medium_rel(*cm, *r, t_min as int, t_max as int, h1, h2, flight, res),
        decreases *self, 1int,
    {
        let ghost me = *self;
        match self {
            Hittable::Sphere(s) => {
                proof {
                    let b0 = choose|b0: int| ray_env(me, *r, b0);
                }
                let res = sphere_hit_core(s.center, s.r, s.material, r, t_min, t_max);
                proof {
                    if res is Some {
                        assert forall|b: int| ray_env(me, *r, b) implies bounded_vec(
                            res->0.p,
                            p_bound(me, b),
                        ) by {
                            lemma_point_bound(*r, res->0.t as int, b);
                        }
                    }
                }
                res
            },
            Hittable::MovingSphere(s) => {
                proof {
                    let b0 = choose|b0: int| ray_env(me, *r, b0);
                }
                let center = ms_center(s, r.time);
                let res = sphere_hit_core(center, s.r, s.material, r, t_min, t_max);
                proof {
                    if res is Some {
                        assert forall|b: int| ray_env(me, *r, b) implies bounded_vec(
                            res->0.p,
                            p_bound(me, b),
                        ) by {
                            lemma_point_bound(*r, res->0.t as int, b);
                        }
                    }
                }
                res
            },
            Hittable::XYRect(rc) => {
                proof {
                    let b0 = choose|b0: int| ray_env(me, *r, b0);
                }
                match rect_hit_core(
                    r.origin.z,
                    r.direction.z,
                    rc.k,
                    r.origin.x,
                    r.direction.x,
                    rc.x0,
                    rc.x1,
                    r.origin.y,
                    r.direction.y,
                    rc.y0,
                    rc.y1,
                    t_min,
                    t_max,
                ) {
                    Some(w) => {
                        proof {
                            let b0 = choose|b0: int| ray_env(me, *r, b0);
                            lemma_point_bound(*r, w.0 as int, b0);
                        }
                        let p = r.point_at_parameter(w.0);
                        proof {
                            assert forall|b: int| ray_env(me, *r, b) implies bounded_vec(
                                p,
                                p_bound(me, b),
                            ) by {
                                lemma_point_bound(*r, w.0 as int, b);
                            }
                        }
                        Some(HitRecord::new(w.0, p, Vec3::new(0, 0, SCALE), rc.material, w.1, w.2))
                    },
                    None => None,
                }
            },
            Hittable::XZRect(rc) => {
                proof {
                    let b0 = choose|b0: int| ray_env(me, *r, b0);
                }
                match rect_hit_core(
                    r.origin.y,
                    r.direction.y,
                    rc.k,
                    r.origin.x,
                    r.direction.x,
                    rc.x0,
                    rc.x1,
                    r.origin.z,
                    r.direction.z,
                    rc.z0,
                    rc.z1,
                    t_min,
                    t_max,
                ) {
                    Some(w) => {
                        proof {
                            let b0 = choose|b0: int| ray_env(me, *r, b0);
                            lemma_point_bound(*r, w.0 as int, b0);
                        }
                        let p = r.point_at_parameter(w.0);
                        proof {
                            assert forall|b: int| ray_env(me, *r, b) implies bounded_vec(
                                p,
                                p_bound(me, b),
                            ) by {
                                lemma_point_bound(*r, w.0 as int, b);
                            }
                        }
                        Some(HitRecord::new(w.0, p, Vec3::new(0, SCALE, 0), rc.material, w.1, w.2))
                    },
                    None => None,
                }
            },
            Hittable::YZRect(rc) => {
                proof {
                    let b0 = choose|b0: int| ray_env(me, *r, b0);
                }
                match rect_hit_core(
                    r.origin.x,
                    r.direction.x,
                    rc.k,
                    r.origin.y,
                    r.direction.y,
                    rc.y0,
                    rc.y1,
                    r.origin.z,
                    r.direction.z,
                    rc.z0,
                    rc.z1,
                    t_min,
                    t_max,
                ) {
                    Some(w) => {
                        proof {
                            let b0 = choose|b0: int| ray_env(me, *r, b0);
                            lemma_point_bound(*r, w.0 as int, b0);
                        }
                        let p = r.point_at_parameter(w.0);
                        proof {
                            assert forall|b: int| ray_env(me, *r, b) implies bounded_vec(
                                p,
                                p_bound(me, b),
                            ) by {
                                lemma_point_bound(*r, w.0 as int, b);
                            }
                        }
                        Some(HitRecord::new(w.0, p, Vec3::new(SCALE, 0, 0), rc.material, w.1, w.2))
                    },
                    None => None,
                }
            },
            Hittable::BoxShape(bs) => {
                proof {
                    let b0 = choose|b0: int| ray_env(me, *r, b0);
                    assert(ray_env(Hittable::List(bs.hit_objects), *r, b0));
                }
                let res = bs.hit_objects.hit(r, t_min, t_max, rng);
                proof {
                    if res is Some {
                        assert forall|b: int| ray_env(me, *r, b) implies bounded_vec(
                            res->0.p,
                            p_bound(me, b),
                        ) by {
                            assert(ray_env(Hittable::List(bs.hit_objects), *r, b));
                        }
                    }
                }
                res
            },
            Hittable::Translate(tr) => hit_translate(tr, r, t_min, t_max, rng),
            Hittable::RotateY(ry) => hit_rotate(ry, r, t_min, t_max, rng),
            Hittable::FlipNormal(f) => {
                proof {
                    let b0 = choose|b0: int| ray_env(me, *r, b0);
                    assert(ray_env(*f.hittable, *r, b0));
                }
                let inner = f.hittable.hit(r, t_min, t_max, rng);
                match inner {
                    Some(rec) => {
                        let n2 = rec.normal.neg();
                        proof {
                            assert forall|b: int| ray_env(me, *r, b) implies bounded_vec(
                                rec.p,
                                p_bound(me, b),
                            ) by {
                                assert(ray_env(*f.hittable, *r, b));
                            }
                        }
                        Some(HitRecord { normal: n2, ..rec })
                    },
                    None => None,
                }
            },
            Hittable::List(l) => {
                proof {
                    let b0 = choose|b0: int| ray_env(me, *r, b0);
                }
                l.hit(r, t_min, t_max, rng)
            },
            Hittable::Bvh(n) => hit_bvh(n, r, t_min, t_max, rng),
            Hittable::ConstantMedium(m) => hit_medium(m, r, t_min, t_max, rng),
        }
    }
}

} // verus!

verus! {

fn hit_translate(tr: &Translate, r: &Ray, t_min: i64, t_max: i64, rng: &mut rand::rngs::StdRng) -> (res:
    Option<HitRecord>)
    requires
        hittable_wf(Hittable::Translate(*tr)),
        ray_ok(Hittable::Translate(*tr), *r),
        abs_i(r.time as int) <= GEOM_LIMIT as int,
        time_ok(Hittable::Translate(*tr), r.time as int),
        abs_i(t_min as int) <= T_QUERY_LIMIT as int,
        abs_i(t_max as int) <= T_QUERY_LIMIT as int,
    ensures
        deterministic(Hittable::Translate(*tr)) ==> res == spec_hit(
            Hittable::Translate(*tr),
            *r,
            t_min as int,
            t_max as int,
        ),
        res matches Some(rec) ==> t_min <= rec.t <= t_max && 0 <= rec.u <= SCALE && 0 <= rec.v
            <= SCALE && bounded_vec(rec.normal, 2 * (SCALE as int)),
        res matches Some(rec) ==> forall|b: int|
            ray_env(Hittable::Translate(*tr), *r, b) ==> bounded_vec(
                rec.p,
                p_bound(Hittable::Translate(*tr), b),
            ),
    decreases *tr, 2int,
{
    let ghost me = Hittable::Translate(*tr);

                let ghost b0 = choose|b0: int| ray_env(me, *r, b0);
                proof {
                    lemma_p_bound_lower(*tr.object, b0 + GEOM_LIMIT as int);
                }
                let moved = Ray::new(r.origin.sub(tr.offset), r.direction, r.time);
                proof {
                    assert(ray_env(*tr.object, moved, b0 + GEOM_LIMIT as int));
                }
                let inner = tr.object.hit(&moved, t_min, t_max, rng);
                match inner {
                    Some(rec) => {
                        proof {
                            assert(bounded_vec(rec.p, p_bound(*tr.object, b0 + GEOM_LIMIT as int)));
                        }
                        let p2 = rec.p.add(tr.offset);
                        proof {
                            assert forall|b: int| ray_env(me, *r, b) implies bounded_vec(
                                p2,
                                p_bound(me, b),
                            ) by {
                                lemma_p_bound_lower(*tr.object, b + GEOM_LIMIT as int);
                                assert(ray_env(*tr.object, moved, b + GEOM_LIMIT as int));
                            }
                        }
                        Some(HitRecord { p: p2, ..rec })
                    },
                    None => None,
                }
}

fn hit_rotate(ry: &RotateY, r: &Ray, t_min: i64, t_max: i64, rng: &mut rand::rngs::StdRng) -> (res:
    Option<HitRecord>)
    requires
        hittable_wf(Hittable::RotateY(*ry)),
        ray_ok(Hittable::RotateY(*ry), *r),
        abs_i(r.time as int) <= GEOM_LIMIT as int,
        time_ok(Hittable::RotateY(*ry), r.time as int),
        abs_i(t_min as int) <= T_QUERY_LIMIT as int,
        abs_i(t_max as int) <= T_QUERY_LIMIT as int,
    ensures
        deterministic(Hittable::RotateY(*ry)) ==> res == spec_hit(
            Hittable::RotateY(*ry),
            *r,
            t_min as int,
            t_max as int,
        ),
        res matches Some(rec) ==> t_min <= rec.t <= t_max && 0 <= rec.u <= SCALE && 0 <= rec.v
            <= SCALE && bounded_vec(rec.normal, 2 * (SCALE as int)),
        res matches Some(rec) ==> forall|b: int|
            ray_env(Hittable::RotateY(*ry), *r, b) ==> bounded_vec(
                rec.p,
                p_bound(Hittable::RotateY(*ry), b),
            ),
    decreases *ry, 2int,
{
    let ghost me = Hittable::RotateY(*ry);

                let ghost b0 = choose|b0: int| ray_env(me, *r, b0);
                proof {
                    lemma_fmul_unit(ry.cos_theta as int, r.origin.x as int);
                    lemma_fmul_unit(ry.sin_theta as int, r.origin.z as int);
                    lemma_fmul_unit(ry.sin_theta as int, r.origin.x as int);
                    lemma_fmul_unit(ry.cos_theta as int, r.origin.z as int);
                    lemma_fmul_unit(ry.cos_theta as int, r.direction.x as int);
                    lemma_fmul_unit(ry.sin_theta as int, r.direction.z as int);
                    lemma_fmul_unit(ry.sin_theta as int, r.direction.x as int);
                    lemma_fmul_unit(ry.cos_theta as int, r.direction.z as int);
                }
                let rotated = Ray::new(
                    Vec3::new(
                        mul_fx(ry.cos_theta, r.origin.x) - mul_fx(ry.sin_theta, r.origin.z),
                        r.origin.y,
                        mul_fx(ry.sin_theta, r.origin.x) + mul_fx(ry.cos_theta, r.origin.z),
                    ),
                    Vec3::new(
                        mul_fx(ry.cos_theta, r.direction.x) - mul_fx(ry.sin_theta, r.direction.z),
                        r.direction.y,
                        mul_fx(ry.sin_theta, r.direction.x) + mul_fx(ry.cos_theta, r.direction.z),
                    ),
                    r.time,
                );
                proof {
                    lemma_p_bound_lower(*ry.object, 2 * b0);
                    assert(ray_env(*ry.object, rotated, 2 * b0));
                }
                let inner = ry.object.hit(&rotated, t_min, t_max, rng);
                match inner {
                    Some(rec) => {
                        proof {
                            assert(bounded_vec(rec.p, p_bound(*ry.object, 2 * b0)));
                            lemma_fmul_unit(ry.cos_theta as int, rec.p.x as int);
                            lemma_fmul_unit(ry.sin_theta as int, rec.p.z as int);
                            lemma_fmul_unit(ry.sin_theta as int, rec.p.x as int);
                            lemma_fmul_unit(ry.cos_theta as int, rec.p.z as int);
                            lemma_fmul_unit(ry.cos_theta as int, rec.normal.x as int);
                            lemma_fmul_unit(ry.sin_theta as int, rec.normal.z as int);
                            lemma_fmul_unit(ry.sin_theta as int, rec.normal.x as int);
                            lemma_fmul_unit(ry.cos_theta as int, rec.normal.z as int);
                        }
                        let p2 = Vec3::new(
                            mul_fx(ry.cos_theta, rec.p.x) + mul_fx(ry.sin_theta, rec.p.z),
                            rec.p.y,
                            -mul_fx(ry.sin_theta, rec.p.x) + mul_fx(ry.cos_theta, rec.p.z),
                        );
                        let n2 = Vec3::new(
                            clamp_fx(
                                mul_fx(ry.cos_theta, rec.normal.x) + mul_fx(
                                    ry.sin_theta,
                                    rec.normal.z,
                                ),
                                2 * SCALE,
                            ),
                            clamp_fx(rec.normal.y, 2 * SCALE),
                            clamp_fx(
                                -mul_fx(ry.sin_theta, rec.normal.x) + mul_fx(
                                    ry.cos_theta,
                                    rec.normal.z,
                                ),
                                2 * SCALE,
                            ),
                        );
                        proof {
                            assert forall|b: int| ray_env(me, *r, b) implies bounded_vec(
                                p2,
                                p_bound(me, b),
                            ) by {
                                lemma_p_bound_lower(*ry.object, 2 * b);
                                assert(ray_env(*ry.object, rotated, 2 * b));
                            }
                        }
                        Some(HitRecord { p: p2, normal: n2, ..rec })
                    },
                    None => None,
                }
}

fn hit_bvh(n: &BVHNode, r: &Ray, t_min: i64, t_max: i64, rng: &mut rand::rngs::StdRng) -> (res:
    Option<HitRecord>)
    requires
        hittable_wf(Hittable::Bvh(*n)),
        ray_ok(Hittable::Bvh(*n), *r),
        abs_i(r.time as int) <= GEOM_LIMIT as int,
        time_ok(Hittable::Bvh(*n), r.time as int),
        abs_i(t_min as int) <= T_QUERY_LIMIT as int,
        abs_i(t_max as int) <= T_QUERY_LIMIT as int,
    ensures
        deterministic(Hittable::Bvh(*n)) ==> res == spec_hit(
            Hittable::Bvh(*n),
            *r,
            t_min as int,
            t_max as int,
        ),
        res matches Some(rec) ==> t_min <= rec.t <= t_max && 0 <= rec.u <= SCALE && 0 <= rec.v
            <= SCALE && bounded_vec(rec.normal, 2 * (SCALE as int)),
        res matches Some(rec) ==> forall|b: int|
            ray_env(Hittable::Bvh(*n), *r, b) ==> bounded_vec(
                rec.p,
                p_bound(Hittable::Bvh(*n), b),
            ),
    decreases *n, 2int,
{
    let ghost me = Hittable::Bvh(*n);

                let ghost b0 = choose|b0: int| ray_env(me, *r, b0);
                match n.b_box.hit(r, t_min, t_max) {
                    Some(w) => {
                        proof {
                            assert(t_min <= w.0 < w.1 <= t_max);
                            assert(ray_env(*n.left, *r, b0));
                            assert(ray_env(*n.right, *r, b0));
                        }
                        let hit_left = n.left.hit(r, w.0, w.1, rng);
                        let hit_right = n.right.hit(r, w.0, w.1, rng);
                        let res = match (hit_left, hit_right) {
                            (Some(lr), Some(rr)) => if lr.t < rr.t {
                                Some(lr)
                            } else {
                                Some(rr)
                            },
                            (Some(lr), None) => Some(lr),
                            (None, Some(rr)) => Some(rr),
                            (None, None) => None,
                        };
                        proof {
                            if res is Some {
                                assert forall|b: int| ray_env(me, *r, b) implies bounded_vec(
                                    res->0.p,
                                    p_bound(me, b),
                                ) by {
                                    assert(ray_env(*n.left, *r, b));
                                    assert(ray_env(*n.right, *r, b));
                                }
                            }
                        }
                        res
                    },
                    None => None,
                }
}

fn hit_medium(m: &ConstantMedium, r: &Ray, t_min: i64, t_max: i64, rng: &mut rand::rngs::StdRng) -> (res:
    Option<HitRecord>)
    requires
        hittable_wf(Hittable::ConstantMedium(*m)),
        ray_ok(Hittable::ConstantMedium(*m), *r),
        abs_i(r.time as int) <= GEOM_LIMIT as int,
        time_ok(Hittable::ConstantMedium(*m), r.time as int),
        abs_i(t_min as int) <= T_QUERY_LIMIT as int,
        abs_i(t_max as int) <= T_QUERY_LIMIT as int,
    ensures
        deterministic(Hittable::ConstantMedium(*m)) ==> res == spec_hit(
            Hittable::ConstantMedium(*m),
            *r,
            t_min as int,
            t_max as int,
        ),
        res matches Some(rec) ==> t_min <= rec.t <= t_max && 0 <= rec.u <= SCALE && 0 <= rec.v
            <= SCALE && bounded_vec(rec.normal, 2 * (SCALE as int)),
        res matches Some(rec) ==> forall|b: int|
            ray_env(Hittable::ConstantMedium(*m), *r, b) ==> bounded_vec(
                rec.p,
                p_bound(Hittable::ConstantMedium(*m), b),
            ),
        exists|h1: Option<HitRecord>, h2: Option<HitRecord>, flight: int|
            #[trigger] medium_rel(*m, *r, t_min as int, t_max as int, h1, h2, flight, res),
    decreases *m, 2int,
{
    let ghost me = Hittable::ConstantMedium(*m);

                let ghost b0 = choose|b0: int| ray_env(me, *r, b0);
                proof {
                    assert(ray_env(*m.boundary, *r, b0));
                }
                match m.boundary.hit(r, -T_FAR, T_FAR, rng) {
                    Some(rec1) => {
                        match m.boundary.hit(r, rec1.t + PAD_FX, T_FAR, rng) {
                            Some(rec2) => {
                                proof {
                                    crate::vec3::lemma_sq_len_nonneg(r.direction);
                                    lemma_fmul_abs(
                                        r.direction.x as int,
                                        r.direction.x as int,
                                        0x4000_0000,
                                        0x4000_0000,
                                    );
                                    lemma_fmul_abs(
                                        r.direction.y as int,
                                        r.direction.y as int,
                                        0x4000_0000,
                                        0x4000_0000,
                                    );
                                    lemma_fmul_abs(
                                        r.direction.z as int,
                                        r.direction.z as int,
                                        0x4000_0000,
                                        0x4000_0000,
                                    );
                                }
                                let len = r.direction.length();
                                proof {
                                    lemma_sqrt_exists(spec_sq_len(r.direction) * 65536);
                                    assert(len <= 0x8000_0000) by (nonlinear_arith)
                                        requires
                                            is_sqrt(spec_sq_len(r.direction) * 65536, len as int),
                                            0 <= spec_sq_len(r.direction) <= 0x3000_0000_0000,
                                    {
                                    }
                                }
                                let flight = sample_flight(m.density, rng);
                                match medium_scatter_decision(
                                    rec1.t,
                                    rec2.t,
                                    t_min,
                                    t_max,
                                    flight,
                                    len,
                                ) {
                                    Some(t) => {
                                        proof {
                                            lemma_point_bound(*r, t as int, b0);
                                        }
                                        let p = r.point_at_parameter(t);
                                        proof {
                                            assert forall|b: int|
                                                ray_env(me, *r, b) implies bounded_vec(
                                                p,
                                                p_bound(me, b),
                                            ) by {
                                                lemma_point_bound(*r, t as int, b);
                                                assert(b * 0x400_0000 <= p_bound(me, b));
                                            }
                                        }
                                        let res = Some(
                                            HitRecord::new(
                                                t,
                                                p,
                                                Vec3::new(SCALE, 0, 0),
                                                m.phase_material,
                                                0,
                                                0,
                                            ),
                                        );
                                        proof {
                                            assert(medium_rel(
                                                *m,
                                                *r,
                                                t_min as int,
                                                t_max as int,
                                                Some(rec1),
                                                Some(rec2),
                                                flight as int,
                                                res,
                                            ));
                                        }
                                        res
                                    },
                                    None => {
                                        proof {
                                            assert(medium_rel(
                                                *m,
                                                *r,
                                                t_min as int,
                                                t_max as int,
                                                Some(rec1),
                                                Some(rec2),
                                                flight as int,
                                                None::<HitRecord>,
                                            ));
                                        }
                                        None
                                    },
                                }
                            },
                            None => {
                                proof {
                                    assert(medium_rel(
                                        *m,
                                        *r,
                                        t_min as int,
                                        t_max as int,
                                        Some(rec1),
                                        None::<HitRecord>,
                                        0,
                                        None::<HitRecord>,
                                    ));
                                }
                                None
                            },
                        }
                    },
                    None => {
                        proof {
                            assert(medium_rel(
                                *m,
                                *r,
                                t_min as int,
                                t_max as int,
                                None::<HitRecord>,
                                None::<HitRecord>,
                                0,
                                None::<HitRecord>,
                            ));
                        }
                        None
                    },
                }
}

} // verus!

verus! {

/// A sound list has sound children.
proof fn lemma_list_wf_elem(l: HitableList, i: int)
    requires
        hittable_wf(Hittable::List(l)),
        0 <= i < l.entities@.len(),
    ensures
        hittable_wf(l.entities@[i]),
{
    let le = Hittable::List(l);
    assert(le->List_0 == l);
    assert(hittable_wf(le->List_0.entities@[i]));
}

/// An empty list is sound, deterministic, timeless and fits any ray.
proof fn lemma_empty_list_ok(l: HitableList, tm: int, b: int)
    requires
        l.entities@.len() == 0,
    ensures
        hittable_wf(Hittable::List(l)),
        deterministic(Hittable::List(l)),
        time_ok(Hittable::List(l), tm),
        ray_fits(Hittable::List(l), b),
{
    let le = Hittable::List(l);
    assert(le->List_0 == l);
    assert(forall|i: int| 0 <= i < l.entities@.len() ==> hittable_wf(#[trigger] le->List_0.entities@[i]));
    assert(forall|i: int| 0 <= i < l.entities@.len() ==> deterministic(#[trigger] le->List_0.entities@[i]));
    assert(forall|i: int| 0 <= i < l.entities@.len() ==> time_ok(#[trigger] le->List_0.entities@[i], tm));
    assert(forall|i: int| 0 <= i < l.entities@.len() ==> ray_fits(#[trigger] le->List_0.entities@[i], b));
}

/// Once a prefix of the list is unboundable, so is every longer prefix.
proof fn lemma_list_bbox_none(l: HitableList, i: int, n: int, t0: int, t1: int)
    requires
        1 <= i <= n <= l.entities@.len(),
        spec_list_bbox(l, i, t0, t1) is None,
    ensures
        spec_list_bbox(l, n, t0, t1) is None,
    decreases n - i,
{
    if i < n {
        lemma_list_bbox_none(l, i + 1, n, t0, t1);
    }
}

/// A clamped translation of one corner coordinate.
fn shift_clamped(corner: i64, off: i64) -> (r: i64)
    requires
        abs_i(off as int) <= GEOM_LIMIT as int,
    ensures
        r == sclamp(corner as int + off as int, 0x10_0000_0000_0000),
{
    let wide: i128 = (corner as i128) + (off as i128);
    if wide > 0x10_0000_0000_0000 {
        0x10_0000_0000_0000
    } else if wide < -0x10_0000_0000_0000 {
        -0x10_0000_0000_0000
    } else {
        wide as i64
    }
}

/// The interpolated center at an arbitrary time (extrapolating outside
/// the keyframe span), for bounding boxes.
fn ms_center_any(s: &MovingSphere, time: i64) -> (c: Vec3)
    requires
        hittable_wf(Hittable::MovingSphere(*s)),
        abs_i(time as int) <= GEOM_LIMIT as int,
    ensures
        c == spec_ms_center(*s, time as int),
        bounded_vec(c, 0x8_0000_0000_0000),
{
    proof {
        lemma_tdiv_bound((time - s.time0) as int * 65536, (s.time1 - s.time0) as int);
        assert(abs_i((time - s.time0) as int * 65536) <= 0x200_0000_0000) by (nonlinear_arith)
            requires
                abs_i((time - s.time0) as int) <= 0x200_0000,
        {
        }
    }
    let f = div_fx(time - s.time0, s.time1 - s.time0);
    proof {
        lemma_fmul_abs((s.center1.x - s.center0.x) as int, f as int, 0x200_0000, 0x200_0000_0000);
        lemma_fmul_abs((s.center1.y - s.center0.y) as int, f as int, 0x200_0000, 0x200_0000_0000);
        lemma_fmul_abs((s.center1.z - s.center0.z) as int, f as int, 0x200_0000, 0x200_0000_0000);
    }
    let off = Vec3::new(
        mul_fx(s.center1.x - s.center0.x, f),
        mul_fx(s.center1.y - s.center0.y, f),
        mul_fx(s.center1.z - s.center0.z, f),
    );
    s.center0.add(off)
}

impl HitableList {
    /// The union of the children's boxes, or None if any child has none.
    pub fn bounding_box(&self, t0: i64, t1: i64) -> (res: Option<AABB>)
        requires
            hittable_wf(Hittable::List(*self)),
            abs_i(t0 as int) <= GEOM_LIMIT as int,
            abs_i(t1 as int) <= GEOM_LIMIT as int,
        ensures
            res == spec_list_bbox(*self, self.entities@.len() as int, t0 as int, t1 as int),
        decreases *self, 0int, 1int,
    {
        let n = self.entities.len();
        if n == 0 {
            return None;
        }
        proof {
            lemma_list_wf_elem(*self, 0);
        }
        let first = (&self.entities[0]).bounding_box(t0, t1);
        let mut r_box: AABB = match first {
            Some(bx) => bx,
            None => {
                proof {
                    lemma_list_bbox_none(*self, 1, self.entities@.len() as int, t0 as int, t1 as int);
                }
                return None;
            },
        };
        let mut i: usize = 1;
        while i < n
            invariant
                hittable_wf(Hittable::List(*self)),
                abs_i(t0 as int) <= GEOM_LIMIT as int,
                abs_i(t1 as int) <= GEOM_LIMIT as int,
                n == self.entities@.len(),
                1 <= i <= n,
                spec_list_bbox(*self, i as int, t0 as int, t1 as int) == Some(r_box),
            decreases n - i,
        {
            proof {
                lemma_list_wf_elem(*self, i as int);
            }
            match (&self.entities[i]).bounding_box(t0, t1) {
                Some(bx) => {
                    r_box = surrounding_box(&r_box, &bx);
                },
                None => {
                    proof {
                        lemma_list_bbox_none(
                            *self,
                            i as int + 1,
                            self.entities@.len() as int,
                            t0 as int,
                            t1 as int,
                        );
                    }
                    return None;
                },
            }
            i = i + 1;
        }
        Some(r_box)
    }
}

impl Hittable {
    /// The bounding box over the time span, None for unboundable shapes.
    pub fn bounding_box(&self, t0: i64, t1: i64) -> (res: Option<AABB>)
        requires
            hittable_wf(*self),
            abs_i(t0 as int) <= GEOM_LIMIT as int,
            abs_i(t1 as int) <= GEOM_LIMIT as int,
        ensures
            res == spec_bbox(*self, t0 as int, t1 as int),
        decreases *self, 1int,
    {
        match self {
            Hittable::Sphere(s) => {
                let rv = Vec3::new(s.r, s.r, s.r);
                Some(AABB::new(s.center.sub(rv), s.center.add(rv)))
            },
            Hittable::MovingSphere(s) => {
                let c0 = ms_center_any(s, t0);
                let c1 = ms_center_any(s, t1);
                let rv = Vec3::new(s.r, s.r, s.r);
                let box0 = AABB::new(c0.sub(rv), c0.add(rv));
                let box1 = AABB::new(c1.sub(rv), c1.add(rv));
                Some(surrounding_box(&box0, &box1))
            },
            Hittable::XYRect(rc) => Some(
                AABB::new(
                    Vec3::new(rc.x0, rc.y0, rc.k - PAD_FX),
                    Vec3::new(rc.x1, rc.y1, rc.k + PAD_FX),
                ),
            ),
            Hittable::XZRect(rc) => Some(
                AABB::new(
                    Vec3::new(rc.x0, rc.k - PAD_FX, rc.z0),
                    Vec3::new(rc.x1, rc.k + PAD_FX, rc.z1),
                ),
            ),
            Hittable::YZRect(rc) => Some(
                AABB::new(
                    Vec3::new(rc.k - PAD_FX, rc.y0, rc.z0),
                    Vec3::new(rc.k + PAD_FX, rc.y1, rc.z1),
                ),
            ),
            Hittable::BoxShape(b) => Some(AABB::new(b.pmin, b.pmax)),
            Hittable::Translate(tr) => {
                match tr.object.bounding_box(t0, t1) {
                    Some(bx) => Some(
                        AABB::new(
                            Vec3::new(
                                shift_clamped(bx.min.x, tr.offset.x),
                                shift_clamped(bx.min.y, tr.offset.y),
                                shift_clamped(bx.min.z, tr.offset.z),
                            ),
                            Vec3::new(
                                shift_clamped(bx.max.x, tr.offset.x),
                                shift_clamped(bx.max.y, tr.offset.y),
                                shift_clamped(bx.max.z, tr.offset.z),
                            ),
                        ),
                    ),
                    None => None,
                }
            },
            Hittable::RotateY(ry) => ry.aabb,
            Hittable::FlipNormal(f) => f.hittable.bounding_box(t0, t1),
            Hittable::List(l) => l.bounding_box(t0, t1),
            Hittable::Bvh(n) => Some(n.b_box),
            Hittable::ConstantMedium(m) => m.boundary.bounding_box(t0, t1),
        }
    }
}

} // verus!

verus! {

/// The bound within which scene-level rays (camera rays and guarded
/// scattered rays) stay.
pub const SCENE_ROOM: i64 = 0x1000_0000;

/// Every time in the span is admissible for the subtree.
pub open spec fn time_span_ok(h: Hittable, t0: int, t1: int) -> bool {
    forall|tm: int| t0 <= tm <= t1 ==> time_ok(h, tm)
}

/// Everything the hierarchy builder needs of an element: sound, purely
/// deterministic, valid over the whole shutter span, traceable by
/// scene-level rays, and boundable with moderate corners.
pub open spec fn scene_elem_ok(h: Hittable, t0: int, t1: int) -> bool {
    &&& hittable_wf(h)
    &&& deterministic(h)
    &&& time_span_ok(h, t0, t1)
    &&& ray_fits(h, SCENE_ROOM as int)
    &&& p_bound(h, SCENE_ROOM as int) <= 0x1000_0000_0000_0000
    &&& match spec_bbox(h, t0, t1) {
        Some(bx) => bounded_vec(bx.min, 0x2000_0000) && bounded_vec(bx.max, 0x2000_0000),
        None => false,
    }
}

impl Sphere {
    pub fn new(radius: i64, center: Vec3, material: usize) -> (r: Self)
        ensures
            r == (Sphere { r: radius, center, material }),
    {
        Sphere { r: radius, center, material }
    }
}

impl MovingSphere {
    pub fn new(
        radius: i64,
        center0: Vec3,
        center1: Vec3,
        material: usize,
        time0: i64,
        time1: i64,
    ) -> (r: Self)
        ensures
            r == (MovingSphere { r: radius, center0, center1, material, time0, time1 }),
    {
        MovingSphere { r: radius, center0, center1, material, time0, time1 }
    }

    /// The center at a time, interpolating between the keyframes and
    /// extrapolating linearly outside their span.
    pub fn center(&self, time: i64) -> (c: Vec3)
        requires
            hittable_wf(Hittable::MovingSphere(*self)),
            abs_i(time as int) <= GEOM_LIMIT as int,
        ensures
            c == spec_ms_center(*self, time as int),
    {
        ms_center_any(self, time)
    }
}

impl XYRect {
    pub fn new(x0: i64, x1: i64, y0: i64, y1: i64, k: i64, material: usize) -> (r: Self)
        ensures
            r == (XYRect { x0, x1, y0, y1, k, material }),
    {
        XYRect { x0, x1, y0, y1, k, material }
    }
}

impl XZRect {
    pub fn new(x0: i64, x1: i64, z0: i64, z1: i64, k: i64, material: usize) -> (r: Self)
        ensures
            r == (XZRect { x0, x1, z0, z1, k, material }),
    {
        XZRect { x0, x1, z0, z1, k, material }
    }
}

impl YZRect {
    pub fn new(y0: i64, y1: i64, z0: i64, z1: i64, k: i64, material: usize) -> (r: Self)
        ensures
            r == (YZRect { y0, y1, z0, z1, k, material }),
    {
        YZRect { y0, y1, z0, z1, k, material }
    }
}

impl Translate {
    pub fn new(object: Hittable, offset: Vec3) -> (r: Self)
        ensures
            *r.object == object && r.offset == offset,
    {
        Translate { object: Box::new(object), offset }
    }
}

impl FlipNormal {
    pub fn new(hittable: Hittable) -> (r: Self)
        ensures
            *r.hittable == hittable,
    {
        FlipNormal { hittable: Box::new(hittable) }
    }
}

impl ConstantMedium {
    pub fn new(boundary: Hittable, density: i64, phase_material: usize) -> (r: Self)
        ensures
            *r.boundary == boundary && r.density == density && r.phase_material == phase_material,
    {
        ConstantMedium { boundary: Box::new(boundary), density, phase_material }
    }
}

impl BoxShape {
    /// A closed axis-aligned box: six rectangles, the near side of each
    /// pair facing outward through a normal flip.
    pub fn new(p_min: Vec3, p_max: Vec3, material: usize) -> (r: Self)
        ensures
            r.pmin == p_min,
            r.pmax == p_max,
            r.hit_objects.entities@.len() == 6,
            r.hit_objects.entities@[0] == Hittable::XYRect(
                XYRect { x0: p_min.x, x1: p_max.x, y0: p_min.y, y1: p_max.y, k: p_max.z, material },
            ),
            r.hit_objects.entities@[1] matches Hittable::FlipNormal(f) && *f.hittable
                == Hittable::XYRect(
                XYRect { x0: p_min.x, x1: p_max.x, y0: p_min.y, y1: p_max.y, k: p_min.z, material },
            ),
            r.hit_objects.entities@[2] == Hittable::XZRect(
                XZRect { x0: p_min.x, x1: p_max.x, z0: p_min.z, z1: p_max.z, k: p_max.y, material },
            ),
            r.hit_objects.entities@[3] matches Hittable::FlipNormal(f) && *f.hittable
                == Hittable::XZRect(
                XZRect { x0: p_min.x, x1: p_max.x, z0: p_min.z, z1: p_max.z, k: p_min.y, material },
            ),
            r.hit_objects.entities@[4] == Hittable::YZRect(
                YZRect { y0: p_min.y, y1: p_max.y, z0: p_min.z, z1: p_max.z, k: p_max.x, material },
            ),
            r.hit_objects.entities@[5] matches Hittable::FlipNormal(f) && *f.hittable
                == Hittable::YZRect(
                YZRect { y0: p_min.y, y1: p_max.y, z0: p_min.z, z1: p_max.z, k: p_min.x, material },
            ),
    {
        let mut objects = HitableList::new(Vec::new());
        objects.push(
            Hittable::XYRect(XYRect::new(p_min.x, p_max.x, p_min.y, p_max.y, p_max.z, material)),
        );
        objects.push(
            Hittable::FlipNormal(
                FlipNormal::new(
                    Hittable::XYRect(
                        XYRect::new(p_min.x, p_max.x, p_min.y, p_max.y, p_min.z, material),
                    ),
                ),
            ),
        );
        objects.push(
            Hittable::XZRect(XZRect::new(p_min.x, p_max.x, p_min.z, p_max.z, p_max.y, material)),
        );
        objects.push(
            Hittable::FlipNormal(
                FlipNormal::new(
                    Hittable::XZRect(
                        XZRect::new(p_min.x, p_max.x, p_min.z, p_max.z, p_min.y, material),
                    ),
                ),
            ),
        );
        objects.push(
            Hittable::YZRect(YZRect::new(p_min.y, p_max.y, p_min.z, p_max.z, p_max.x, material)),
        );
        objects.push(
            Hittable::FlipNormal(
                FlipNormal::new(
                    Hittable::YZRect(
                        YZRect::new(p_min.y, p_max.y, p_min.z, p_max.z, p_min.x, material),
                    ),
                ),
            ),
        );
        BoxShape { pmin: p_min, pmax: p_max, hit_objects: objects }
    }
}

} // verus!

verus! {

/// One corner of the box (selected by the three bits), rotated by +theta
/// about the y axis.
pub open spec fn spec_rot_corner(bx: AABB, c: int, s: int, i: int, j: int, k: int) -> Vec3 {
    let x = if i == 1 {
        bx.max.x as int
    } else {
        bx.min.x as int
    };
    let y = if j == 1 {
        bx.max.y as int
    } else {
        bx.min.y as int
    };
    let z = if k == 1 {
        bx.max.z as int
    } else {
        bx.min.z as int
    };
    vnew(fmul(c, x) + fmul(s, z), y, -fmul(s, x) + fmul(c, z))
}

pub open spec fn imin8(
    a: int,
    b: int,
    c: int,
    d: int,
    e: int,
    f: int,
    g: int,
    h: int,
) -> int {
    crate::aabb::imin(
        crate::aabb::imin(crate::aabb::imin(a, b), crate::aabb::imin(c, d)),
        crate::aabb::imin(crate::aabb::imin(e, f), crate::aabb::imin(g, h)),
    )
}

pub open spec fn imax8(
    a: int,
    b: int,
    c: int,
    d: int,
    e: int,
    f: int,
    g: int,
    h: int,
) -> int {
    crate::aabb::imax(
        crate::aabb::imax(crate::aabb::imax(a, b), crate::aabb::imax(c, d)),
        crate::aabb::imax(crate::aabb::imax(e, f), crate::aabb::imax(g, h)),
    )
}

/// The box enclosing all eight rotated corners of the child's box.
pub open spec fn spec_rotate_box(bx: AABB, c: int, s: int) -> AABB {
    let c0 = spec_rot_corner(bx, c, s, 0, 0, 0);
    let c1 = spec_rot_corner(bx, c, s, 0, 0, 1);
    let c2 = spec_rot_corner(bx, c, s, 0, 1, 0);
    let c3 = spec_rot_corner(bx, c, s, 0, 1, 1);
    let c4 = spec_rot_corner(bx, c, s, 1, 0, 0);
    let c5 = spec_rot_corner(bx, c, s, 1, 0, 1);
    let c6 = spec_rot_corner(bx, c, s, 1, 1, 0);
    let c7 = spec_rot_corner(bx, c, s, 1, 1, 1);
    AABB {
        min: vnew(
            imin8(
                c0.x as int,
                c1.x as int,
                c2.x as int,
                c3.x as int,
                c4.x as int,
                c5.x as int,
                c6.x as int,
                c7.x as int,
            ),
            imin8(
                c0.y as int,
                c1.y as int,
                c2.y as int,
                c3.y as int,
                c4.y as int,
                c5.y as int,
                c6.y as int,
                c7.y as int,
            ),
            imin8(
                c0.z as int,
                c1.z as int,
                c2.z as int,
                c3.z as int,
                c4.z as int,
                c5.z as int,
                c6.z as int,
                c7.z as int,
            ),
        ),
        max: vnew(
            imax8(
                c0.x as int,
                c1.x as int,
                c2.x as int,
                c3.x as int,
                c4.x as int,
                c5.x as int,
                c6.x as int,
                c7.x as int,
            ),
            imax8(
                c0.y as int,
                c1.y as int,
                c2.y as int,
                c3.y as int,
                c4.y as int,
                c5.y as int,
                c6.y as int,
                c7.y as int,
            ),
            imax8(
                c0.z as int,
                c1.z as int,
                c2.z as int,
                c3.z as int,
                c4.z as int,
                c5.z as int,
                c6.z as int,
                c7.z as int,
            ),
        ),
    }
}

/// One rotated corner, executable.
fn rot_corner(bx: &AABB, c: i64, s: i64, i: u8, j: u8, k: u8) -> (r: Vec3)
    requires
        abs_i(c as int) <= SCALE as int,
        abs_i(s as int) <= SCALE as int,
        bounded_vec(bx.min, 0x2000_0000),
        bounded_vec(bx.max, 0x2000_0000),
        i <= 1 && j <= 1 && k <= 1,
    ensures
        r == spec_rot_corner(*bx, c as int, s as int, i as int, j as int, k as int),
        bounded_vec(r, 0x4000_0000),
{
    let x = if i == 1 {
        bx.max.x
    } else {
        bx.min.x
    };
    let y = if j == 1 {
        bx.max.y
    } else {
        bx.min.y
    };
    let z = if k == 1 {
        bx.max.z
    } else {
        bx.min.z
    };
    proof {
        lemma_fmul_unit(c as int, x as int);
        lemma_fmul_unit(s as int, z as int);
        lemma_fmul_unit(s as int, x as int);
        lemma_fmul_unit(c as int, z as int);
    }
    Vec3::new(mul_fx(c, x) + mul_fx(s, z), y, -mul_fx(s, x) + mul_fx(c, z))
}

impl RotateY {
    /// Wraps an object rotated about the y axis; the sine and cosine of
    /// the angle are supplied in fixed point, and the cached box encloses
    /// the eight rotated corners of the child's box.
    pub fn new(object: Hittable, sin_theta: i64, cos_theta: i64) -> (r: Self)
        requires
            hittable_wf(object),
            abs_i(sin_theta as int) <= SCALE as int,
            abs_i(cos_theta as int) <= SCALE as int,
            abs_i(
                fmul(sin_theta as int, sin_theta as int) + fmul(
                    cos_theta as int,
                    cos_theta as int,
                ) - SCALE as int,
            ) <= 4,
            match spec_bbox(object, 0, SCALE as int) {
                Some(bx) => bounded_vec(bx.min, 0x2000_0000) && bounded_vec(bx.max, 0x2000_0000),
                None => true,
            },
        ensures
            *r.object == object,
            r.sin_theta == sin_theta,
            r.cos_theta == cos_theta,
            r.aabb == match spec_bbox(object, 0, SCALE as int) {
                Some(bx) => Some(spec_rotate_box(bx, cos_theta as int, sin_theta as int)),
                None => None::<AABB>,
            },
            hittable_wf(Hittable::RotateY(r)),
    {
        let child_box = object.bounding_box(0, SCALE);
        let aabb = match child_box {
            Some(bx) => {
                let c0 = rot_corner(&bx, cos_theta, sin_theta, 0, 0, 0);
                let c1 = rot_corner(&bx, cos_theta, sin_theta, 0, 0, 1);
                let c2 = rot_corner(&bx, cos_theta, sin_theta, 0, 1, 0);
                let c3 = rot_corner(&bx, cos_theta, sin_theta, 0, 1, 1);
                let c4 = rot_corner(&bx, cos_theta, sin_theta, 1, 0, 0);
                let c5 = rot_corner(&bx, cos_theta, sin_theta, 1, 0, 1);
                let c6 = rot_corner(&bx, cos_theta, sin_theta, 1, 1, 0);
                let c7 = rot_corner(&bx, cos_theta, sin_theta, 1, 1, 1);
                let mn = Vec3::new(
                    min_fx(
                        min_fx(min_fx(c0.x, c1.x), min_fx(c2.x, c3.x)),
                        min_fx(min_fx(c4.x, c5.x), min_fx(c6.x, c7.x)),
                    ),
                    min_fx(
                        min_fx(min_fx(c0.y, c1.y), min_fx(c2.y, c3.y)),
                        min_fx(min_fx(c4.y, c5.y), min_fx(c6.y, c7.y)),
                    ),
                    min_fx(
                        min_fx(min_fx(c0.z, c1.z), min_fx(c2.z, c3.z)),
                        min_fx(min_fx(c4.z, c5.z), min_fx(c6.z, c7.z)),
                    ),
                );
                let mx = Vec3::new(
                    max_fx(
                        max_fx(max_fx(c0.x, c1.x), max_fx(c2.x, c3.x)),
                        max_fx(max_fx(c4.x, c5.x), max_fx(c6.x, c7.x)),
                    ),
                    max_fx(
                        max_fx(max_fx(c0.y, c1.y), max_fx(c2.y, c3.y)),
                        max_fx(max_fx(c4.y, c5.y), max_fx(c6.y, c7.y)),
                    ),
                    max_fx(
                        max_fx(max_fx(c0.z, c1.z), max_fx(c2.z, c3.z)),
                        max_fx(max_fx(c4.z, c5.z), max_fx(c6.z, c7.z)),
                    ),
                );
                Some(AABB::new(mn, mx))
            },
            None => None,
        };
        RotateY { object: Box::new(object), sin_theta, cos_theta, aabb }
    }
}

} // verus!

verus! {

/// What a hierarchy node holds: built nodes branch, the empty sibling
/// of a lone element holds nothing, and anything else is one leaf.
pub open spec fn bvh_elems(h: Hittable) -> Multiset<Hittable>
    decreases h,
{
    match h {
        Hittable::Bvh(n) => bvh_elems(*n.left).add(bvh_elems(*n.right)),
        Hittable::List(l) => if l.entities@.len() == 0 {
            Multiset::empty()
        } else {
            Multiset::empty().insert(h)
        },
        _ => Multiset::empty().insert(h),
    }
}

/// The elements held by the first n entries of a sequence, together.
pub open spec fn seq_elems(s: Seq<Hittable>, n: int) -> Multiset<Hittable>
    decreases n,
{
    if n <= 0 || n > s.len() {
        Multiset::empty()
    } else {
        seq_elems(s, n - 1).add(bvh_elems(s[n - 1]))
    }
}

/// seq_elems only reads the first n entries.
proof fn lemma_seq_elems_prefix(s: Seq<Hittable>, t: Seq<Hittable>, n: int)
    requires
        0 <= n <= s.len(),
        n <= t.len(),
        forall|i: int| 0 <= i < n ==> s[i] == t[i],
    ensures
        seq_elems(s, n) == seq_elems(t, n),
    decreases n,
{
    if n > 0 {
        lemma_seq_elems_prefix(s, t, n - 1);
    }
}

/// Removing one entry takes exactly its elements out of the total.
proof fn lemma_seq_elems_remove(s: Seq<Hittable>, i: int, n: int)
    requires
        0 <= i < n <= s.len(),
    ensures
        seq_elems(s.remove(i), n - 1).add(bvh_elems(s[i])) == seq_elems(s, n),
    decreases n,
{
    if i == n - 1 {
        lemma_seq_elems_prefix(s.remove(i), s, n - 1);
    } else {
        lemma_seq_elems_remove(s, i, n - 1);
        assert(s.remove(i)[n - 2] == s[n - 1]);
        assert(seq_elems(s.remove(i), n - 1) == seq_elems(s.remove(i), n - 2).add(
            bvh_elems(s[n - 1]),
        ));
        assert(seq_elems(s.remove(i), n - 2).add(bvh_elems(s[n - 1])).add(bvh_elems(s[i]))
            =~= seq_elems(s.remove(i), n - 2).add(bvh_elems(s[i])).add(bvh_elems(s[n - 1])));
    }
}

/// The total over n entries splits at any midpoint into the prefix's
/// total and the suffix's total.
proof fn lemma_seq_elems_suffix(s: Seq<Hittable>, mid: int, n: int)
    requires
        0 <= mid <= n <= s.len(),
    ensures
        seq_elems(s, n) == seq_elems(s, mid).add(
            seq_elems(s.subrange(mid, s.len() as int), n - mid),
        ),
    decreases n - mid,
{
    let suffix = s.subrange(mid, s.len() as int);
    if n == mid {
        assert(seq_elems(suffix, 0) == Multiset::<Hittable>::empty());
        assert(seq_elems(s, mid).add(Multiset::empty()) =~= seq_elems(s, mid));
    } else {
        lemma_seq_elems_suffix(s, mid, n - 1);
        assert(suffix[n - 1 - mid] == s[n - 1]);
        assert(seq_elems(s, mid).add(seq_elems(suffix, n - 1 - mid)).add(bvh_elems(s[n - 1]))
            =~= seq_elems(s, mid).add(
            seq_elems(suffix, n - 1 - mid).add(bvh_elems(s[n - 1])),
        ));
    }
}

/// Whether a subtree holds no growable container, so that an exact
/// duplicate of it can be built value by value.
pub open spec fn vec_free(h: Hittable) -> bool
    decreases h,
{
    match h {
        Hittable::BoxShape(_) => false,
        Hittable::List(_) => false,
        Hittable::Translate(t) => vec_free(*t.object),
        Hittable::RotateY(ry) => vec_free(*ry.object),
        Hittable::FlipNormal(f) => vec_free(*f.hittable),
        Hittable::Bvh(n) => vec_free(*n.left) && vec_free(*n.right),
        Hittable::ConstantMedium(m) => vec_free(*m.boundary),
        _ => true,
    }
}

/// An exact duplicate of the subtree, where one can be built: every
/// variant except the two holding element vectors, whose copies could
/// not be proven equal value for value.
fn try_duplicate(h: &Hittable) -> (r: Option<Hittable>)
    ensures
        r matches Some(c) ==> c == *h,
        r is Some <==> vec_free(*h),
    decreases *h,
{
    match h {
        Hittable::Sphere(s) => Some(
            Hittable::Sphere(Sphere { r: s.r, center: s.center, material: s.material }),
        ),
        Hittable::MovingSphere(s) => Some(
            Hittable::MovingSphere(
                MovingSphere {
                    r: s.r,
                    center0: s.center0,
                    center1: s.center1,
                    time0: s.time0,
                    time1: s.time1,
                    material: s.material,
                },
            ),
        ),
        Hittable::XYRect(rc) => Some(
            Hittable::XYRect(
                XYRect { x0: rc.x0, x1: rc.x1, y0: rc.y0, y1: rc.y1, k: rc.k, material: rc.material },
            ),
        ),
        Hittable::XZRect(rc) => Some(
            Hittable::XZRect(
                XZRect { x0: rc.x0, x1: rc.x1, z0: rc.z0, z1: rc.z1, k: rc.k, material: rc.material },
            ),
        ),
        Hittable::YZRect(rc) => Some(
            Hittable::YZRect(
                YZRect { y0: rc.y0, y1: rc.y1, z0: rc.z0, z1: rc.z1, k: rc.k, material: rc.material },
            ),
        ),
        Hittable::BoxShape(_) => None,
        Hittable::List(_) => None,
        Hittable::Translate(t) => {
            match try_duplicate(&t.object) {
                Some(obj) => Some(
                    Hittable::Translate(Translate { object: Box::new(obj), offset: t.offset }),
                ),
                None => None,
            }
        },
        Hittable::RotateY(ry) => {
            match try_duplicate(&ry.object) {
                Some(obj) => Some(
                    Hittable::RotateY(
                        RotateY {
                            object: Box::new(obj),
                            sin_theta: ry.sin_theta,
                            cos_theta: ry.cos_theta,
                            aabb: ry.aabb,
                        },
                    ),
                ),
                None => None,
            }
        },
        Hittable::FlipNormal(f) => {
            match try_duplicate(&f.hittable) {
                Some(obj) => Some(Hittable::FlipNormal(FlipNormal { hittable: Box::new(obj) })),
                None => None,
            }
        },
        Hittable::Bvh(n) => {
            match try_duplicate(&n.left) {
                Some(left) => {
                    match try_duplicate(&n.right) {
                        Some(right) => Some(
                            Hittable::Bvh(
                                BVHNode {
                                    b_box: n.b_box,
                                    left: Box::new(left),
                                    right: Box::new(right),
                                },
                            ),
                        ),
                        None => None,
                    }
                },
                None => None,
            }
        },
        Hittable::ConstantMedium(m) => {
            match try_duplicate(&m.boundary) {
                Some(b) => Some(
                    Hittable::ConstantMedium(
                        ConstantMedium {
                            boundary: Box::new(b),
                            density: m.density,
                            phase_material: m.phase_material,
                        },
                    ),
                ),
                None => None,
            }
        },
    }
}

/// The sort key of an element along the chosen axis: the low corner of
/// its bounding box.
fn box_axis_key(e: &Hittable, t0: i64, t1: i64, axis: u64) -> (k: i64)
    requires
        scene_elem_ok(*e, t0 as int, t1 as int),
        abs_i(t0 as int) <= GEOM_LIMIT as int,
        abs_i(t1 as int) <= GEOM_LIMIT as int,
    ensures
        true,
{
    match e.bounding_box(t0, t1) {
        Some(bx) => {
            if axis == 0 {
                bx.min.x
            } else if axis == 1 {
                bx.min.y
            } else {
                bx.min.z
            }
        },
        None => {
            proof {
                assert(false);
            }
            0
        },
    }
}

impl BVHNode {
    /// Builds the hierarchy: order the children along a random axis by
    /// the low corner of their boxes, then split at the midpoint and
    /// recurse; a single child becomes a leaf beside an empty list.
    #[verifier::rlimit(100)]
    pub fn new(h_list: HitableList, t0: i64, t1: i64, rng: &mut rand::rngs::StdRng) -> (node:
        BVHNode)
        requires
            1 <= h_list.entities@.len(),
            abs_i(t0 as int) <= GEOM_LIMIT as int,
            abs_i(t1 as int) <= GEOM_LIMIT as int,
            forall|i: int|
                0 <= i < h_list.entities@.len() ==> scene_elem_ok(
                    #[trigger] h_list.entities@[i],
                    t0 as int,
                    t1 as int,
                ),
        ensures
            scene_elem_ok(Hittable::Bvh(node), t0 as int, t1 as int),
            spec_bbox(Hittable::Bvh(node), t0 as int, t1 as int) == Some(node.b_box),
            forall|e: Hittable|
                #[trigger] bvh_elems(Hittable::Bvh(node)).count(e) > 0 <==> seq_elems(
                    h_list.entities@,
                    h_list.entities@.len() as int,
                ).count(e) > 0,
            h_list.entities@.len() == 1 ==> *node.left == h_list.entities@[0],
            h_list.entities@.len() == 1 && vec_free(h_list.entities@[0]) ==> *node.right
                == h_list.entities@[0],
            h_list.entities@.len() == 1 && !vec_free(h_list.entities@[0]) ==> bvh_elems(
                *node.right,
            ) == Multiset::<Hittable>::empty(),
            (match spec_bbox(*node.left, t0 as int, t1 as int) {
                Some(bl) => box_contains_box(node.b_box, bl),
                None => true,
            }),
            (match spec_bbox(*node.right, t0 as int, t1 as int) {
                Some(br) => box_contains_box(node.b_box, br),
                None => true,
            }),
        decreases h_list.entities@.len(),
    {
        let ghost gt0 = t0 as int;
        let ghost gt1 = t1 as int;
        let ghost input = h_list.entities@;
        let n = h_list.entities.len();
        let axis = rng_below(rng, 3);
        let mut rest = h_list.entities;
        let mut sorted: Vec<Hittable> = Vec::new();
        proof {
            assert(seq_elems(sorted@, 0).add(seq_elems(rest@, rest@.len() as int)) =~= seq_elems(
                input,
                n as int,
            ));
        }
        while rest.len() > 0
            invariant
                sorted@.len() + rest@.len() == n,
                seq_elems(sorted@, sorted@.len() as int).add(
                    seq_elems(rest@, rest@.len() as int),
                ) == seq_elems(input, n as int),
                abs_i(gt0) <= GEOM_LIMIT as int,
                abs_i(gt1) <= GEOM_LIMIT as int,
                gt0 == t0 as int,
                gt1 == t1 as int,
                forall|i: int| 0 <= i < rest@.len() ==> scene_elem_ok(#[trigger] rest@[i], gt0, gt1),
                forall|i: int|
                    0 <= i < sorted@.len() ==> scene_elem_ok(#[trigger] sorted@[i], gt0, gt1),
                n == 1 && rest@.len() == 1 ==> rest@[0] == input[0],
                n == 1 && sorted@.len() == 1 ==> sorted@[0] == input[0],
            decreases rest@.len(),
        {
            let mut best: usize = 0;
            let mut best_key = box_axis_key(&rest[0], t0, t1, axis);
            let mut j: usize = 1;
            while j < rest.len()
                invariant
                    rest@.len() > 0,
                    best < rest@.len(),
                    j <= rest@.len(),
                    abs_i(gt0) <= GEOM_LIMIT as int,
                    abs_i(gt1) <= GEOM_LIMIT as int,
                    gt0 == t0 as int,
                    gt1 == t1 as int,
                    forall|i: int|
                        0 <= i < rest@.len() ==> scene_elem_ok(#[trigger] rest@[i], gt0, gt1),
                decreases rest@.len() - j,
            {
                let key = box_axis_key(&rest[j], t0, t1, axis);
                if key < best_key {
                    best = j;
                    best_key = key;
                }
                j = j + 1;
            }
            let ghost prev = rest@;
            let ghost prev_sorted = sorted@;
            let picked = rest.remove(best);
            proof {
                assert(picked == prev[best as int]);
                assert forall|i: int| 0 <= i < rest@.len() implies scene_elem_ok(
                    #[trigger] rest@[i],
                    gt0,
                    gt1,
                ) by {
                    if i < best as int {
                        assert(rest@[i] == prev[i]);
                    } else {
                        assert(rest@[i] == prev[i + 1]);
                    }
                }
                lemma_seq_elems_remove(prev, best as int, prev.len() as int);
            }
            sorted.push(picked);
            proof {
                lemma_seq_elems_prefix(prev_sorted, sorted@, prev_sorted.len() as int);
                assert(seq_elems(sorted@, sorted@.len() as int) == seq_elems(
                    prev_sorted,
                    prev_sorted.len() as int,
                ).add(bvh_elems(picked)));
                assert(seq_elems(prev_sorted, prev_sorted.len() as int).add(
                    bvh_elems(picked),
                ).add(seq_elems(rest@, rest@.len() as int)) =~= seq_elems(
                    prev_sorted,
                    prev_sorted.len() as int,
                ).add(seq_elems(rest@, rest@.len() as int).add(bvh_elems(picked))));
                assert(seq_elems(rest@, rest@.len() as int).add(bvh_elems(picked)) == seq_elems(
                    prev,
                    prev.len() as int,
                ));
            }
        }
        let mut v = sorted;
        let ghost sv = v@;
        proof {
            assert(seq_elems(rest@, rest@.len() as int) == Multiset::<Hittable>::empty());
            assert(seq_elems(sv, n as int).add(Multiset::<Hittable>::empty()) =~= seq_elems(
                sv,
                n as int,
            ));
            assert(seq_elems(sv, n as int) == seq_elems(input, n as int));
        }
        let (left, right): (Hittable, Hittable) = if n == 1 {
            let a = match v.pop() {
                Some(a) => a,
                None => {
                    proof {
                        assert(false);
                    }
                    Hittable::List(HitableList::new(Vec::new()))
                },
            };
            proof {
                assert(a == sv[0]);
                assert(a == input[0]);
                assert(scene_elem_ok(a, gt0, gt1));
            }
            match try_duplicate(&a) {
                Some(copy) => {
                    proof {
                        assert(copy == a);
                        assert(seq_elems(sv, 0) == Multiset::<Hittable>::empty());
                        assert(seq_elems(sv, 1) == seq_elems(sv, 0).add(bvh_elems(sv[0])));
                        assert forall|e: Hittable|
                            (#[trigger] bvh_elems(a).count(e) > 0 || bvh_elems(copy).count(e)
                                > 0) <==> seq_elems(sv, n as int).count(e) > 0 by {}
                    }
                    (a, copy)
                },
                None => {
                    let el = HitableList::new(Vec::new());
                    proof {
                        assert forall|tm: int| gt0 <= tm <= gt1 implies time_ok(
                            Hittable::List(el),
                            tm,
                        ) by {
                            lemma_empty_list_ok(el, tm, SCENE_ROOM as int);
                        }
                        lemma_empty_list_ok(el, 0, SCENE_ROOM as int);
                        assert(p_bound_list(el, 0, SCENE_ROOM as int) == SCENE_ROOM as int
                            * 0x400_0000);
                        assert(p_bound(Hittable::List(el), SCENE_ROOM as int) == SCENE_ROOM as int
                            * 0x400_0000);
                        assert(spec_list_bbox(el, el.entities@.len() as int, gt0, gt1) is None);
                        assert(spec_bbox(Hittable::List(el), gt0, gt1) is None);
                        assert(bvh_elems(Hittable::List(el)) == Multiset::<Hittable>::empty());
                        assert(seq_elems(sv, 0) == Multiset::<Hittable>::empty());
                        assert(seq_elems(sv, 1) == seq_elems(sv, 0).add(bvh_elems(sv[0])));
                        assert forall|e: Hittable|
                            (#[trigger] bvh_elems(a).count(e) > 0 || bvh_elems(
                                Hittable::List(el),
                            ).count(e) > 0) <==> seq_elems(sv, n as int).count(e) > 0 by {}
                    }
                    (a, Hittable::List(el))
                },
            }
        } else if n == 2 {
            let b = match v.pop() {
                Some(b) => b,
                None => {
                    proof {
                        assert(false);
                    }
                    Hittable::List(HitableList::new(Vec::new()))
                },
            };
            let a = match v.pop() {
                Some(a) => a,
                None => {
                    proof {
                        assert(false);
                    }
                    Hittable::List(HitableList::new(Vec::new()))
                },
            };
            proof {
                assert(b == sv[1]);
                assert(a == sv[0]);
                assert(scene_elem_ok(a, gt0, gt1));
                assert(scene_elem_ok(b, gt0, gt1));
                assert(seq_elems(sv, 0) == Multiset::<Hittable>::empty());
                assert(seq_elems(sv, 1) == seq_elems(sv, 0).add(bvh_elems(sv[0])));
                assert(seq_elems(sv, 2) == seq_elems(sv, 1).add(bvh_elems(sv[1])));
                assert(bvh_elems(a).add(bvh_elems(b)) =~= seq_elems(sv, n as int));
                assert forall|e: Hittable|
                    (#[trigger] bvh_elems(a).count(e) > 0 || bvh_elems(b).count(e) > 0)
                        <==> seq_elems(sv, n as int).count(e) > 0 by {
                    assert(seq_elems(sv, n as int).count(e) == bvh_elems(a).count(e)
                        + bvh_elems(b).count(e));
                }
            }
            (a, b)
        } else {
            let half = v.len() / 2;
            let ghost whole = v@;
            let right_vec = v.split_off(half);
            proof {
                assert forall|i: int| 0 <= i < v@.len() implies scene_elem_ok(
                    #[trigger] v@[i],
                    gt0,
                    gt1,
                ) by {
                    assert(v@[i] == whole[i]);
                }
                assert forall|i: int| 0 <= i < right_vec@.len() implies scene_elem_ok(
                    #[trigger] right_vec@[i],
                    gt0,
                    gt1,
                ) by {
                    assert(right_vec@[i] == whole[i + half]);
                }
            }
            let ghost left_seq = v@;
            let ghost right_seq = right_vec@;
            let left_node = BVHNode::new(HitableList::new(v), t0, t1, rng);
            let right_node = BVHNode::new(HitableList::new(right_vec), t0, t1, rng);
            proof {
                assert(whole == sv);
                lemma_seq_elems_prefix(left_seq, whole, half as int);
                lemma_seq_elems_suffix(whole, half as int, whole.len() as int);
                assert(right_seq == whole.subrange(half as int, whole.len() as int));
                assert(seq_elems(left_seq, half as int) == seq_elems(whole, half as int));
                assert forall|e: Hittable|
                    (#[trigger] bvh_elems(Hittable::Bvh(left_node)).count(e) > 0 || bvh_elems(
                        Hittable::Bvh(right_node),
                    ).count(e) > 0) <==> seq_elems(sv, n as int).count(e) > 0 by {
                    assert(seq_elems(sv, n as int).count(e) == seq_elems(
                        whole,
                        half as int,
                    ).count(e) + seq_elems(right_seq, right_seq.len() as int).count(e));
                }
            }
            (Hittable::Bvh(left_node), Hittable::Bvh(right_node))
        };
        proof {
            assert(scene_elem_ok(left, gt0, gt1));
            assert(hittable_wf(right));
            assert(scene_elem_ok(right, gt0, gt1) || spec_bbox(right, gt0, gt1) is None);
            assert(forall|e: Hittable|
                (#[trigger] bvh_elems(left).count(e) > 0 || bvh_elems(right).count(e) > 0)
                    <==> seq_elems(sv, n as int).count(e) > 0);
        }
        let box_left = left.bounding_box(t0, t1);
        let box_right = right.bounding_box(t0, t1);
        proof {
            assert(box_left == spec_bbox(left, gt0, gt1));
            assert(box_left matches Some(bl) && bounded_vec(bl.min, 0x2000_0000) && bounded_vec(
                bl.max,
                0x2000_0000,
            ));
            assert(box_right matches Some(br) ==> bounded_vec(br.min, 0x2000_0000) && bounded_vec(
                br.max,
                0x2000_0000,
            ));
        }
        let b_box = match (box_left, box_right) {
            (Some(bl), Some(br)) => surrounding_box(&bl, &br),
            (Some(bl), None) => bl,
            (None, _) => {
                proof {
                    assert(false);
                }
                AABB::new(Vec3::new(0, 0, 0), Vec3::new(0, 0, 0))
            },
        };
        let node = BVHNode { b_box, left: Box::new(left), right: Box::new(right) };
        proof {
            assert forall|tm: int| gt0 <= tm <= gt1 implies time_ok(
                Hittable::Bvh(node),
                tm,
            ) by {
                assert(time_ok(*node.left, tm));
                assert(time_ok(*node.right, tm));
            }
            assert(SCENE_ROOM as int * 0x400_0000 <= 0x1000_0000_0000_0000) by (nonlinear_arith)
                requires
                    SCENE_ROOM == 0x1000_0000,
            {
            }
            assert(hittable_wf(Hittable::Bvh(node)));
            assert(deterministic(Hittable::Bvh(node)));
            assert(ray_fits(Hittable::Bvh(node), SCENE_ROOM as int));
            assert(p_bound(Hittable::Bvh(node), SCENE_ROOM as int) <= 0x1000_0000_0000_0000);
            assert(spec_bbox(Hittable::Bvh(node), gt0, gt1) == Some(node.b_box));
            assert(bounded_vec(node.b_box.min, 0x2000_0000) && bounded_vec(
                node.b_box.max,
                0x2000_0000,
            ));
            assert(bvh_elems(Hittable::Bvh(node)) == bvh_elems(*node.left).add(
                bvh_elems(*node.right),
            ));
            assert(seq_elems(sv, n as int) == seq_elems(input, n as int));
            assert forall|e: Hittable|
                #[trigger] bvh_elems(Hittable::Bvh(node)).count(e) > 0 <==> seq_elems(
                    input,
                    n as int,
                ).count(e) > 0 by {
                assert(bvh_elems(Hittable::Bvh(node)).count(e) == bvh_elems(*node.left).count(e)
                    + bvh_elems(*node.right).count(e));
            }
        }
        node
    }
}

} // verus!

verus! {

/// Two nested translations behave as one translation by the summed
/// offset: the intersection results are identical.
#[verifier::rlimit(100)]
#[verifier::spinoff_prover]
pub proof fn lemma_translate_compose(
    inner: Translate,
    outer: Translate,
    combined: Translate,
    r: Ray,
    t_min: int,
    t_max: int,
)
    requires
        *outer.object == Hittable::Translate(inner),
        *combined.object == *inner.object,
        combined.offset == spec_add(inner.offset, outer.offset),
        bounded_vec(inner.offset, GEOM_LIMIT as int),
        bounded_vec(outer.offset, GEOM_LIMIT as int),
        bounded_vec(r.origin, 0x1000_0000_0000),
        (match spec_hit(
            *inner.object,
            Ray {
                origin: spec_sub(spec_sub(r.origin, outer.offset), inner.offset),
                direction: r.direction,
                time: r.time,
            },
            t_min,
            t_max,
        ) {
            Some(rec) => bounded_vec(rec.p, 0x10_0000_0000_0000),
            None => true,
        }),
    ensures
        spec_hit(Hittable::Translate(outer), r, t_min, t_max) == spec_hit(
            Hittable::Translate(combined),
            r,
            t_min,
            t_max,
        ),
{
    let moved_outer = Ray {
        origin: spec_sub(r.origin, outer.offset),
        direction: r.direction,
        time: r.time,
    };
    let moved_both = Ray {
        origin: spec_sub(spec_sub(r.origin, outer.offset), inner.offset),
        direction: r.direction,
        time: r.time,
    };
    let moved_combined = Ray {
        origin: spec_sub(r.origin, combined.offset),
        direction: r.direction,
        time: r.time,
    };
    assert(moved_both == moved_combined);
    let inner_res = spec_hit(*inner.object, moved_both, t_min, t_max);
    match inner_res {
        Some(rec) => {
            assert(spec_hit(Hittable::Translate(inner), moved_outer, t_min, t_max) == Some(
                HitRecord { p: spec_add(rec.p, inner.offset), ..rec },
            ));
            assert(spec_hit(Hittable::Translate(outer), r, t_min, t_max) == Some(
                HitRecord {
                    p: spec_add(spec_add(rec.p, inner.offset), outer.offset),
                    ..rec
                },
            ));
            assert(spec_hit(Hittable::Translate(combined), r, t_min, t_max) == Some(
                HitRecord { p: spec_add(rec.p, combined.offset), ..rec },
            ));
            assert(spec_add(spec_add(rec.p, inner.offset), outer.offset) == spec_add(
                rec.p,
                combined.offset,
            ));
        },
        None => {
            assert(spec_hit(Hittable::Translate(inner), moved_outer, t_min, t_max) is None);
            assert(spec_hit(Hittable::Translate(outer), r, t_min, t_max) is None);
            assert(spec_hit(Hittable::Translate(combined), r, t_min, t_max) is None);
        },
    }
}

/// A quarter-turn rotation applied on the way in and undone on the way
/// out reproduces a point exactly; for general angles the per-product
/// truncation loses up to one fixed-point step per coordinate.
pub proof fn lemma_rotate_quarter_roundtrip(p: Vec3, c: i64, s: i64)
    requires
        (c == 0 && (s == SCALE || s == -SCALE)) || (s == 0 && (c == SCALE || c == -SCALE)),
        p.x > i64::MIN,
        p.z > i64::MIN,
    ensures
        ({
            let fwd = vnew(
                fmul(c as int, p.x as int) - fmul(s as int, p.z as int),
                p.y as int,
                fmul(s as int, p.x as int) + fmul(c as int, p.z as int),
            );
            let back = vnew(
                fmul(c as int, fwd.x as int) + fmul(s as int, fwd.z as int),
                fwd.y as int,
                -fmul(s as int, fwd.x as int) + fmul(c as int, fwd.z as int),
            );
            back == p
        }),
{
    lemma_fmul_scale_cases(p.x as int);
    lemma_fmul_scale_cases(p.z as int);
    let fwd = vnew(
        fmul(c as int, p.x as int) - fmul(s as int, p.z as int),
        p.y as int,
        fmul(s as int, p.x as int) + fmul(c as int, p.z as int),
    );
    lemma_fmul_scale_cases(fwd.x as int);
    lemma_fmul_scale_cases(fwd.z as int);
}

/// Multiplying by one, zero or minus one in fixed point is exact.
pub proof fn lemma_fmul_scale_cases(x: int)
    ensures
        fmul(SCALE as int, x) == x,
        fmul(-(SCALE as int), x) == -x,
        fmul(0, x) == 0,
{
    assert(fmul(65536, x) == x) by (nonlinear_arith)
        requires
            fmul(65536, x) == tdiv(65536 * x, 65536),
    {
    }
    assert(fmul(-65536, x) == -x) by (nonlinear_arith)
        requires
            fmul(-65536, x) == tdiv(-65536 * x, 65536),
    {
    }
    assert(fmul(0, x) == 0) by (nonlinear_arith)
        requires
            fmul(0, x) == tdiv(0 * x, 65536),
    {
    }
}

} // verus!
