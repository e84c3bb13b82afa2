//! Axis-aligned bounding boxes: the slab intersection test and the box
//! union, with the laws that the union contains its arguments and that
//! the slab test does not depend on the order of the axes.

use vstd::prelude::*;
use crate::fixed::{abs_i, fdiv, div_fx, min_fx, max_fx, lemma_tdiv_bound, SCALE};
use crate::vec3::{Vec3, bounded_vec};
use crate::ray::Ray;

verus! {

/// A sentinel beyond every ray parameter the renderer uses, standing in
/// for an unbounded slab on an axis the ray runs parallel to.
pub open spec fn far_t() -> int {
    0x2000_0000_0000_0000
}

pub open spec fn imin(a: int, b: int) -> int {
    if a <= b {
        a
    } else {
        b
    }
}

pub open spec fn imax(a: int, b: int) -> int {
    if a >= b {
        a
    } else {
        b
    }
}

#[derive(Clone, Copy, PartialEq, Eq, Structural, Debug)]
pub struct AABB {
    pub min: Vec3,
    pub max: Vec3,
}

/// The componentwise union of two boxes: min of the minima, max of the
/// maxima.
pub open spec fn spec_surrounding(b0: AABB, b1: AABB) -> AABB {
    AABB {
        min: Vec3 {
            x: imin(b0.min.x as int, b1.min.x as int) as i64,
            y: imin(b0.min.y as int, b1.min.y as int) as i64,
            z: imin(b0.min.z as int, b1.min.z as int) as i64,
        },
        max: Vec3 {
            x: imax(b0.max.x as int, b1.max.x as int) as i64,
            y: imax(b0.max.y as int, b1.max.y as int) as i64,
            z: imax(b0.max.z as int, b1.max.z as int) as i64,
        },
    }
}

/// outer encloses inner componentwise.
pub open spec fn box_contains_box(outer: AABB, inner: AABB) -> bool {
    &&& outer.min.x <= inner.min.x
    &&& outer.min.y <= inner.min.y
    &&& outer.min.z <= inner.min.z
    &&& inner.max.x <= outer.max.x
    &&& inner.max.y <= outer.max.y
    &&& inner.max.z <= outer.max.z
}

/// The union of two boxes contains both, and is the same box whichever
/// argument comes first.
pub proof fn lemma_surrounding_box(b0: AABB, b1: AABB)
    ensures
        box_contains_box(spec_surrounding(b0, b1), b0),
        box_contains_box(spec_surrounding(b0, b1), b1),
        spec_surrounding(b0, b1) == spec_surrounding(b1, b0),
{
}

pub fn surrounding_box(box0: &AABB, box1: &AABB) -> (r: AABB)
    ensures
        r == spec_surrounding(*box0, *box1),
        box_contains_box(r, *box0),
        box_contains_box(r, *box1),
{
    proof {
        lemma_surrounding_box(*box0, *box1);
    }
    let small = Vec3::new(
        min_fx(box0.min.x, box1.min.x),
        min_fx(box0.min.y, box1.min.y),
        min_fx(box0.min.z, box1.min.z),
    );
    let big = Vec3::new(
        max_fx(box0.max.x, box1.max.x),
        max_fx(box0.max.y, box1.max.y),
        max_fx(box0.max.z, box1.max.z),
    );
    AABB::new(small, big)
}

/// The parameter interval in which the ray is inside the slab
/// mn <= o + t*d <= mx on one axis.  A ray parallel to the slab is
/// either always inside (an unbounded interval) or never (an empty one).
pub open spec fn spec_axis_interval(o: int, d: int, mn: int, mx: int) -> (int, int) {
    if d != 0 {
        let t0 = fdiv(mn - o, d);
        let t1 = fdiv(mx - o, d);
        if d < 0 {
            (t1, t0)
        } else {
            (t0, t1)
        }
    } else {
        if mn <= o && o <= mx {
            (-far_t(), far_t())
        } else {
            (far_t(), -far_t())
        }
    }
}

/// The slab interval of axis number a (0, 1 or 2) of the box.
pub open spec fn spec_axis_interval_n(b: AABB, r: Ray, a: int) -> (int, int) {
    if a == 0 {
        spec_axis_interval(r.origin.x as int, r.direction.x as int, b.min.x as int, b.max.x as int)
    } else if a == 1 {
        spec_axis_interval(r.origin.y as int, r.direction.y as int, b.min.y as int, b.max.y as int)
    } else {
        spec_axis_interval(r.origin.z as int, r.direction.z as int, b.min.z as int, b.max.z as int)
    }
}

/// The slab test: intersect the query interval with all three axis
/// intervals; a hit is a nonempty result.
pub open spec fn spec_aabb_hit(b: AABB, r: Ray, t_min: int, t_max: int) -> Option<(int, int)> {
    let ix = spec_axis_interval_n(b, r, 0);
    let iy = spec_axis_interval_n(b, r, 1);
    let iz = spec_axis_interval_n(b, r, 2);
    let lo = imax(imax(imax(t_min, ix.0), iy.0), iz.0);
    let hi = imin(imin(imin(t_max, ix.1), iy.1), iz.1);
    if hi > lo {
        Some((lo, hi))
    } else {
        None
    }
}

/// The same test with its axes folded one at a time in an arbitrary
/// order, stopping at the first empty interval, as the loop form does.
pub open spec fn spec_aabb_hit_order(
    b: AABB,
    r: Ray,
    t_min: int,
    t_max: int,
    a0: int,
    a1: int,
    a2: int,
) -> Option<(int, int)> {
    let i0 = spec_axis_interval_n(b, r, a0);
    let lo0 = imax(t_min, i0.0);
    let hi0 = imin(t_max, i0.1);
    if hi0 <= lo0 {
        None
    } else {
        let i1 = spec_axis_interval_n(b, r, a1);
        let lo1 = imax(lo0, i1.0);
        let hi1 = imin(hi0, i1.1);
        if hi1 <= lo1 {
            None
        } else {
            let i2 = spec_axis_interval_n(b, r, a2);
            let lo2 = imax(lo1, i2.0);
            let hi2 = imin(hi1, i2.1);
            if hi2 <= lo2 {
                None
            } else {
                Some((lo2, hi2))
            }
        }
    }
}

/// The slab test is symmetric in the axis order: folding the three axis
/// tests in any order, with early exit on an empty interval, accepts and
/// rejects the same rays and returns the same interval.
pub proof fn lemma_aabb_hit_axis_order(
    b: AABB,
    r: Ray,
    t_min: int,
    t_max: int,
    a0: int,
    a1: int,
    a2: int,
)
    requires
        a0 == 0 && a1 == 1 && a2 == 2 || a0 == 0 && a1 == 2 && a2 == 1 || a0 == 1 && a1 == 0 && a2
            == 2 || a0 == 1 && a1 == 2 && a2 == 0 || a0 == 2 && a1 == 0 && a2 == 1 || a0 == 2 && a1
            == 1 && a2 == 0,
    ensures
        spec_aabb_hit_order(b, r, t_min, t_max, a0, a1, a2) == spec_aabb_hit(b, r, t_min, t_max),
{
}

impl AABB {
    pub fn new(min: Vec3, max: Vec3) -> (r: Self)
        ensures
            r == (AABB { min, max }),
    {
        AABB { min, max }
    }

    /// One axis of the slab test; answers the narrowed interval, which is
    /// empty exactly when the slab excludes the whole query interval.
    fn hit_axis(o: i64, d: i64, mn: i64, mx: i64, lo: i64, hi: i64) -> (r: (i64, i64))
        requires
            abs_i(o as int) <= 0x1000_0000_0000,
            abs_i(mn as int) <= 0x1000_0000_0000,
            abs_i(mx as int) <= 0x1000_0000_0000,
            abs_i(lo as int) <= 0x2000_0000_0000_0000,
            abs_i(hi as int) <= 0x2000_0000_0000_0000,
        ensures
            r.0 as int == imax(lo as int, spec_axis_interval(o as int, d as int, mn as int, mx as int).0),
            r.1 as int == imin(hi as int, spec_axis_interval(o as int, d as int, mn as int, mx as int).1),
            abs_i(r.0 as int) <= 0x2000_0000_0000_0000,
            abs_i(r.1 as int) <= 0x2000_0000_0000_0000,
    {
        if d != 0 {
            proof {
                lemma_tdiv_bound((mn - o) * (SCALE as int), d as int);
                lemma_tdiv_bound((mx - o) * (SCALE as int), d as int);
                assert(abs_i((mn - o) * 65536) / abs_i(d as int) <= 0x2000_0000_0000_0000)
                    by (nonlinear_arith)
                    requires
                        abs_i(mn - o) <= 0x2000_0000_0000,
                        d != 0,
                {
                }
                assert(abs_i((mx - o) * 65536) / abs_i(d as int) <= 0x2000_0000_0000_0000)
                    by (nonlinear_arith)
                    requires
                        abs_i(mx - o) <= 0x2000_0000_0000,
                        d != 0,
                {
                }
            }
            let t0 = div_fx(mn - o, d);
            let t1 = div_fx(mx - o, d);
            if d < 0 {
                (max_fx(lo, t1), min_fx(hi, t0))
            } else {
                (max_fx(lo, t0), min_fx(hi, t1))
            }
        } else {
            if mn <= o && o <= mx {
                (lo, hi)
            } else {
                (0x2000_0000_0000_0000, -0x2000_0000_0000_0000)
            }
        }
    }

    /// The slab intersection test, narrowing [t_min, t_max] axis by axis
    /// and answering the surviving interval.
    pub fn hit(&self, ray: &Ray, t_min: i64, t_max: i64) -> (r: Option<(i64, i64)>)
        requires
            bounded_vec(self.min, 0x1000_0000_0000),
            bounded_vec(self.max, 0x1000_0000_0000),
            bounded_vec(ray.origin, 0x1000_0000_0000),
            abs_i(t_min as int) <= 0x2000_0000_0000_0000,
            abs_i(t_max as int) <= 0x2000_0000_0000_0000,
        ensures
            match r {
                Some(w) => spec_aabb_hit(*self, *ray, t_min as int, t_max as int) == Some(
                    (w.0 as int, w.1 as int),
                ),
                None => spec_aabb_hit(*self, *ray, t_min as int, t_max as int) is None,
            },
    {
        let (lo0, hi0) = Self::hit_axis(
            ray.origin.x,
            ray.direction.x,
            self.min.x,
            self.max.x,
            t_min,
            t_max,
        );
        if hi0 <= lo0 {
            return None;
        }
        let (lo1, hi1) = Self::hit_axis(
            ray.origin.y,
            ray.direction.y,
            self.min.y,
            self.max.y,
            lo0,
            hi0,
        );
        if hi1 <= lo1 {
            return None;
        }
        let (lo2, hi2) = Self::hit_axis(
            ray.origin.z,
            ray.direction.z,
            self.min.z,
            self.max.z,
            lo1,
            hi1,
        );
        if hi2 <= lo2 {
            return None;
        }
        proof {
            lemma_aabb_hit_axis_order(*self, *ray, t_min as int, t_max as int, 0, 1, 2);
        }
        Some((lo2, hi2))
    }
}

} // verus!
