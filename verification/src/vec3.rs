//! Three-component fixed-point vectors, used as positions, directions,
//! normals and colors.

use vstd::prelude::*;
use crate::fixed::{abs_i, fmul, fdiv, sqrt_i, is_sqrt, mul_fx, div_fx, sqrt_fx, lemma_sqrt_exists, SCALE};

verus! {

#[derive(Clone, Copy, PartialEq, Eq, Structural, Debug)]
pub struct Vec3 {
    pub x: i64,
    pub y: i64,
    pub z: i64,
}

/// A vector from mathematical components; meaningful when they fit in i64.
pub open spec fn vnew(x: int, y: int, z: int) -> Vec3 {
    Vec3 { x: x as i64, y: y as i64, z: z as i64 }
}

pub open spec fn spec_add(a: Vec3, b: Vec3) -> Vec3 {
    vnew(a.x + b.x, a.y + b.y, a.z + b.z)
}

pub open spec fn spec_sub(a: Vec3, b: Vec3) -> Vec3 {
    vnew(a.x - b.x, a.y - b.y, a.z - b.z)
}

pub open spec fn spec_neg(a: Vec3) -> Vec3 {
    vnew(-a.x, -a.y, -a.z)
}

/// Componentwise fixed-point scaling by a scalar.
pub open spec fn spec_scale(a: Vec3, k: int) -> Vec3 {
    vnew(fmul(a.x as int, k), fmul(a.y as int, k), fmul(a.z as int, k))
}

/// Componentwise product, the attenuation product on colors.
pub open spec fn spec_mul_comp(a: Vec3, b: Vec3) -> Vec3 {
    vnew(
        fmul(a.x as int, b.x as int),
        fmul(a.y as int, b.y as int),
        fmul(a.z as int, b.z as int),
    )
}

/// The dot product as an unbounded integer.
pub open spec fn spec_dot(a: Vec3, b: Vec3) -> int {
    fmul(a.x as int, b.x as int) + fmul(a.y as int, b.y as int) + fmul(a.z as int, b.z as int)
}

pub open spec fn spec_sq_len(a: Vec3) -> int {
    spec_dot(a, a)
}

/// Euclidean length in fixed point: sqrt of the squared length.
pub open spec fn spec_len(a: Vec3) -> int {
    sqrt_i(spec_sq_len(a) * (SCALE as int))
}

pub open spec fn spec_cross(a: Vec3, b: Vec3) -> Vec3 {
    vnew(
        fmul(a.y as int, b.z as int) - fmul(a.z as int, b.y as int),
        -(fmul(a.x as int, b.z as int) - fmul(a.z as int, b.x as int)),
        fmul(a.x as int, b.y as int) - fmul(a.y as int, b.x as int),
    )
}

/// The vector scaled to unit length (meaningful when the length is nonzero).
pub open spec fn spec_unit(a: Vec3) -> Vec3 {
    vnew(
        fdiv(a.x as int, spec_len(a)),
        fdiv(a.y as int, spec_len(a)),
        fdiv(a.z as int, spec_len(a)),
    )
}

/// All components no larger than b in magnitude.
pub open spec fn bounded_vec(v: Vec3, b: int) -> bool {
    abs_i(v.x as int) <= b && abs_i(v.y as int) <= b && abs_i(v.z as int) <= b
}

pub proof fn lemma_fmul_sq_nonneg(x: int)
    ensures
        fmul(x, x) >= 0,
{
    assert(x * x >= 0) by (nonlinear_arith);
}

pub proof fn lemma_sq_len_nonneg(a: Vec3)
    ensures
        spec_sq_len(a) >= 0,
{
    lemma_fmul_sq_nonneg(a.x as int);
    lemma_fmul_sq_nonneg(a.y as int);
    lemma_fmul_sq_nonneg(a.z as int);
}

/// A component divided by the vector's own length is at most two units:
/// the length cannot be much smaller than any single component.
pub proof fn lemma_unit_component_small(x: int, sq: int, len: int)
    requires
        sq >= fmul(x, x),
        fmul(x, x) >= 0,
        sq >= 1,
        is_sqrt(sq * (SCALE as int), len),
        len >= 256,
    ensures
        abs_i(fdiv(x, len)) <= 2 * (SCALE as int),
{
    let s = SCALE as int;
    assert(x * x >= 0) by (nonlinear_arith);
    assert(fmul(x, x) == (x * x) / s);
    assert(fmul(x, x) * s >= x * x - s + 1) by (nonlinear_arith)
        requires
            fmul(x, x) == (x * x) / s,
            x * x >= 0,
            s == 65536,
    {
    }
    assert((len + 1) * (len + 1) > sq * s);
    assert(sq * s >= fmul(x, x) * s) by (nonlinear_arith)
        requires
            sq >= fmul(x, x),
            s > 0,
    {
    }
    assert(abs_i(x) <= 2 * len) by (nonlinear_arith)
        requires
            (len + 1) * (len + 1) > x * x - s + 1,
            len >= 256,
            s == 65536,
    {
    }
    crate::fixed::lemma_tdiv_bound(x * s, len);
    assert(abs_i(x * s) / len <= 2 * s) by (nonlinear_arith)
        requires
            abs_i(x) <= 2 * len,
            len >= 256,
            s == 65536,
            abs_i(x * s) == abs_i(x) * s,
    {
    }
    assert(abs_i(x * s) == abs_i(x) * s) by (nonlinear_arith)
        requires
            s > 0,
    {
    }
}

/// The free-function form of the dot product.
pub fn dot(vec1: &Vec3, vec2: &Vec3) -> (r: i64)
    requires
        abs_i(fmul(vec1.x as int, vec2.x as int)) + abs_i(fmul(vec1.y as int, vec2.y as int))
            + abs_i(fmul(vec1.z as int, vec2.z as int)) <= i64::MAX as int,
    ensures
        r == spec_dot(*vec1, *vec2),
{
    let px = mul_fx(vec1.x, vec2.x);
    let py = mul_fx(vec1.y, vec2.y);
    let pz = mul_fx(vec1.z, vec2.z);
    px + py + pz
}

impl Vec3 {
    pub fn default() -> (r: Self)
        ensures
            r == (Vec3 { x: 0, y: 0, z: 0 }),
    {
        Vec3 { x: 0, y: 0, z: 0 }
    }

    pub fn new(x: i64, y: i64, z: i64) -> (r: Vec3)
        ensures
            r == (Vec3 { x, y, z }),
    {
        Vec3 { x, y, z }
    }

    pub fn x(&self) -> (r: i64)
        ensures
            r == self.x,
    {
        self.x
    }

    pub fn y(&self) -> (r: i64)
        ensures
            r == self.y,
    {
        self.y
    }

    pub fn z(&self) -> (r: i64)
        ensures
            r == self.z,
    {
        self.z
    }

    pub fn r(&self) -> (r: i64)
        ensures
            r == self.x,
    {
        self.x
    }

    pub fn g(&self) -> (r: i64)
        ensures
            r == self.y,
    {
        self.y
    }

    pub fn b(&self) -> (r: i64)
        ensures
            r == self.z,
    {
        self.z
    }

    pub fn add(self, rhs: Vec3) -> (r: Vec3)
        requires
            abs_i(self.x + rhs.x) <= i64::MAX as int,
            abs_i(self.y + rhs.y) <= i64::MAX as int,
            abs_i(self.z + rhs.z) <= i64::MAX as int,
        ensures
            r == spec_add(self, rhs),
    {
        Vec3 { x: self.x + rhs.x, y: self.y + rhs.y, z: self.z + rhs.z }
    }

    pub fn sub(self, rhs: Vec3) -> (r: Vec3)
        requires
            abs_i(self.x - rhs.x) <= i64::MAX as int,
            abs_i(self.y - rhs.y) <= i64::MAX as int,
            abs_i(self.z - rhs.z) <= i64::MAX as int,
        ensures
            r == spec_sub(self, rhs),
    {
        Vec3 { x: self.x - rhs.x, y: self.y - rhs.y, z: self.z - rhs.z }
    }

    pub fn neg(self) -> (r: Vec3)
        requires
            self.x > i64::MIN,
            self.y > i64::MIN,
            self.z > i64::MIN,
        ensures
            r == spec_neg(self),
    {
        Vec3 { x: -self.x, y: -self.y, z: -self.z }
    }

    /// Scalar multiplication in fixed point.
    pub fn scale(self, k: i64) -> (r: Vec3)
        requires
            abs_i(fmul(self.x as int, k as int)) <= i64::MAX as int,
            abs_i(fmul(self.y as int, k as int)) <= i64::MAX as int,
            abs_i(fmul(self.z as int, k as int)) <= i64::MAX as int,
        ensures
            r == spec_scale(self, k as int),
    {
        Vec3 { x: mul_fx(self.x, k), y: mul_fx(self.y, k), z: mul_fx(self.z, k) }
    }

    /// Componentwise product.
    pub fn mul_comp(self, rhs: Vec3) -> (r: Vec3)
        requires
            abs_i(fmul(self.x as int, rhs.x as int)) <= i64::MAX as int,
            abs_i(fmul(self.y as int, rhs.y as int)) <= i64::MAX as int,
            abs_i(fmul(self.z as int, rhs.z as int)) <= i64::MAX as int,
        ensures
            r == spec_mul_comp(self, rhs),
    {
        Vec3 { x: mul_fx(self.x, rhs.x), y: mul_fx(self.y, rhs.y), z: mul_fx(self.z, rhs.z) }
    }

    pub fn dot(&self, vec: Vec3) -> (r: i64)
        requires
            abs_i(fmul(self.x as int, vec.x as int)) + abs_i(fmul(self.y as int, vec.y as int))
                + abs_i(fmul(self.z as int, vec.z as int)) <= i64::MAX as int,
        ensures
            r == spec_dot(*self, vec),
    {
        dot(self, &vec)
    }

    pub fn squared_length(&self) -> (r: i64)
        requires
            abs_i(fmul(self.x as int, self.x as int)) + abs_i(fmul(self.y as int, self.y as int))
                + abs_i(fmul(self.z as int, self.z as int)) <= i64::MAX as int,
        ensures
            r == spec_sq_len(*self),
            r >= 0,
    {
        proof {
            lemma_sq_len_nonneg(*self);
        }
        dot(self, self)
    }

    pub fn length(&self) -> (r: i64)
        requires
            spec_sq_len(*self) * (SCALE as int) <= u64::MAX as int,
        ensures
            r == spec_len(*self),
            r >= 0,
    {
        proof {
            lemma_fmul_sq_nonneg(self.x as int);
            lemma_fmul_sq_nonneg(self.y as int);
            lemma_fmul_sq_nonneg(self.z as int);
        }
        let sq = self.squared_length();
        sqrt_fx(sq)
    }

    pub fn cross(&self, vec: Vec3) -> (r: Vec3)
        requires
            abs_i(fmul(self.y as int, vec.z as int)) + abs_i(fmul(self.z as int, vec.y as int))
                <= i64::MAX as int,
            abs_i(fmul(self.x as int, vec.z as int)) + abs_i(fmul(self.z as int, vec.x as int))
                <= i64::MAX as int,
            abs_i(fmul(self.x as int, vec.y as int)) + abs_i(fmul(self.y as int, vec.x as int))
                <= i64::MAX as int,
        ensures
            r == spec_cross(*self, vec),
    {
        Vec3 {
            x: mul_fx(self.y, vec.z) - mul_fx(self.z, vec.y),
            y: -(mul_fx(self.x, vec.z) - mul_fx(self.z, vec.x)),
            z: mul_fx(self.x, vec.y) - mul_fx(self.y, vec.x),
        }
    }

    pub fn unit_vector(self) -> (r: Vec3)
        requires
            spec_sq_len(self) > 0,
            spec_sq_len(self) * (SCALE as int) <= u64::MAX as int,
            bounded_vec(self, 0x1000_0000_0000),
        ensures
            r == spec_unit(self),
            bounded_vec(r, 2 * (SCALE as int)),
    {
        let len = self.length();
        proof {
            lemma_sq_len_nonneg(self);
            lemma_sqrt_exists(spec_sq_len(self) * (SCALE as int));
            assert(spec_len(self) >= 256) by (nonlinear_arith)
                requires
                    is_sqrt(spec_sq_len(self) * (SCALE as int), spec_len(self)),
                    spec_sq_len(self) >= 1,
                    SCALE == 65536,
            {
            }
            lemma_fmul_sq_nonneg(self.x as int);
            lemma_fmul_sq_nonneg(self.y as int);
            lemma_fmul_sq_nonneg(self.z as int);
            lemma_unit_component_small(self.x as int, spec_sq_len(self), spec_len(self));
            lemma_unit_component_small(self.y as int, spec_sq_len(self), spec_len(self));
            lemma_unit_component_small(self.z as int, spec_sq_len(self), spec_len(self));
        }
        Vec3 { x: div_fx(self.x, len), y: div_fx(self.y, len), z: div_fx(self.z, len) }
    }

    /// Scales the vector in place to unit length.
    pub fn make_unit_vector(&mut self)
        requires
            spec_sq_len(*old(self)) > 0,
            spec_sq_len(*old(self)) * (SCALE as int) <= u64::MAX as int,
            bounded_vec(*old(self), 0x1000_0000_0000),
        ensures
            *final(self) == spec_unit(*old(self)),
    {
        *self = self.unit_vector();
    }
}

} // verus!
