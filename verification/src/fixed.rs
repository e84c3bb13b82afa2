//! Fixed-point scalars: signed 64-bit integers counted in 1/`SCALE` units.
//!
//! `1.0` is represented by `SCALE`.  Products and quotients round toward
//! zero, exactly as `tdiv` specifies, so every arithmetic result is pinned
//! down to the last unit.

use vstd::prelude::*;

verus! {

/// Number of fixed-point steps per unit: all scalars are multiples of 1/SCALE.
pub const SCALE: i64 = 65536;

/// Absolute value of a mathematical integer.
pub open spec fn abs_i(a: int) -> int {
    if a >= 0 {
        a
    } else {
        -a
    }
}

/// Division rounding toward zero (the semantics of machine division),
/// as opposed to the Euclidean `/` of specifications.
pub open spec fn tdiv(a: int, b: int) -> int {
    if (a >= 0) == (b >= 0) {
        abs_i(a) / abs_i(b)
    } else {
        -(abs_i(a) / abs_i(b))
    }
}

/// Fixed-point product: a*b/SCALE rounded toward zero.
pub open spec fn fmul(a: int, b: int) -> int {
    tdiv(a * b, SCALE as int)
}

/// Fixed-point quotient: a*SCALE/b rounded toward zero.
pub open spec fn fdiv(a: int, b: int) -> int {
    tdiv(a * (SCALE as int), b)
}

/// r is the integer square root of n: the greatest r with r*r <= n.
pub open spec fn is_sqrt(n: int, r: int) -> bool {
    0 <= r && r * r <= n && n < (r + 1) * (r + 1)
}

/// The integer square root as a function, for use in specifications.
pub open spec fn sqrt_i(n: int) -> int {
    choose|r: int| is_sqrt(n, r)
}

/// Square root of a fixed-point value: sqrt(a/SCALE) in fixed point
/// is the integer square root of a*SCALE.
pub open spec fn fsqrt(a: int) -> int {
    sqrt_i(a * (SCALE as int))
}

pub proof fn lemma_sqrt_exists(n: int)
    requires
        n >= 0,
    ensures
        is_sqrt(n, sqrt_i(n)),
    decreases n,
{
    if n == 0 {
        assert(is_sqrt(0, 0)) by (nonlinear_arith);
    } else {
        lemma_sqrt_exists(n - 1);
        let r = sqrt_i(n - 1);
        if (r + 1) * (r + 1) <= n {
            assert(n - 1 < (r + 1) * (r + 1));
            assert(is_sqrt(n, r + 1)) by (nonlinear_arith)
                requires
                    0 <= r,
                    (r + 1) * (r + 1) <= n,
                    n - 1 < (r + 1) * (r + 1),
            {
            }
        } else {
            assert(is_sqrt(n, r));
        }
        assert(exists|q: int| is_sqrt(n, q));
    }
}

pub proof fn lemma_sqrt_unique(n: int, r1: int, r2: int)
    requires
        is_sqrt(n, r1),
        is_sqrt(n, r2),
    ensures
        r1 == r2,
{
    assert(r1 == r2) by (nonlinear_arith)
        requires
            is_sqrt(n, r1),
            is_sqrt(n, r2),
    {
    }
}

/// |a*b| <= x*y whenever |a| <= x and |b| <= y: the bound every
/// overflow argument in this crate rests on.
pub proof fn lemma_mul_bound(a: int, b: int, x: int, y: int)
    requires
        abs_i(a) <= x,
        abs_i(b) <= y,
    ensures
        abs_i(a * b) <= x * y,
{
    assert(abs_i(a * b) <= x * y) by (nonlinear_arith)
        requires
            abs_i(a) <= x,
            abs_i(b) <= y,
    {
    }
}

/// Truncating division shrinks magnitude: |tdiv(a, b)| <= |a| for b != 0,
/// and more precisely |tdiv(a, b)| <= |a| / |b|.
pub proof fn lemma_tdiv_bound(a: int, b: int)
    requires
        b != 0,
    ensures
        abs_i(tdiv(a, b)) == abs_i(a) / abs_i(b),
        abs_i(tdiv(a, b)) <= abs_i(a),
{
    assert(abs_i(a) / abs_i(b) <= abs_i(a) && abs_i(a) / abs_i(b) >= 0) by (nonlinear_arith)
        requires
            abs_i(b) >= 1,
            abs_i(a) >= 0,
    {
    }
}

/// Product of two i64 values, exact in a 128-bit intermediate.
fn wide_mul(a: i64, b: i64) -> (r: i128)
    ensures
        r == a as int * b as int,
        abs_i(r as int) <= 0x4000_0000_0000_0000_0000_0000_0000_0000,
{
    proof {
        lemma_mul_bound(a as int, b as int, 0x8000_0000_0000_0000, 0x8000_0000_0000_0000);
    }
    (a as i128) * (b as i128)
}

/// Truncating division of a 128-bit value by a nonzero i64,
/// computed on magnitudes so that the rounding is pinned down.
pub fn tdiv_i128(a: i128, b: i64) -> (r: i128)
    requires
        b != 0,
        a > i128::MIN,
    ensures
        r == tdiv(a as int, b as int),
{
    let neg: bool = (a < 0) != (b < 0);
    let ma: u128 = if a < 0 {
        (-a) as u128
    } else {
        a as u128
    };
    let mb: u128 = if b < 0 {
        (-(b as i128)) as u128
    } else {
        b as u128
    };
    let q: u128 = ma / mb;
    proof {
        assert(ma == abs_i(a as int));
        assert(mb == abs_i(b as int));
        lemma_tdiv_bound(a as int, b as int);
    }
    if neg {
        -(q as i128)
    } else {
        q as i128
    }
}

/// Fixed-point multiplication; the result must fit in an i64.
pub fn mul_fx(a: i64, b: i64) -> (r: i64)
    requires
        abs_i(fmul(a as int, b as int)) <= i64::MAX as int,
    ensures
        r == fmul(a as int, b as int),
{
    let p: i128 = wide_mul(a, b);
    let q: i128 = tdiv_i128(p, SCALE);
    q as i64
}

/// Fixed-point division; the divisor must be nonzero and the quotient
/// must fit in an i64.
pub fn div_fx(a: i64, b: i64) -> (r: i64)
    requires
        b != 0,
        abs_i(fdiv(a as int, b as int)) <= i64::MAX as int,
    ensures
        r == fdiv(a as int, b as int),
{
    let p: i128 = (a as i128) * (SCALE as i128);
    assert(p == a as int * SCALE as int);
    let q: i128 = tdiv_i128(p, b);
    q as i64
}

/// Integer square root by binary search.
pub fn isqrt_u64(n: u64) -> (r: u64)
    ensures
        r as int == sqrt_i(n as int),
        is_sqrt(n as int, r as int),
{
    let mut lo: u64 = 0;
    let mut hi: u64 = 4294967295;
    proof {
        assert((hi + 1) * (hi + 1) > n as int) by (nonlinear_arith)
            requires
                hi == 4294967295u64,
                n <= u64::MAX,
        {
        }
    }
    while lo < hi
        invariant
            lo <= hi,
            hi <= 4294967295,
            lo * lo <= n,
            (hi + 1) * (hi + 1) > n,
        decreases hi - lo,
    {
        let mid: u64 = lo + (hi - lo + 1) / 2;
        proof {
            assert(mid * mid <= u64::MAX as int) by (nonlinear_arith)
                requires
                    mid <= 4294967295u64,
            {
            }
        }
        if mid * mid <= n {
            lo = mid;
        } else {
            hi = mid - 1;
        }
    }
    proof {
        lemma_sqrt_exists(n as int);
        lemma_sqrt_unique(n as int, lo as int, sqrt_i(n as int));
    }
    lo
}

/// Integer square root of a 128-bit value, for the wide intermediates of
/// the quadratic solver.
pub fn isqrt_u128(n: u128) -> (r: u128)
    ensures
        r as int == sqrt_i(n as int),
        is_sqrt(n as int, r as int),
{
    let mut lo: u128 = 0;
    let mut hi: u128 = 0xFFFF_FFFF_FFFF_FFFF;
    proof {
        assert((hi + 1) * (hi + 1) > n as int) by (nonlinear_arith)
            requires
                hi == 0xFFFF_FFFF_FFFF_FFFFu128,
                n <= u128::MAX,
        {
        }
    }
    while lo < hi
        invariant
            lo <= hi,
            hi <= 0xFFFF_FFFF_FFFF_FFFF,
            lo * lo <= n,
            (hi + 1) * (hi + 1) > n,
        decreases hi - lo,
    {
        let mid: u128 = lo + (hi - lo + 1) / 2;
        proof {
            assert(mid * mid <= u128::MAX as int) by (nonlinear_arith)
                requires
                    mid <= 0xFFFF_FFFF_FFFF_FFFFu128,
            {
            }
        }
        if mid * mid <= n {
            lo = mid;
        } else {
            hi = mid - 1;
        }
    }
    proof {
        lemma_sqrt_exists(n as int);
        lemma_sqrt_unique(n as int, lo as int, sqrt_i(n as int));
    }
    lo
}

/// The clamp of a into [-b, b].
pub open spec fn sclamp(a: int, b: int) -> int {
    if a < -b {
        -b
    } else if a > b {
        b
    } else {
        a
    }
}

/// Clamps a scalar into a symmetric range.
pub fn clamp_fx(a: i64, b: i64) -> (r: i64)
    requires
        0 <= b,
    ensures
        r == sclamp(a as int, b as int),
        abs_i(r as int) <= b,
{
    if a < -b {
        -b
    } else if a > b {
        b
    } else {
        a
    }
}

/// Fixed-point square root of a nonnegative fixed-point value.
pub fn sqrt_fx(a: i64) -> (r: i64)
    requires
        0 <= a,
        a * (SCALE as int) <= u64::MAX as int,
    ensures
        r == fsqrt(a as int),
        is_sqrt(a * (SCALE as int), r as int),
        0 <= r,
{
    let wide: u64 = (a as u64) * (SCALE as u64);
    let r = isqrt_u64(wide);
    proof {
        assert(sqrt_i(wide as int) * sqrt_i(wide as int) <= wide as int);
        assert(sqrt_i(wide as int) <= i64::MAX as int) by (nonlinear_arith)
            requires
                is_sqrt(wide as int, sqrt_i(wide as int)),
                wide <= u64::MAX,
        {
        }
    }
    r as i64
}

/// Floor division by a positive divisor, the `/` of specifications.
pub fn div_floor(a: i64, b: i64) -> (r: i64)
    requires
        b > 0,
        a > i64::MIN,
    ensures
        r == a as int / b as int,
{
    if a >= 0 {
        let q = (a as u64) / (b as u64);
        q as i64
    } else {
        let m: u64 = (-a) as u64;
        let q: u64 = m / (b as u64);
        let rem: u64 = m % (b as u64);
        proof {
            assert(a as int == -(m as int));
            assert(m as int == (b as int) * (q as int) + (rem as int)) by (nonlinear_arith)
                requires
                    q == m as int / b as int,
                    rem == m as int % b as int,
                    b > 0,
                    m >= 0,
            {
            }
            if rem == 0 {
                assert((-(m as int)) / (b as int) == -(q as int)) by (nonlinear_arith)
                    requires
                        m as int == (b as int) * (q as int),
                        b > 0,
                {
                }
            } else {
                assert((-(m as int)) / (b as int) == -(q as int) - 1) by (nonlinear_arith)
                    requires
                        m as int == (b as int) * (q as int) + rem as int,
                        0 < rem < b,
                        b > 0,
                {
                }
            }
        }
        if rem == 0 {
            -(q as i64)
        } else {
            -(q as i64) - 1
        }
    }
}

/// The smaller of two scalars.
pub fn min_fx(a: i64, b: i64) -> (r: i64)
    ensures
        r == if a as int <= b as int { a as int } else { b as int },
{
    if a <= b {
        a
    } else {
        b
    }
}

/// The larger of two scalars.
pub fn max_fx(a: i64, b: i64) -> (r: i64)
    ensures
        r == if a as int >= b as int { a as int } else { b as int },
{
    if a >= b {
        a
    } else {
        b
    }
}

} // verus!

