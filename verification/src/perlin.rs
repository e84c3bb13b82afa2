//! Hashed-gradient (Perlin) noise: a shuffled permutation table per axis
//! and precomputed random unit-ball gradients, interpolated smoothly.

use vstd::prelude::*;
use crate::fixed::{abs_i, fmul, mul_fx, SCALE};
use crate::vec3::{Vec3, dot, spec_dot, bounded_vec};
use crate::ray::lemma_fmul_abs;
use crate::rng::{rng_below, random_in_unit_sphere};

verus! {

/// The table is a permutation of 0..256: every entry is in range and no
/// two entries are equal.
pub open spec fn is_perm_256(s: Seq<usize>) -> bool {
    &&& s.len() == 256
    &&& forall|i: int| 0 <= i < 256 ==> (#[trigger] s[i]) < 256
    &&& forall|i: int, j: int| 0 <= i < j < 256 ==> s[i] != s[j]
}

/// A table of the numbers 0..255, shuffled by a Fisher-Yates pass.
pub fn perlin_generate_perm(rng: &mut rand::rngs::StdRng) -> (r: Vec<usize>)
    ensures
        is_perm_256(r@),
{
    let mut p: Vec<usize> = Vec::new();
    let mut i: usize = 0;
    while i < 256
        invariant
            i <= 256,
            p@.len() == i,
            forall|k: int| 0 <= k < i ==> (#[trigger] p@[k]) == k,
        decreases 256 - i,
    {
        p.push(i);
        i = i + 1;
    }
    let mut j: usize = 256;
    while j > 0
        invariant
            j <= 256,
            p@.len() == 256,
            forall|k: int| 0 <= k < 256 ==> (#[trigger] p@[k]) < 256,
            forall|k: int, l: int| 0 <= k < l < 256 ==> p@[k] != p@[l],
        decreases j,
    {
        j = j - 1;
        let target = rng_below(rng, (j as u64) + 1) as usize;
        let a = p[j];
        let b = p[target];
        p.set(j, b);
        p.set(target, a);
    }
    p
}

} // verus!

verus! {

pub struct Perlin {
    pub ranvec: Vec<Vec3>,
    pub perm_x: Vec<usize>,
    pub perm_y: Vec<usize>,
    pub perm_z: Vec<usize>,
}

/// Sound noise tables: 256 bounded gradient vectors and a permutation
/// of 0..256 per axis.
pub open spec fn perlin_wf(pl: Perlin) -> bool {
    &&& pl.ranvec@.len() == 256
    &&& forall|i: int| 0 <= i < 256 ==> bounded_vec(#[trigger] pl.ranvec@[i], SCALE as int)
    &&& forall|i: int|
        0 <= i < 256 ==> crate::vec3::spec_sq_len(#[trigger] pl.ranvec@[i]) < SCALE as int
    &&& is_perm_256(pl.perm_x@)
    &&& is_perm_256(pl.perm_y@)
    &&& is_perm_256(pl.perm_z@)
}

/// The gradient index of a lattice corner: the three axis permutations
/// hashed together by xor.
pub open spec fn spec_lattice(pl: Perlin, i: int, j: int, k: int) -> int {
    (pl.perm_x@[i % 256] ^ pl.perm_y@[j % 256] ^ pl.perm_z@[k % 256]) as int
}

/// The smoothstep fade of a fractional offset.
pub open spec fn spec_fade(u: int) -> int {
    fmul(fmul(u, u), 3 * (SCALE as int) - 2 * u)
}

/// One corner's contribution: the faded weights of the corner times the
/// gradient's dot product with the offset to the corner.
pub open spec fn spec_corner(
    pl: Perlin,
    i: int,
    j: int,
    k: int,
    di: int,
    dj: int,
    dk: int,
    u: int,
    v: int,
    w: int,
) -> int {
    let s = SCALE as int;
    let cu = if di == 1 {
        spec_fade(u)
    } else {
        s - spec_fade(u)
    };
    let cv = if dj == 1 {
        spec_fade(v)
    } else {
        s - spec_fade(v)
    };
    let cw = if dk == 1 {
        spec_fade(w)
    } else {
        s - spec_fade(w)
    };
    let g = pl.ranvec@[spec_lattice(pl, i + di, j + dj, k + dk)];
    let wv = Vec3 { x: (u - di * s) as i64, y: (v - dj * s) as i64, z: (w - dk * s) as i64 };
    fmul(fmul(fmul(cu, cv), cw), spec_dot(g, wv))
}

/// Hashed-gradient noise at p: the smoothly interpolated gradient dot
/// products at the eight lattice corners around p.
#[verifier::opaque]
pub open spec fn spec_noise(pl: Perlin, p: Vec3) -> int {
    let s = SCALE as int;
    let i = p.x as int / s;
    let j = p.y as int / s;
    let k = p.z as int / s;
    let u = p.x - i * s;
    let v = p.y - j * s;
    let w = p.z - k * s;
    spec_corner(pl, i, j, k, 0, 0, 0, u, v, w) + spec_corner(pl, i, j, k, 0, 0, 1, u, v, w)
        + spec_corner(pl, i, j, k, 0, 1, 0, u, v, w) + spec_corner(pl, i, j, k, 0, 1, 1, u, v, w)
        + spec_corner(pl, i, j, k, 1, 0, 0, u, v, w) + spec_corner(pl, i, j, k, 1, 0, 1, u, v, w)
        + spec_corner(pl, i, j, k, 1, 1, 0, u, v, w) + spec_corner(pl, i, j, k, 1, 1, 1, u, v, w)
}

/// Seven octaves of noise at doubling frequency and halving weight,
/// folded to a nonnegative value.
pub open spec fn spec_turb(pl: Perlin, p: Vec3) -> int {
    let p1 = Vec3 { x: (2 * p.x) as i64, y: (2 * p.y) as i64, z: (2 * p.z) as i64 };
    let p2 = Vec3 { x: (2 * p1.x) as i64, y: (2 * p1.y) as i64, z: (2 * p1.z) as i64 };
    let p3 = Vec3 { x: (2 * p2.x) as i64, y: (2 * p2.y) as i64, z: (2 * p2.z) as i64 };
    let p4 = Vec3 { x: (2 * p3.x) as i64, y: (2 * p3.y) as i64, z: (2 * p3.z) as i64 };
    let p5 = Vec3 { x: (2 * p4.x) as i64, y: (2 * p4.y) as i64, z: (2 * p4.z) as i64 };
    let p6 = Vec3 { x: (2 * p5.x) as i64, y: (2 * p5.y) as i64, z: (2 * p5.z) as i64 };
    let total = spec_noise(pl, p) + fmul(32768, spec_noise(pl, p1)) + fmul(
        16384,
        spec_noise(pl, p2),
    ) + fmul(8192, spec_noise(pl, p3)) + fmul(4096, spec_noise(pl, p4)) + fmul(
        2048,
        spec_noise(pl, p5),
    ) + fmul(1024, spec_noise(pl, p6));
    if total >= 0 {
        total
    } else {
        -total
    }
}

/// Euclidean remainder modulo 256, nonnegative for any input.
fn emod256(a: i64) -> (r: i64)
    requires
        a > i64::MIN + 256,
    ensures
        r == (a as int) % 256,
        0 <= r < 256,
{
    let q = crate::fixed::div_floor(a, 256);
    a - 256 * q
}

fn fade(u: i64) -> (r: i64)
    requires
        0 <= u < SCALE,
    ensures
        r == spec_fade(u as int),
        0 <= r <= SCALE,
{
    proof {
        lemma_fmul_abs(u as int, u as int, 65536, 65536);
        assert(0 <= fmul(u as int, u as int)) by (nonlinear_arith)
            requires
                fmul(u as int, u as int) == crate::fixed::tdiv(u as int * u as int, 65536),
                u >= 0,
        {
        }
        lemma_fmul_abs(fmul(u as int, u as int), 3 * 65536 - 2 * u as int, 65536, 196608);
        assert(0 <= fmul(fmul(u as int, u as int), 3 * 65536 - 2 * u as int) <= 65536)
            by (nonlinear_arith)
            requires
                0 <= u < 65536,
                0 <= fmul(u as int, u as int) <= (u as int * u as int) / 65536 + 1,
                fmul(u as int, u as int) == crate::fixed::tdiv(u as int * u as int, 65536),
                fmul(fmul(u as int, u as int), 3 * 65536 - 2 * u as int) == crate::fixed::tdiv(
                    fmul(u as int, u as int) * (3 * 65536 - 2 * u as int),
                    65536,
                ),
        {
        }
    }
    mul_fx(mul_fx(u, u), 3 * SCALE - 2 * u)
}

/// One corner's contribution, executable.
fn corner_term(
    pl: &Perlin,
    i: i64,
    j: i64,
    k: i64,
    di: i64,
    dj: i64,
    dk: i64,
    u: i64,
    v: i64,
    w: i64,
    fu: i64,
    fv: i64,
    fw: i64,
) -> (r: i64)
    requires
        perlin_wf(*pl),
        0 <= di <= 1 && 0 <= dj <= 1 && 0 <= dk <= 1,
        0 <= u < SCALE && 0 <= v < SCALE && 0 <= w < SCALE,
        fu == spec_fade(u as int),
        fv == spec_fade(v as int),
        fw == spec_fade(w as int),
        0 <= fu <= SCALE && 0 <= fv <= SCALE && 0 <= fw <= SCALE,
        abs_i(i as int) <= 0x100_0000_0000,
        abs_i(j as int) <= 0x100_0000_0000,
        abs_i(k as int) <= 0x100_0000_0000,
    ensures
        r == spec_corner(
            *pl,
            i as int,
            j as int,
            k as int,
            di as int,
            dj as int,
            dk as int,
            u as int,
            v as int,
            w as int,
        ),
        abs_i(r as int) <= 3 * (SCALE as int),
{
    let mi = emod256(i + di) as usize;
    let mj = emod256(j + dj) as usize;
    let mk = emod256(k + dk) as usize;
    let hx = pl.perm_x[mi];
    let hy = pl.perm_y[mj];
    let hz = pl.perm_z[mk];
    let idx = hx ^ hy ^ hz;
    proof {
        assert(hx < 256 && hy < 256 && hz < 256);
        assert((hx as u64) ^ (hy as u64) ^ (hz as u64) < 256) by (bit_vector)
            requires
                hx < 256usize && hy < 256usize && hz < 256usize,
        ;
        assert((i + di) as int % 256 == (i as int + di as int) % 256);
    }
    let g = pl.ranvec[idx];
    let wv = Vec3::new(u - di * SCALE, v - dj * SCALE, w - dk * SCALE);
    proof {
        lemma_fmul_abs(g.x as int, wv.x as int, 65536, 65536);
        lemma_fmul_abs(g.y as int, wv.y as int, 65536, 65536);
        lemma_fmul_abs(g.z as int, wv.z as int, 65536, 65536);
    }
    let d = dot(&g, &wv);
    let cu = if di == 1 {
        fu
    } else {
        SCALE - fu
    };
    let cv = if dj == 1 {
        fv
    } else {
        SCALE - fv
    };
    let cw = if dk == 1 {
        fw
    } else {
        SCALE - fw
    };
    proof {
        lemma_fmul_abs(cu as int, cv as int, 65536, 65536);
        lemma_fmul_abs(fmul(cu as int, cv as int), cw as int, 65536, 65536);
        lemma_fmul_abs(
            fmul(fmul(cu as int, cv as int), cw as int),
            spec_dot(g, wv),
            65536,
            196608,
        );
    }
    mul_fx(mul_fx(mul_fx(cu, cv), cw), d)
}

impl Perlin {
    /// Fresh noise tables from the generator.
    pub fn new(rng: &mut rand::rngs::StdRng) -> (pl: Perlin)
        ensures
            perlin_wf(pl),
    {
        let mut ranvec: Vec<Vec3> = Vec::new();
        let mut i: usize = 0;
        while i < 256
            invariant
                i <= 256,
                ranvec@.len() == i,
                forall|k: int|
                    0 <= k < i ==> bounded_vec(#[trigger] ranvec@[k], SCALE as int),
                forall|k: int|
                    0 <= k < i ==> crate::vec3::spec_sq_len(#[trigger] ranvec@[k])
                        < SCALE as int,
            decreases 256 - i,
        {
            let s = random_in_unit_sphere(rng);
            ranvec.push(s);
            i = i + 1;
        }
        Perlin {
            ranvec,
            perm_x: perlin_generate_perm(rng),
            perm_y: perlin_generate_perm(rng),
            perm_z: perlin_generate_perm(rng),
        }
    }

    /// The noise value at p, in about [-3, 3] fixed-point units.
    #[verifier::rlimit(100)]
    pub fn noise(&self, p: &Vec3) -> (r: i64)
        requires
            perlin_wf(*self),
            bounded_vec(*p, 0x100_0000_0000_0000),
        ensures
            r == spec_noise(*self, *p),
            abs_i(r as int) <= 24 * (SCALE as int),
    {
        let i = crate::fixed::div_floor(p.x, SCALE);
        let j = crate::fixed::div_floor(p.y, SCALE);
        let k = crate::fixed::div_floor(p.z, SCALE);
        let u = p.x - i * SCALE;
        let v = p.y - j * SCALE;
        let w = p.z - k * SCALE;
        let fu = fade(u);
        let fv = fade(v);
        let fw = fade(w);
        proof {
            reveal(spec_noise);
        }
        let t0 = corner_term(self, i, j, k, 0, 0, 0, u, v, w, fu, fv, fw);
        let t1 = corner_term(self, i, j, k, 0, 0, 1, u, v, w, fu, fv, fw);
        let t2 = corner_term(self, i, j, k, 0, 1, 0, u, v, w, fu, fv, fw);
        let t3 = corner_term(self, i, j, k, 0, 1, 1, u, v, w, fu, fv, fw);
        let t4 = corner_term(self, i, j, k, 1, 0, 0, u, v, w, fu, fv, fw);
        let t5 = corner_term(self, i, j, k, 1, 0, 1, u, v, w, fu, fv, fw);
        let t6 = corner_term(self, i, j, k, 1, 1, 0, u, v, w, fu, fv, fw);
        let t7 = corner_term(self, i, j, k, 1, 1, 1, u, v, w, fu, fv, fw);
        t0 + t1 + t2 + t3 + t4 + t5 + t6 + t7
    }

    /// Turbulence: seven octaves of noise at doubling frequency and
    /// halving amplitude, folded to a nonnegative value.
    #[verifier::rlimit(100)]
    #[verifier::spinoff_prover]
    pub fn turb(&self, p: &Vec3) -> (r: i64)
        requires
            perlin_wf(*self),
            bounded_vec(*p, 0x1_0000_0000_0000),
        ensures
            r == spec_turb(*self, *p),
            0 <= r <= 168 * (SCALE as int),
    {
        let p0 = *p;
        let p1 = Vec3::new(2 * p0.x, 2 * p0.y, 2 * p0.z);
        let p2 = Vec3::new(2 * p1.x, 2 * p1.y, 2 * p1.z);
        let p3 = Vec3::new(2 * p2.x, 2 * p2.y, 2 * p2.z);
        let p4 = Vec3::new(2 * p3.x, 2 * p3.y, 2 * p3.z);
        let p5 = Vec3::new(2 * p4.x, 2 * p4.y, 2 * p4.z);
        let p6 = Vec3::new(2 * p5.x, 2 * p5.y, 2 * p5.z);
        let n0 = self.noise(&p0);
        let n1 = self.noise(&p1);
        let n2 = self.noise(&p2);
        let n3 = self.noise(&p3);
        let n4 = self.noise(&p4);
        let n5 = self.noise(&p5);
        let n6 = self.noise(&p6);
        proof {
            crate::hittable::lemma_fmul_unit(32768, n1 as int);
            crate::hittable::lemma_fmul_unit(16384, n2 as int);
            crate::hittable::lemma_fmul_unit(8192, n3 as int);
            crate::hittable::lemma_fmul_unit(4096, n4 as int);
            crate::hittable::lemma_fmul_unit(2048, n5 as int);
            crate::hittable::lemma_fmul_unit(1024, n6 as int);
        }
        let accum = n0 + mul_fx(32768, n1) + mul_fx(16384, n2) + mul_fx(8192, n3) + mul_fx(
            4096,
            n4,
        ) + mul_fx(2048, n5) + mul_fx(1024, n6);
        if accum >= 0 {
            accum
        } else {
            -accum
        }
    }
}

} // verus!
