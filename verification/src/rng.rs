//! Randomness for the renderer: a seeded generator from the rand crate
//! behind two trusted declarations, and the bounded rejection samplers
//! built on it.
//!
//! Every draw enters verified code as a plain integer, so everything a
//! sample influences is specified for every value the generator can
//! produce.

use vstd::prelude::*;
use crate::fixed::SCALE;
use crate::vec3::{Vec3, spec_sq_len, bounded_vec};
use crate::ray::lemma_fmul_abs;

verus! {

#[verifier::external_type_specification]
#[verifier::external_body]
pub struct ExStdRng(rand::rngs::StdRng);

/// Relies on rand::SeedableRng::seed_from_u64: a generator whose stream
/// is a reproducible function of the seed.
#[verifier::external_body]
pub fn rng_from_seed(seed: u64) -> rand::rngs::StdRng {
    <rand::rngs::StdRng as rand::SeedableRng>::seed_from_u64(seed)
}

/// Relies on rand::Rng::gen_range: a uniform value below the bound.
/// Nothing more is assumed of the value drawn.
#[verifier::external_body]
pub fn rng_below(rng: &mut rand::rngs::StdRng, n: u64) -> (r: u64)
    requires
        n > 0,
    ensures
        r < n,
{
    rand::Rng::gen_range(rng, 0..n)
}

/// One uniform fixed-point coordinate in [-1, 1].
fn rng_coord(rng: &mut rand::rngs::StdRng) -> (r: i64)
    ensures
        -SCALE <= r <= SCALE,
{
    let v = rng_below(rng, 131073);
    (v as i64) - SCALE
}

/// A point of the open unit ball, found by bounded rejection sampling:
/// draw points of the enclosing cube until one falls inside; after a
/// fixed number of misses answer the center, which is inside as well.
pub fn random_in_unit_sphere(rng: &mut rand::rngs::StdRng) -> (r: Vec3)
    ensures
        spec_sq_len(r) < SCALE as int,
        bounded_vec(r, SCALE as int),
{
    let mut tries: u64 = 0;
    while tries < 64
        invariant
            true,
        decreases 64 - tries,
    {
        let p = Vec3::new(rng_coord(rng), rng_coord(rng), rng_coord(rng));
        proof {
            lemma_fmul_abs(p.x as int, p.x as int, 65536, 65536);
            lemma_fmul_abs(p.y as int, p.y as int, 65536, 65536);
            lemma_fmul_abs(p.z as int, p.z as int, 65536, 65536);
        }
        let sq = p.squared_length();
        if sq < SCALE {
            return p;
        }
        tries = tries + 1;
    }
    Vec3::new(0, 0, 0)
}

/// A point of the open unit disk in the xy plane, by the same bounded
/// rejection sampling.
pub fn random_in_unit_disk(rng: &mut rand::rngs::StdRng) -> (r: Vec3)
    ensures
        spec_sq_len(r) < SCALE as int,
        bounded_vec(r, SCALE as int),
        r.z == 0,
{
    let mut tries: u64 = 0;
    while tries < 64
        invariant
            true,
        decreases 64 - tries,
    {
        let p = Vec3::new(rng_coord(rng), rng_coord(rng), 0);
        proof {
            lemma_fmul_abs(p.x as int, p.x as int, 65536, 65536);
            lemma_fmul_abs(p.y as int, p.y as int, 65536, 65536);
            lemma_fmul_abs(p.z as int, p.z as int, 65536, 65536);
        }
        let sq = p.squared_length();
        if sq < SCALE {
            return p;
        }
        tries = tries + 1;
    }
    Vec3::new(0, 0, 0)
}

} // verus!
