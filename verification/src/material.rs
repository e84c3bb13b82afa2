//! The scattering model: how light leaves a surface it has struck.  A
//! closed enum over the five behaviors; the random sample each draw uses
//! enters the specification as an explicit witness, so every outcome of
//! the generator is covered.

use vstd::prelude::*;
use crate::fixed::{abs_i, fmul, fdiv, sclamp, mul_fx, div_fx, clamp_fx, min_fx, SCALE};
use crate::vec3::{Vec3, dot, spec_add, spec_sub, spec_scale, spec_dot, spec_sq_len, spec_unit, bounded_vec, lemma_sq_len_nonneg};
use crate::ray::{Ray, spec_reflect, spec_refract, spec_schlick, reflect, refract, schlick, lemma_fmul_abs};
use crate::texture::{Texture, texture_wf, spec_texture};
use crate::hittable::HitRecord;
use crate::rng::{rng_below, random_in_unit_sphere};

verus! {

pub struct Lambertian {
    pub albedo: Texture,
}

pub struct Metal {
    pub albedo: Vec3,
    pub fuzz: i64,
}

pub struct Dielectric {
    pub ref_idx: i64,
}

pub struct DiffuseLight {
    pub emit: Texture,
}

pub struct Isotropic {
    pub albedo: Texture,
}

pub enum Material {
    Lambertian(Lambertian),
    Metal(Metal),
    Dielectric(Dielectric),
    DiffuseLight(DiffuseLight),
    Isotropic(Isotropic),
}

impl Lambertian {
    pub fn new(texture: Texture) -> (r: Self)
        ensures
            r.albedo == texture,
    {
        Lambertian { albedo: texture }
    }
}

impl Metal {
    /// The fuzz factor is clamped into [0, 1]: a wider scatter cone
    /// would not be a reflection any more, and a negative one has no
    /// meaning.
    pub fn new(albedo: Vec3, fuzz: i64) -> (r: Self)
        ensures
            r.albedo == albedo,
            r.fuzz == if fuzz < 0 {
                0int
            } else if fuzz as int <= SCALE as int {
                fuzz as int
            } else {
                SCALE as int
            },
    {
        Metal { albedo, fuzz: crate::fixed::max_fx(min_fx(fuzz, SCALE), 0) }
    }
}

impl Dielectric {
    pub fn new(ref_idx: i64) -> (r: Self)
        ensures
            r.ref_idx == ref_idx,
    {
        Dielectric { ref_idx }
    }
}

impl DiffuseLight {
    pub fn new(texture: Texture) -> (r: Self)
        ensures
            r.emit == texture,
    {
        DiffuseLight { emit: texture }
    }
}

impl Isotropic {
    pub fn new(albedo: Texture) -> (r: Self)
        ensures
            r.albedo == albedo,
    {
        Isotropic { albedo }
    }
}

pub open spec fn material_wf(m: Material) -> bool {
    match m {
        Material::Lambertian(l) => texture_wf(l.albedo) && crate::texture::texture_unit(l.albedo),
        Material::Metal(mt) => 0 <= mt.albedo.x <= SCALE && 0 <= mt.albedo.y <= SCALE && 0
            <= mt.albedo.z <= SCALE && 0 <= mt.fuzz <= SCALE,
        Material::Dielectric(d) => 8192 <= d.ref_idx <= 524288,
        Material::DiffuseLight(dl) => texture_wf(dl.emit),
        Material::Isotropic(i) => texture_wf(i.albedo) && crate::texture::texture_unit(i.albedo),
    }
}

/// A point of the open unit ball, as the samplers produce them.
pub open spec fn spec_in_ball(s: Vec3) -> bool {
    spec_sq_len(s) < SCALE as int && bounded_vec(s, SCALE as int)
}

/// What a hit record must look like before a material can act on it.
pub open spec fn rec_ok(rec: HitRecord) -> bool {
    &&& bounded_vec(rec.p, 0x4_0000_0000_0000)
    &&& bounded_vec(rec.normal, 2 * (SCALE as int))
    &&& 0 <= rec.u <= SCALE
    &&& 0 <= rec.v <= SCALE
}

/// Incoming rays a material can act on.
pub open spec fn in_ray_ok(r: Ray) -> bool {
    bounded_vec(r.origin, 0x4_0000_0000_0000) && bounded_vec(r.direction, 0x1000_0000)
}

/// Diffuse bounce for the drawn ball point s: aim at the point one
/// normal-length above the surface jittered by s.
pub open spec fn spec_lambertian(l: Lambertian, r_in: Ray, rec: HitRecord, s: Vec3) -> Option<
    (Vec3, Ray),
> {
    let target = spec_add(spec_add(rec.p, rec.normal), s);
    Some(
        (
            spec_texture(l.albedo, rec.u as int, rec.v as int, rec.p),
            Ray { origin: rec.p, direction: spec_sub(target, rec.p), time: r_in.time },
        ),
    )
}

/// Specular bounce for the drawn ball point s: mirror the unit incoming
/// direction and jitter by fuzz times s; absorbed if that leaves the
/// surface inward.
pub open spec fn spec_metal(m: Metal, r_in: Ray, rec: HitRecord, s: Vec3) -> Option<(Vec3, Ray)> {
    if spec_sq_len(r_in.direction) == 0 {
        None
    } else {
        let reflected = spec_reflect(spec_unit(r_in.direction), rec.normal);
        let direction = spec_add(reflected, spec_scale(s, m.fuzz as int));
        if spec_dot(direction, rec.normal) > 0 {
            Some((m.albedo, Ray { origin: rec.p, direction, time: r_in.time }))
        } else {
            None
        }
    }
}

/// Refraction or reflection for the drawn chance: pick the side of the
/// surface, try Snell refraction, and weight reflection by the Schlick
/// approximation; at a unit index ratio there is no interface, so the
/// ray always refracts undeviated; glass absorbs nothing.
pub open spec fn spec_dielectric(d: Dielectric, r_in: Ray, rec: HitRecord, chance: int) -> Option<
    (Vec3, Ray),
> {
    if spec_sq_len(r_in.direction) == 0 {
        None
    } else {
        let dn = spec_dot(r_in.direction, rec.normal);
        let len = crate::vec3::spec_len(r_in.direction);
        let outward = if dn > 0 {
            crate::vec3::spec_neg(rec.normal)
        } else {
            rec.normal
        };
        let ni_over_nt = if dn > 0 {
            d.ref_idx as int
        } else {
            fdiv(SCALE as int, d.ref_idx as int)
        };
        let cosine = if dn > 0 {
            sclamp(fdiv(fmul(d.ref_idx as int, dn), len), 2 * (SCALE as int))
        } else {
            sclamp(fdiv(-dn, len), 2 * (SCALE as int))
        };
        let reflected = spec_reflect(r_in.direction, rec.normal);
        match spec_refract(r_in.direction, outward, ni_over_nt) {
            Some(refracted) => {
                if ni_over_nt != SCALE as int && chance < spec_schlick(cosine, d.ref_idx as int) {
                    Some(
                        (
                            Vec3 { x: SCALE, y: SCALE, z: SCALE },
                            Ray { origin: rec.p, direction: reflected, time: r_in.time },
                        ),
                    )
                } else {
                    Some(
                        (
                            Vec3 { x: SCALE, y: SCALE, z: SCALE },
                            Ray { origin: rec.p, direction: refracted, time: r_in.time },
                        ),
                    )
                }
            },
            None => Some(
                (
                    Vec3 { x: SCALE, y: SCALE, z: SCALE },
                    Ray { origin: rec.p, direction: reflected, time: r_in.time },
                ),
            ),
        }
    }
}

/// Uniform scatter for the drawn ball point s, the phase function of a
/// participating medium.
pub open spec fn spec_isotropic(i: Isotropic, r_in: Ray, rec: HitRecord, s: Vec3) -> Option<
    (Vec3, Ray),
> {
    Some(
        (
            spec_texture(i.albedo, rec.u as int, rec.v as int, rec.p),
            Ray { origin: rec.p, direction: s, time: r_in.time },
        ),
    )
}

/// The scattering relation: which answers a material may give at a hit,
/// with the sample each draw used as the existential witness.
#[verifier::opaque]
pub open spec fn spec_scatter_rel(
    m: Material,
    r_in: Ray,
    rec: HitRecord,
    res: Option<(Vec3, Ray)>,
) -> bool {
    match m {
        Material::Lambertian(l) => exists|s: Vec3|
            spec_in_ball(s) && res == #[trigger] spec_lambertian(l, r_in, rec, s),
        Material::Metal(mt) => exists|s: Vec3|
            spec_in_ball(s) && res == #[trigger] spec_metal(mt, r_in, rec, s),
        Material::Dielectric(d) => exists|chance: int|
            0 <= chance < SCALE as int && res == #[trigger] spec_dielectric(d, r_in, rec, chance),
        Material::DiffuseLight(_) => res is None,
        Material::Isotropic(i) => exists|s: Vec3|
            spec_in_ball(s) && res == #[trigger] spec_isotropic(i, r_in, rec, s),
    }
}

/// The emission of a material: the light texture's color, zero for all
/// other materials.
pub open spec fn spec_emitted(m: Material, u: int, v: int, p: Vec3) -> Vec3 {
    match m {
        Material::DiffuseLight(dl) => spec_texture(dl.emit, u, v, p),
        _ => Vec3 { x: 0, y: 0, z: 0 },
    }
}

impl Material {
    /// Scatters the incoming ray at the hit, or answers None for
    /// absorption.  The drawn sample appears as the existential witness,
    /// so the relation holds whatever the generator produced.
    #[verifier::rlimit(100)]
    pub fn scatter(
        &self,
        r_in: &Ray,
        rec: &HitRecord,
        rng: &mut rand::rngs::StdRng,
    ) -> (res: Option<(Vec3, Ray)>)
        requires
            material_wf(*self),
            rec_ok(*rec),
            in_ray_ok(*r_in),
        ensures
            spec_scatter_rel(*self, *r_in, *rec, res),
            res matches Some(w) ==> {
                &&& 0 <= w.0.x <= SCALE && 0 <= w.0.y <= SCALE && 0 <= w.0.z <= SCALE
                &&& w.1.origin == rec.p
                &&& w.1.time == r_in.time
                &&& bounded_vec(w.1.direction, 0x2_0000_0000)
            },
    {
        match self {
            Material::Lambertian(l) => {
                let s = random_in_unit_sphere(rng);
                let target = rec.p.add(rec.normal).add(s);
                let attenuation = l.albedo.texture(rec.u, rec.v, &rec.p);
                let scattered = Ray::new(rec.p, target.sub(rec.p), r_in.time);
                let res = Some((attenuation, scattered));
                proof {
                    reveal(spec_scatter_rel);
                    assert(spec_in_ball(s) && res == spec_lambertian(*l, *r_in, *rec, s));
                    assert(0 <= attenuation.x <= SCALE);
                    assert(scattered.origin == rec.p);
                    assert(scattered.time == r_in.time);
                    assert(bounded_vec(scattered.direction, 0x2_0000_0000));
                }
                res
            },
            Material::Metal(m) => {
                let s = random_in_unit_sphere(rng);
                proof {
                    lemma_sq_len_nonneg(r_in.direction);
                    lemma_fmul_abs(
                        r_in.direction.x as int,
                        r_in.direction.x as int,
                        0x1000_0000,
                        0x1000_0000,
                    );
                    lemma_fmul_abs(
                        r_in.direction.y as int,
                        r_in.direction.y as int,
                        0x1000_0000,
                        0x1000_0000,
                    );
                    lemma_fmul_abs(
                        r_in.direction.z as int,
                        r_in.direction.z as int,
                        0x1000_0000,
                        0x1000_0000,
                    );
                }
                let sq = r_in.direction.squared_length();
                if sq == 0 {
                    let res: Option<(Vec3, Ray)> = None;
                    proof {
                        reveal(spec_scatter_rel);
                        assert(spec_in_ball(s) && res == spec_metal(*m, *r_in, *rec, s));
                    }
                    return res;
                }
                let uv = r_in.direction.unit_vector();
                let reflected = reflect(&uv, &rec.normal);
                proof {
                    lemma_fmul_abs(s.x as int, m.fuzz as int, 65536, 65536);
                    lemma_fmul_abs(s.y as int, m.fuzz as int, 65536, 65536);
                    lemma_fmul_abs(s.z as int, m.fuzz as int, 65536, 65536);
                    lemma_fmul_abs(uv.x as int, rec.normal.x as int, 131072, 131072);
                    lemma_fmul_abs(uv.y as int, rec.normal.y as int, 131072, 131072);
                    lemma_fmul_abs(uv.z as int, rec.normal.z as int, 131072, 131072);
                    lemma_fmul_abs(
                        rec.normal.x as int,
                        2 * spec_dot(uv, rec.normal),
                        131072,
                        1572864,
                    );
                    lemma_fmul_abs(
                        rec.normal.y as int,
                        2 * spec_dot(uv, rec.normal),
                        131072,
                        1572864,
                    );
                    lemma_fmul_abs(
                        rec.normal.z as int,
                        2 * spec_dot(uv, rec.normal),
                        131072,
                        1572864,
                    );
                    assert(bounded_vec(reflected, 3342336));
                }
                let direction = reflected.add(s.scale(m.fuzz));
                proof {
                    lemma_fmul_abs(direction.x as int, rec.normal.x as int, 3407872, 131072);
                    lemma_fmul_abs(direction.y as int, rec.normal.y as int, 3407872, 131072);
                    lemma_fmul_abs(direction.z as int, rec.normal.z as int, 3407872, 131072);
                }
                let d = dot(&direction, &rec.normal);
                let res: Option<(Vec3, Ray)> = if d > 0 {
                    Some((m.albedo, Ray::new(rec.p, direction, r_in.time)))
                } else {
                    None
                };
                proof {
                    reveal(spec_scatter_rel);
                    assert(spec_in_ball(s) && res == spec_metal(*m, *r_in, *rec, s));
                }
                res
            },
            Material::Dielectric(d) => {
                proof {
                    lemma_sq_len_nonneg(r_in.direction);
                    lemma_fmul_abs(
                        r_in.direction.x as int,
                        r_in.direction.x as int,
                        0x1000_0000,
                        0x1000_0000,
                    );
                    lemma_fmul_abs(
                        r_in.direction.y as int,
                        r_in.direction.y as int,
                        0x1000_0000,
                        0x1000_0000,
                    );
                    lemma_fmul_abs(
                        r_in.direction.z as int,
                        r_in.direction.z as int,
                        0x1000_0000,
                        0x1000_0000,
                    );
                    lemma_fmul_abs(
                        r_in.direction.x as int,
                        rec.normal.x as int,
                        0x1000_0000,
                        131072,
                    );
                    lemma_fmul_abs(
                        r_in.direction.y as int,
                        rec.normal.y as int,
                        0x1000_0000,
                        131072,
                    );
                    lemma_fmul_abs(
                        r_in.direction.z as int,
                        rec.normal.z as int,
                        0x1000_0000,
                        131072,
                    );
                }
                let chance = rng_below(rng, 65536) as i64;
                let sq = r_in.direction.squared_length();
                if sq == 0 {
                    let res: Option<(Vec3, Ray)> = None;
                    proof {
                        reveal(spec_scatter_rel);
                        assert(0 <= chance < SCALE && res == spec_dielectric(
                            *d,
                            *r_in,
                            *rec,
                            chance as int,
                        ));
                    }
                    return res;
                }
                let dn = dot(&r_in.direction, &rec.normal);
                let len = r_in.direction.length();
                proof {
                    crate::fixed::lemma_sqrt_exists(spec_sq_len(r_in.direction) * 65536);
                    assert(len >= 1) by (nonlinear_arith)
                        requires
                            crate::fixed::is_sqrt(
                                spec_sq_len(r_in.direction) * 65536,
                                len as int,
                            ),
                            spec_sq_len(r_in.direction) >= 1,
                    {
                    }
                    crate::fixed::lemma_tdiv_bound(
                        fmul(d.ref_idx as int, dn as int) * 65536,
                        len as int,
                    );
                    crate::fixed::lemma_tdiv_bound((-dn) as int * 65536, len as int);
                    lemma_fmul_abs(d.ref_idx as int, dn as int, 524288, 0x6000_0000);
                }
                let raw_cosine = if dn > 0 {
                    div_fx(mul_fx(d.ref_idx, dn), len)
                } else {
                    div_fx(-dn, len)
                };
                let cosine = clamp_fx(raw_cosine, 2 * SCALE);
                let outward = if dn > 0 {
                    rec.normal.neg()
                } else {
                    rec.normal
                };
                let ni_over_nt = if dn > 0 {
                    d.ref_idx
                } else {
                    proof {
                        crate::fixed::lemma_tdiv_bound(65536int * 65536, d.ref_idx as int);
                        assert(abs_i(65536int * 65536) / abs_i(d.ref_idx as int) <= 524288)
                            by (nonlinear_arith)
                            requires
                                d.ref_idx >= 8192,
                        {
                        }
                        assert(abs_i(65536int * 65536) / abs_i(d.ref_idx as int) >= 1)
                            by (nonlinear_arith)
                            requires
                                8192 <= d.ref_idx <= 524288,
                        {
                        }
                    }
                    div_fx(SCALE, d.ref_idx)
                };
                proof {
                    lemma_fmul_abs(
                        rec.normal.x as int,
                        2 * spec_dot(r_in.direction, rec.normal),
                        131072,
                        0xC000_0000,
                    );
                    lemma_fmul_abs(
                        rec.normal.y as int,
                        2 * spec_dot(r_in.direction, rec.normal),
                        131072,
                        0xC000_0000,
                    );
                    lemma_fmul_abs(
                        rec.normal.z as int,
                        2 * spec_dot(r_in.direction, rec.normal),
                        131072,
                        0xC000_0000,
                    );
                }
                let reflected = reflect(&r_in.direction, &rec.normal);
                let refracted = refract(&r_in.direction, &outward, ni_over_nt);
                let white = Vec3::new(SCALE, SCALE, SCALE);
                let res: Option<(Vec3, Ray)> = match refracted {
                    Some(refr) => {
                        let prob = schlick(cosine, d.ref_idx);
                        if ni_over_nt != SCALE && chance < prob {
                            Some((white, Ray::new(rec.p, reflected, r_in.time)))
                        } else {
                            Some((white, Ray::new(rec.p, refr, r_in.time)))
                        }
                    },
                    None => Some((white, Ray::new(rec.p, reflected, r_in.time))),
                };
                proof {
                    reveal(spec_scatter_rel);
                    assert(0 <= chance < SCALE && res == spec_dielectric(
                        *d,
                        *r_in,
                        *rec,
                        chance as int,
                    ));
                }
                res
            },
            Material::DiffuseLight(_) => {
                proof {
                    reveal(spec_scatter_rel);
                }
                None
            },
            Material::Isotropic(i) => {
                let s = random_in_unit_sphere(rng);
                let attenuation = i.albedo.texture(rec.u, rec.v, &rec.p);
                let res = Some((attenuation, Ray::new(rec.p, s, r_in.time)));
                proof {
                    reveal(spec_scatter_rel);
                    assert(spec_in_ball(s) && res == spec_isotropic(*i, *r_in, *rec, s));
                }
                res
            },
        }
    }

    /// The emitted radiance at surface coordinates (u, v) and point p.
    pub fn emitted(&self, u: i64, v: i64, p: &Vec3) -> (r: Vec3)
        requires
            material_wf(*self),
            abs_i(u as int) <= 0x4_0000_0000_0000,
            abs_i(v as int) <= 0x4_0000_0000_0000,
            bounded_vec(*p, 0x4_0000_0000_0000),
        ensures
            r == spec_emitted(*self, u as int, v as int, *p),
            bounded_vec(r, 16 * (SCALE as int)),
            0 <= r.x && 0 <= r.y && 0 <= r.z,
    {
        match self {
            Material::DiffuseLight(dl) => dl.emit.texture(u, v, p),
            _ => Vec3::new(0, 0, 0),
        }
    }
}

} // verus!
