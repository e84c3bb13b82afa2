//! The path-tracing integrator: recursive radiance estimation with a
//! fixed depth cap, per-pixel multi-sample averaging, gamma correction
//! and quantization to bytes.

use vstd::prelude::*;
use crate::fixed::{abs_i, fmul, tdiv, sclamp, mul_fx, div_fx, div_floor, sqrt_fx, clamp_fx, SCALE};
use crate::vec3::{Vec3, vnew, spec_add, spec_mul_comp, spec_sq_len, spec_unit, bounded_vec, lemma_sq_len_nonneg};
use crate::ray::{Ray, lemma_fmul_abs};
use crate::rng::{rng_from_seed, rng_below};
use crate::camera::{Camera, camera_wf, spec_get_ray};
use crate::hittable::{Hittable, HitableList, HitRecord, hittable_wf, ray_fits, ray_env, p_bound, time_ok, deterministic, spec_list_hit, lemma_fmul_unit, GEOM_LIMIT, SCENE_ROOM, T_FAR};
use crate::material::{Material, material_wf, spec_emitted, spec_scatter_rel};

verus! {

/// The recursion cap of the integrator.
pub const MAX_DEPTH: u32 = 50;

/// The near-side epsilon of every scene query (about 1e-3), keeping a
/// scattered ray from striking its own surface again.
pub const T_ACNE: i64 = 66;

/// What the integrator answers when the scene is missed.
pub enum Background {
    Black,
    Sky,
}

/// The gradient sky: white at the horizon blending to light blue
/// upward, as a function of the unit direction's height.
pub open spec fn spec_background(bg: Background, r: Ray) -> Vec3 {
    match bg {
        Background::Black => Vec3 { x: 0, y: 0, z: 0 },
        Background::Sky => {
            if spec_sq_len(r.direction) == 0 {
                Vec3 { x: 0, y: 0, z: 0 }
            } else {
                let ud = spec_unit(r.direction);
                let t = (sclamp(ud.y as int, SCALE as int) + SCALE as int) / 2;
                Vec3 {
                    x: ((SCALE as int - t) + fmul(t, 32768)) as i64,
                    y: ((SCALE as int - t) + fmul(t, 45875)) as i64,
                    z: ((SCALE as int - t) + fmul(t, 65536)) as i64,
                }
            }
        },
    }
}

/// The background color of a missed ray.
pub fn background_color(bg: &Background, r: &Ray) -> (c: Vec3)
    requires
        bounded_vec(r.direction, SCENE_ROOM as int),
    ensures
        c == spec_background(*bg, *r),
        0 <= c.x <= 2 * SCALE,
        0 <= c.y <= 2 * SCALE,
        0 <= c.z <= 2 * SCALE,
{
    match bg {
        Background::Black => Vec3::new(0, 0, 0),
        Background::Sky => {
            proof {
                lemma_sq_len_nonneg(r.direction);
                lemma_fmul_abs(
                    r.direction.x as int,
                    r.direction.x as int,
                    SCENE_ROOM as int,
                    SCENE_ROOM as int,
                );
                lemma_fmul_abs(
                    r.direction.y as int,
                    r.direction.y as int,
                    SCENE_ROOM as int,
                    SCENE_ROOM as int,
                );
                lemma_fmul_abs(
                    r.direction.z as int,
                    r.direction.z as int,
                    SCENE_ROOM as int,
                    SCENE_ROOM as int,
                );
            }
            let sq = r.direction.squared_length();
            if sq == 0 {
                Vec3::new(0, 0, 0)
            } else {
                let ud = r.direction.unit_vector();
                let t = div_floor(clamp_fx(ud.y, SCALE) + SCALE, 2);
                proof {
                    lemma_fmul_unit(t as int, 32768int);
                    lemma_fmul_unit(t as int, 45875int);
                    lemma_fmul_unit(t as int, 65536int);
                    assert(fmul(t as int, 32768) >= 0 && fmul(t as int, 45875) >= 0 && fmul(
                        t as int,
                        65536,
                    ) >= 0) by (nonlinear_arith)
                        requires
                            t >= 0,
                            fmul(t as int, 32768) == tdiv(t as int * 32768, 65536),
                            fmul(t as int, 45875) == tdiv(t as int * 45875, 65536),
                            fmul(t as int, 65536) == tdiv(t as int * 65536, 65536),
                    {
                    }
                }
                Vec3::new(
                    (SCALE - t) + mul_fx(t, 32768),
                    (SCALE - t) + mul_fx(t, 45875),
                    (SCALE - t) + mul_fx(t, 65536),
                )
            }
        },
    }
}

/// One admissible answer of the nearest-hit query: for a deterministic
/// world the answer is the list's own hit relation; stochastic media
/// may answer any sanity-bounded record.
pub open spec fn hit_admissible(
    world: HitableList,
    r: Ray,
    t_lo: int,
    t_hi: int,
    h: Option<HitRecord>,
) -> bool {
    &&& (deterministic(Hittable::List(world)) ==> h == spec_list_hit(
        world,
        world.entities@.len() as int,
        r,
        t_lo,
        t_hi,
    ))
    &&& (h matches Some(rec) ==> t_lo <= rec.t <= t_hi && 0 <= rec.u <= SCALE && 0 <= rec.v
        <= SCALE && bounded_vec(rec.normal, 2 * (SCALE as int)))
}

/// One halving of every component, toward negative infinity.
pub open spec fn spec_halved(d: Vec3) -> Vec3 {
    vnew(d.x as int / 2, d.y as int / 2, d.z as int / 2)
}

/// The range reduction the integrator applies to a scattered direction:
/// halve until within the scene room, giving up after the budget.
pub open spec fn spec_reduce_dir(d: Vec3, budget: nat) -> Vec3
    decreases budget,
{
    if bounded_vec(d, SCENE_ROOM as int) || budget == 0 {
        d
    } else {
        spec_reduce_dir(spec_halved(d), (budget - 1) as nat)
    }
}

/// One recorded bounce of the integrator: the hit answer the traversal
/// gave, the scatter answer the material gave, and the radiance
/// credited at this level.
pub struct ColorStep {
    pub h: Option<HitRecord>,
    pub sc: Option<(Vec3, Ray)>,
    pub c: Vec3,
}

/// The integrator's recurrence over its recorded bounces: a miss pays
/// the background; the defensive guards pay black; the fuel's end,
/// absorption, or an unreducible direction pay the emission alone; a
/// scatter pays emission plus the attenuated radiance of the next
/// bounce, whose own trace must be admissible in turn.
#[verifier::opaque]
pub open spec fn color_trace_ok(
    world: HitableList,
    materials: Seq<Material>,
    bg: Background,
    r: Ray,
    fuel: nat,
    steps: Seq<ColorStep>,
    c: Vec3,
) -> bool
    decreases steps.len(),
{
    &&& steps.len() >= 1
    &&& steps[0].c == c
    &&& hit_admissible(world, r, T_ACNE as int, T_FAR as int, steps[0].h)
    &&& match steps[0].h {
        None => c == spec_background(bg, r) && steps.len() == 1,
        Some(rec) => {
            if rec.mat >= materials.len() {
                c == (Vec3 { x: 0, y: 0, z: 0 }) && steps.len() == 1
            } else if !bounded_vec(rec.p, SCENE_ROOM as int) {
                c == (Vec3 { x: 0, y: 0, z: 0 }) && steps.len() == 1
            } else {
                let em = spec_emitted(materials[rec.mat as int], rec.u as int, rec.v as int, rec.p);
                if fuel == 0 {
                    c == em && steps.len() == 1
                } else {
                    &&& spec_scatter_rel(materials[rec.mat as int], r, rec, steps[0].sc)
                    &&& match steps[0].sc {
                        None => c == em && steps.len() == 1,
                        Some(pair) => {
                            let d = spec_reduce_dir(pair.1.direction, 40);
                            if !bounded_vec(d, SCENE_ROOM as int) {
                                c == em && steps.len() == 1
                            } else {
                                &&& steps.len() >= 2
                                &&& color_trace_ok(
                                    world,
                                    materials,
                                    bg,
                                    Ray {
                                        origin: pair.1.origin,
                                        direction: d,
                                        time: pair.1.time,
                                    },
                                    (fuel - 1) as nat,
                                    steps.drop_first(),
                                    steps[1].c,
                                )
                                &&& c == spec_add(em, spec_mul_comp(pair.0, steps[1].c))
                            }
                        },
                    }
                }
            }
        },
    }
}

/// The full radiance relation: some admissible record of the bounces
/// pays this color.
pub open spec fn radiance_ok(
    world: HitableList,
    materials: Seq<Material>,
    bg: Background,
    r: Ray,
    fuel: nat,
    c: Vec3,
) -> bool {
    exists|steps: Seq<ColorStep>|
        #[trigger] color_trace_ok(world, materials, bg, r, fuel, steps, c)
}

/// A witnessed trace gives the radiance relation.
proof fn lemma_radiance_intro(
    world: HitableList,
    materials: Seq<Material>,
    bg: Background,
    r: Ray,
    fuel: nat,
    steps: Seq<ColorStep>,
    c: Vec3,
)
    requires
        color_trace_ok(world, materials, bg, r, fuel, steps, c),
    ensures
        radiance_ok(world, materials, bg, r, fuel, c),
{
}

/// The radiance carried back along the ray: emission at the nearest
/// hit plus the attenuated radiance of the scattered continuation, to
/// the depth cap; the scene-supplied background on a miss.  Defensive
/// guards drop continuations whose origin leaves the scene room, and
/// scattered directions are range-reduced by halving so that every
/// recursive ray stays within the verified bounds.
#[verifier::rlimit(100)]
#[verifier::spinoff_prover]
pub fn color(
    r: &Ray,
    world: &HitableList,
    materials: &Vec<Material>,
    bg: &Background,
    depth: u32,
    rng: &mut rand::rngs::StdRng,
) -> (c: Vec3)
    requires
        hittable_wf(Hittable::List(*world)),
        ray_fits(Hittable::List(*world), SCENE_ROOM as int),
        p_bound(Hittable::List(*world), SCENE_ROOM as int) <= 0x1000_0000_0000_0000,
        bounded_vec(r.origin, SCENE_ROOM as int),
        bounded_vec(r.direction, SCENE_ROOM as int),
        abs_i(r.time as int) <= GEOM_LIMIT as int,
        time_ok(Hittable::List(*world), r.time as int),
        forall|i: int|
            0 <= i < materials@.len() ==> material_wf(#[trigger] materials@[i]),
        depth <= MAX_DEPTH,
    ensures
        0 <= c.x <= (MAX_DEPTH - depth + 1) * 0x200_0000,
        0 <= c.y <= (MAX_DEPTH - depth + 1) * 0x200_0000,
        0 <= c.z <= (MAX_DEPTH - depth + 1) * 0x200_0000,
        radiance_ok(*world, materials@, *bg, *r, (MAX_DEPTH - depth) as nat, c),
    decreases MAX_DEPTH - depth,
{
    let ghost fuel = (MAX_DEPTH - depth) as nat;
    proof {
        assert(ray_env(Hittable::List(*world), *r, SCENE_ROOM as int));
    }
    let hres = world.hit(r, T_ACNE, T_FAR, rng);
    proof {
        assert(hit_admissible(*world, *r, T_ACNE as int, T_FAR as int, hres));
    }
    match hres {
        None => {
            let c = background_color(bg, r);
            proof {
                let ghost steps = seq![ColorStep { h: hres, sc: None, c }];
                assert(color_trace_ok(*world, materials@, *bg, *r, fuel, steps, c)) by {
                    reveal(color_trace_ok);
                }
                lemma_radiance_intro(*world, materials@, *bg, *r, fuel, steps, c);
                assert(0 <= c.x <= 0x660_0000);
                assert(0 <= c.y <= 0x660_0000);
                assert(0 <= c.z <= 0x660_0000);
                assert(c.x <= (MAX_DEPTH - depth + 1) * 0x200_0000);
                assert(c.y <= (MAX_DEPTH - depth + 1) * 0x200_0000);
                assert(c.z <= (MAX_DEPTH - depth + 1) * 0x200_0000);
            }
            return c;
        },
        Some(rec) => {
            if rec.mat >= materials.len() {
                let c = Vec3::new(0, 0, 0);
                proof {
                    let ghost steps = seq![ColorStep { h: hres, sc: None, c }];
                    assert(color_trace_ok(*world, materials@, *bg, *r, fuel, steps, c)) by {
                        reveal(color_trace_ok);
                    }
                    lemma_radiance_intro(*world, materials@, *bg, *r, fuel, steps, c);
                }
                return c;
            }
            if rec.p.x < -SCENE_ROOM || rec.p.x > SCENE_ROOM || rec.p.y < -SCENE_ROOM || rec.p.y
                > SCENE_ROOM || rec.p.z < -SCENE_ROOM || rec.p.z > SCENE_ROOM {
                let c = Vec3::new(0, 0, 0);
                proof {
                    assert(!bounded_vec(rec.p, SCENE_ROOM as int));
                    let ghost steps = seq![ColorStep { h: hres, sc: None, c }];
                    assert(color_trace_ok(*world, materials@, *bg, *r, fuel, steps, c)) by {
                        reveal(color_trace_ok);
                    }
                    lemma_radiance_intro(*world, materials@, *bg, *r, fuel, steps, c);
                }
                return c;
            }
            let emitted = (&materials[rec.mat]).emitted(rec.u, rec.v, &rec.p);
            if depth >= MAX_DEPTH {
                proof {
                    assert(fuel == 0);
                    let ghost steps = seq![ColorStep { h: hres, sc: None, c: emitted }];
                    assert(color_trace_ok(*world, materials@, *bg, *r, fuel, steps, emitted)) by {
                        reveal(color_trace_ok);
                    }
                    lemma_radiance_intro(*world, materials@, *bg, *r, fuel, steps, emitted);
                }
                return emitted;
            }
            let sres = (&materials[rec.mat]).scatter(r, &rec, rng);
            proof {
                assert(spec_scatter_rel(materials@[rec.mat as int], *r, rec, sres));
            }
            match sres {
                None => {
                    proof {
                        let ghost steps = seq![ColorStep { h: hres, sc: sres, c: emitted }];
                        assert(color_trace_ok(*world, materials@, *bg, *r, fuel, steps, emitted))
                            by {
                            reveal(color_trace_ok);
                        }
                        lemma_radiance_intro(*world, materials@, *bg, *r, fuel, steps, emitted);
                    }
                    emitted
                },
                Some((attenuation, scattered)) => {
                    let ghost d0 = scattered.direction;
                    let mut d = scattered.direction;
                    let mut k: u32 = 0;
                    while (d.x > SCENE_ROOM || d.x < -SCENE_ROOM || d.y > SCENE_ROOM || d.y
                        < -SCENE_ROOM || d.z > SCENE_ROOM || d.z < -SCENE_ROOM) && k < 40
                        invariant
                            bounded_vec(d, 0x2_0000_0000),
                            k <= 40,
                            spec_reduce_dir(d0, 40) == spec_reduce_dir(d, (40 - k) as nat),
                        decreases 40 - k,
                    {
                        proof {
                            assert(!bounded_vec(d, SCENE_ROOM as int));
                            assert(spec_reduce_dir(d, (40 - k) as nat) == spec_reduce_dir(
                                spec_halved(d),
                                (40 - k - 1) as nat,
                            ));
                        }
                        d = Vec3::new(div_floor(d.x, 2), div_floor(d.y, 2), div_floor(d.z, 2));
                        k = k + 1;
                    }
                    proof {
                        if bounded_vec(d, SCENE_ROOM as int) {
                            assert(spec_reduce_dir(d, (40 - k) as nat) == d);
                        } else {
                            assert(k == 40);
                            assert(spec_reduce_dir(d, 0) == d);
                        }
                        assert(spec_reduce_dir(d0, 40) == d);
                    }
                    if d.x > SCENE_ROOM || d.x < -SCENE_ROOM || d.y > SCENE_ROOM || d.y
                        < -SCENE_ROOM || d.z > SCENE_ROOM || d.z < -SCENE_ROOM {
                        proof {
                            let ghost steps = seq![ColorStep { h: hres, sc: sres, c: emitted }];
                            assert(color_trace_ok(
                                *world,
                                materials@,
                                *bg,
                                *r,
                                fuel,
                                steps,
                                emitted,
                            )) by {
                                reveal(color_trace_ok);
                            }
                            lemma_radiance_intro(
                                *world,
                                materials@,
                                *bg,
                                *r,
                                fuel,
                                steps,
                                emitted,
                            );
                        }
                        return emitted;
                    }
                    let next = Ray::new(scattered.origin, d, scattered.time);
                    let rest = color(&next, world, materials, bg, depth + 1, rng);
                    proof {
                        lemma_fmul_unit(attenuation.x as int, rest.x as int);
                        lemma_fmul_unit(attenuation.y as int, rest.y as int);
                        lemma_fmul_unit(attenuation.z as int, rest.z as int);
                        assert(fmul(attenuation.x as int, rest.x as int) >= 0 && fmul(
                            attenuation.y as int,
                            rest.y as int,
                        ) >= 0 && fmul(attenuation.z as int, rest.z as int) >= 0)
                            by (nonlinear_arith)
                            requires
                                attenuation.x >= 0 && attenuation.y >= 0 && attenuation.z >= 0,
                                rest.x >= 0 && rest.y >= 0 && rest.z >= 0,
                                fmul(attenuation.x as int, rest.x as int) == tdiv(
                                    attenuation.x as int * rest.x as int,
                                    65536,
                                ),
                                fmul(attenuation.y as int, rest.y as int) == tdiv(
                                    attenuation.y as int * rest.y as int,
                                    65536,
                                ),
                                fmul(attenuation.z as int, rest.z as int) == tdiv(
                                    attenuation.z as int * rest.z as int,
                                    65536,
                                ),
                        {
                        }
                    }
                    let c = emitted.add(attenuation.mul_comp(rest));
                    proof {
                        let ghost fuelm1 = (fuel - 1) as nat;
                        assert(radiance_ok(*world, materials@, *bg, next, fuelm1, rest));
                        let ghost ctail = choose|st: Seq<ColorStep>|
                            #[trigger] color_trace_ok(
                                *world,
                                materials@,
                                *bg,
                                next,
                                fuelm1,
                                st,
                                rest,
                            );
                        assert(color_trace_ok(*world, materials@, *bg, next, fuelm1, ctail, rest));
                        let ghost head = ColorStep { h: hres, sc: sres, c };
                        let ghost steps = seq![head] + ctail;
                        assert(steps.drop_first() =~= ctail);
                        assert(steps[0] == head);
                        assert(ctail.len() >= 1 && ctail[0].c == rest) by {
                            reveal(color_trace_ok);
                        }
                        assert(steps[1] == ctail[0]);
                        assert(next == (Ray {
                            origin: scattered.origin,
                            direction: d,
                            time: scattered.time,
                        }));
                        assert(c == spec_add(
                            spec_emitted(
                                materials@[rec.mat as int],
                                rec.u as int,
                                rec.v as int,
                                rec.p,
                            ),
                            spec_mul_comp(attenuation, rest),
                        ));
                        assert(color_trace_ok(*world, materials@, *bg, *r, fuel, steps, c)) by {
                            reveal(color_trace_ok);
                        }
                        lemma_radiance_intro(*world, materials@, *bg, *r, fuel, steps, c);
                    }
                    c
                },
            }
        },
    }
}

} // verus!

verus! {

pub struct Scene {
    pub camera: Camera,
    pub objects: HitableList,
    pub materials: Vec<Material>,
    pub background: Background,
    pub width: u32,
    pub height: u32,
    pub rays_per_pixel: u32,
    pub seed: u64,
}

/// Everything rendering needs: a sound camera, a traceable scene graph
/// whose moving geometry covers the shutter span, sound materials, and
/// workable image dimensions.
pub open spec fn scene_wf(s: Scene) -> bool {
    &&& camera_wf(s.camera)
    &&& hittable_wf(Hittable::List(s.objects))
    &&& ray_fits(Hittable::List(s.objects), SCENE_ROOM as int)
    &&& p_bound(Hittable::List(s.objects), SCENE_ROOM as int) <= 0x1000_0000_0000_0000
    &&& forall|tm: int|
        s.camera.time0 <= tm <= s.camera.time1 ==> time_ok(Hittable::List(s.objects), tm)
    &&& forall|i: int| 0 <= i < s.materials@.len() ==> material_wf(#[trigger] s.materials@[i])
    &&& 1 <= s.width <= 4096
    &&& 1 <= s.height <= 4096
    &&& 1 <= s.rays_per_pixel <= 65536
}

/// The jittered screen coordinate of pixel index p for a sub-pixel
/// draw xi, over an image extent of that many pixels.
pub open spec fn spec_screen_coord(p: int, xi: int, extent: int) -> int {
    crate::fixed::fdiv(p * (SCALE as int) + xi, extent * (SCALE as int))
}

/// One admissible radiance sample of a pixel: some jitter pair, lens
/// point and shutter fraction made the camera ray, and the sample is an
/// admissible radiance for it at full fuel.
pub open spec fn sample_ok(s: Scene, x: int, y: int, c: Vec3) -> bool {
    exists|xi: int, eta: int, dsk: Vec3, tm: int|
        0 <= xi < SCALE as int && 0 <= eta < SCALE as int && crate::material::spec_in_ball(dsk)
            && dsk.z == 0 && 0 <= tm < SCALE as int && #[trigger] radiance_ok(
            s.objects,
            s.materials@,
            s.background,
            spec_get_ray(
                s.camera,
                spec_screen_coord(x, xi, s.width as int),
                spec_screen_coord(y, eta, s.height as int),
                dsk,
                tm,
            ),
            MAX_DEPTH as nat,
            c,
        )
}

/// The componentwise sum of the first n samples.
pub open spec fn spec_color_sum(samples: Seq<Vec3>, n: int) -> (int, int, int)
    decreases n,
{
    if n <= 0 || n > samples.len() {
        (0, 0, 0)
    } else {
        let p = spec_color_sum(samples, n - 1);
        (p.0 + samples[n - 1].x, p.1 + samples[n - 1].y, p.2 + samples[n - 1].z)
    }
}

/// spec_color_sum only reads the first n entries.
proof fn lemma_color_sum_prefix(a: Seq<Vec3>, b: Seq<Vec3>, n: int)
    requires
        0 <= n <= a.len(),
        n <= b.len(),
        forall|i: int| 0 <= i < n ==> a[i] == b[i],
    ensures
        spec_color_sum(a, n) == spec_color_sum(b, n),
    decreases n,
{
    if n > 0 {
        lemma_color_sum_prefix(a, b, n - 1);
    }
}

/// One pixel's bytes, given the recorded samples: every sample is
/// admissible and the bytes are the gamma-corrected, quantized
/// componentwise mean.
pub open spec fn pixel_trace_ok(
    s: Scene,
    x: int,
    y: int,
    samples: Seq<Vec3>,
    px: (u8, u8, u8),
) -> bool {
    &&& samples.len() == s.rays_per_pixel
    &&& forall|i: int| 0 <= i < samples.len() ==> sample_ok(s, x, y, #[trigger] samples[i])
    &&& px.0 == spec_quantize(
        crate::fixed::fsqrt(
            spec_color_sum(samples, samples.len() as int).0 / (s.rays_per_pixel as int),
        ),
    )
    &&& px.1 == spec_quantize(
        crate::fixed::fsqrt(
            spec_color_sum(samples, samples.len() as int).1 / (s.rays_per_pixel as int),
        ),
    )
    &&& px.2 == spec_quantize(
        crate::fixed::fsqrt(
            spec_color_sum(samples, samples.len() as int).2 / (s.rays_per_pixel as int),
        ),
    )
}

/// The pixel relation: bytes witnessed by some admissible sample set.
pub open spec fn pixel_rel(s: Scene, x: int, y: int, px: (u8, u8, u8)) -> bool {
    exists|samples: Seq<Vec3>| #[trigger] pixel_trace_ok(s, x, y, samples, px)
}

/// A witnessed sample set gives the pixel relation.
proof fn lemma_pixel_rel_intro(s: Scene, x: int, y: int, samples: Seq<Vec3>, px: (u8, u8, u8))
    requires
        pixel_trace_ok(s, x, y, samples, px),
    ensures
        pixel_rel(s, x, y, px),
{
}

/// One raster row: for every column the three bytes at its slot form an
/// admissible pixel, packed R, G, B.
pub open spec fn row_ok(s: Scene, y: int, row: Seq<u8>) -> bool {
    &&& row.len() == 3 * s.width
    &&& forall|xx: int|
        0 <= xx < s.width ==> #[trigger] pixel_rel(
            s,
            xx,
            y,
            (row[3 * xx], row[3 * xx + 1], row[3 * xx + 2]),
        )
}

/// The rows of the image, concatenated in emission order.
pub open spec fn concat_rows(rows: Seq<Seq<u8>>, n: int) -> Seq<u8>
    decreases n,
{
    if n <= 0 || n > rows.len() {
        Seq::empty()
    } else {
        concat_rows(rows, n - 1) + rows[n - 1]
    }
}

/// concat_rows only reads the first n entries.
proof fn lemma_concat_rows_prefix(a: Seq<Seq<u8>>, b: Seq<Seq<u8>>, n: int)
    requires
        0 <= n <= a.len(),
        n <= b.len(),
        forall|i: int| 0 <= i < n ==> a[i] == b[i],
    ensures
        concat_rows(a, n) == concat_rows(b, n),
    decreases n,
{
    if n > 0 {
        lemma_concat_rows_prefix(a, b, n - 1);
    }
}

/// The whole raster: one admissible row per scanline, emitted from the
/// top of the frame (largest y) down, concatenated in order.
pub open spec fn render_layout_ok(s: Scene, rows: Seq<Seq<u8>>, out: Seq<u8>) -> bool {
    &&& rows.len() == s.height
    &&& forall|r: int|
        0 <= r < rows.len() ==> row_ok(s, s.height - 1 - r, #[trigger] rows[r])
    &&& out == concat_rows(rows, rows.len() as int)
}

/// A byte channel from an averaged, gamma-corrected radiance value.
pub open spec fn spec_quantize(c: int) -> int {
    let scaled = (c * 16776867) / 0x1_0000_0000;
    if scaled > 255 {
        255
    } else {
        scaled
    }
}

/// Gamma-2 correction and 8-bit quantization of one nonnegative
/// averaged channel.
fn quantize(c: i64) -> (b: u8)
    requires
        0 <= c <= 0x6600_0000,
    ensures
        b == spec_quantize(crate::fixed::fsqrt(c as int)),
{
    let g = sqrt_fx(c);
    proof {
        assert(g * g <= c * 65536);
        assert(g <= 16777216) by (nonlinear_arith)
            requires
                0 <= g,
                g * g <= 0x6600_0000 * 65536,
        {
        }
    }
    let scaled = (g * 16776867) / 0x1_0000_0000;
    if scaled > 255 {
        255u8
    } else {
        scaled as u8
    }
}

impl Scene {
    pub fn new(
        camera: Camera,
        objects: HitableList,
        materials: Vec<Material>,
        background: Background,
        width: u32,
        height: u32,
        rays_per_pixel: u32,
        seed: u64,
    ) -> (s: Scene)
        ensures
            s.camera == camera,
            s.objects == objects,
            s.materials == materials,
            s.background == background,
            s.width == width,
            s.height == height,
            s.rays_per_pixel == rays_per_pixel,
            s.seed == seed,
    {
        Scene { camera, objects, materials, background, width, height, rays_per_pixel, seed }
    }

    /// The three bytes of one pixel: the average of rays_per_pixel
    /// radiance samples with jittered screen coordinates, gamma
    /// corrected and quantized.  The generator is seeded from the pixel
    /// coordinates and the scene seed, so pixels are independent and
    /// the image is reproducible.
    pub fn render_pixel(&self, x: u32, y: u32) -> (px: (u8, u8, u8))
        requires
            scene_wf(*self),
            x < self.width,
            y < self.height,
        ensures
            pixel_rel(*self, x as int, y as int, px),
    {
        let mut rng = rng_from_seed(
            self.seed ^ (((y as u64) * 4096 + (x as u64)).wrapping_mul(0x9E37_79B9_7F4A_7C15)),
        );
        let mut col = Vec3::new(0, 0, 0);
        let mut sample: u32 = 0;
        let ghost mut samples: Seq<Vec3> = Seq::empty();
        let ns = self.rays_per_pixel;
        while sample < ns
            invariant
                scene_wf(*self),
                x < self.width,
                y < self.height,
                ns == self.rays_per_pixel,
                sample <= ns,
                0 <= col.x <= sample * 0x6600_0000,
                0 <= col.y <= sample * 0x6600_0000,
                0 <= col.z <= sample * 0x6600_0000,
                samples.len() == sample,
                forall|i: int|
                    0 <= i < samples.len() ==> sample_ok(
                        *self,
                        x as int,
                        y as int,
                        #[trigger] samples[i],
                    ),
                spec_color_sum(samples, samples.len() as int) == (
                    col.x as int,
                    col.y as int,
                    col.z as int,
                ),
            decreases ns - sample,
        {
            let xi = rng_below(&mut rng, 65536) as i64;
            let eta = rng_below(&mut rng, 65536) as i64;
            proof {
                assert((x as int) * 65536 + xi < (self.width as int) * 65536) by (nonlinear_arith)
                    requires
                        x < self.width,
                        0 <= xi < 65536,
                {
                }
                assert((y as int) * 65536 + eta < (self.height as int) * 65536)
                    by (nonlinear_arith)
                    requires
                        y < self.height,
                        0 <= eta < 65536,
                {
                }
                crate::hittable::lemma_frac_unit_pub(
                    (x as int) * 65536 + xi,
                    (self.width as int) * 65536,
                );
                crate::hittable::lemma_frac_unit_pub(
                    (y as int) * 65536 + eta,
                    (self.height as int) * 65536,
                );
            }
            let u = div_fx((x as i64) * 65536 + xi, (self.width as i64) * 65536);
            let v = div_fx((y as i64) * 65536 + eta, (self.height as i64) * 65536);
            let ray = self.camera.get_ray(u, v, &mut rng);
            proof {
                assert(MAX_DEPTH == 50);
                assert((MAX_DEPTH - 0 + 1) * 0x200_0000 == 0x6600_0000);
            }
            let sample_color = color(
                &ray,
                &self.objects,
                &self.materials,
                &self.background,
                0,
                &mut rng,
            );
            let ghost prev_col = col;
            let ghost prev_samples = samples;
            col = col.add(sample_color);
            proof {
                assert((sample as int) * 0x6600_0000 + 0x6600_0000 <= (sample as int + 1)
                    * 0x6600_0000) by (nonlinear_arith);
                assert(0 <= sample_color.x <= 0x6600_0000);
                assert(0 <= sample_color.y <= 0x6600_0000);
                assert(0 <= sample_color.z <= 0x6600_0000);
                assert(col.x == prev_col.x + sample_color.x);
                assert(col.y == prev_col.y + sample_color.y);
                assert(col.z == prev_col.z + sample_color.z);
                assert(radiance_ok(
                    self.objects,
                    self.materials@,
                    self.background,
                    ray,
                    (MAX_DEPTH - 0) as nat,
                    sample_color,
                ));
                let (dw, tw) = choose|dd: Vec3, tt: int|
                    crate::material::spec_in_ball(dd) && dd.z == 0 && 0 <= tt < SCALE as int && ray
                        == #[trigger] spec_get_ray(self.camera, u as int, v as int, dd, tt);
                assert(u as int == spec_screen_coord(x as int, xi as int, self.width as int));
                assert(v as int == spec_screen_coord(y as int, eta as int, self.height as int));
                assert(radiance_ok(
                    self.objects,
                    self.materials@,
                    self.background,
                    spec_get_ray(
                        self.camera,
                        spec_screen_coord(x as int, xi as int, self.width as int),
                        spec_screen_coord(y as int, eta as int, self.height as int),
                        dw,
                        tw,
                    ),
                    MAX_DEPTH as nat,
                    sample_color,
                ));
                assert(sample_ok(*self, x as int, y as int, sample_color));
                samples = prev_samples.push(sample_color);
                lemma_color_sum_prefix(prev_samples, samples, prev_samples.len() as int);
                assert(samples[samples.len() - 1] == sample_color);
                assert(spec_color_sum(samples, samples.len() as int) == (
                    col.x as int,
                    col.y as int,
                    col.z as int,
                ));
            }
            sample = sample + 1;
        }
        proof {
            lemma_avg_bound(col.x as int, ns as int);
            lemma_avg_bound(col.y as int, ns as int);
            lemma_avg_bound(col.z as int, ns as int);
        }
        let cr = div_floor(col.x, ns as i64);
        let cg = div_floor(col.y, ns as i64);
        let cb = div_floor(col.z, ns as i64);
        let px = (quantize(cr), quantize(cg), quantize(cb));
        proof {
            assert(pixel_trace_ok(*self, x as int, y as int, samples, px));
            lemma_pixel_rel_intro(*self, x as int, y as int, samples, px);
        }
        px
    }

    /// One raster row of the image, left to right, each pixel's bytes
    /// packed R, G, B.
    pub fn render_row(&self, y: u32) -> (row: Vec<u8>)
        requires
            scene_wf(*self),
            y < self.height,
        ensures
            row@.len() == 3 * self.width,
            row_ok(*self, y as int, row@),
    {
        let mut row: Vec<u8> = Vec::new();
        let mut x: u32 = 0;
        while x < self.width
            invariant
                scene_wf(*self),
                y < self.height,
                x <= self.width,
                row@.len() == 3 * x,
                forall|xx: int|
                    0 <= xx < x ==> #[trigger] pixel_rel(
                        *self,
                        xx,
                        y as int,
                        (row@[3 * xx], row@[3 * xx + 1], row@[3 * xx + 2]),
                    ),
            decreases self.width - x,
        {
            let ghost prev_row = row@;
            let px = self.render_pixel(x, y);
            row.push(px.0);
            row.push(px.1);
            row.push(px.2);
            proof {
                assert(row@[3 * (x as int)] == px.0);
                assert(row@[3 * (x as int) + 1] == px.1);
                assert(row@[3 * (x as int) + 2] == px.2);
                assert forall|xx: int|
                    0 <= xx < x + 1 implies #[trigger] pixel_rel(
                    *self,
                    xx,
                    y as int,
                    (row@[3 * xx], row@[3 * xx + 1], row@[3 * xx + 2]),
                ) by {
                    if xx < x {
                        assert(0 <= 3 * xx && 3 * xx + 2 < prev_row.len() as int)
                            by (nonlinear_arith)
                            requires
                                0 <= xx < x as int,
                                prev_row.len() == 3 * (x as int),
                        {
                        }
                        assert(row@[3 * xx] == prev_row[3 * xx]);
                        assert(row@[3 * xx + 1] == prev_row[3 * xx + 1]);
                        assert(row@[3 * xx + 2] == prev_row[3 * xx + 2]);
                        assert((row@[3 * xx], row@[3 * xx + 1], row@[3 * xx + 2]) == (
                            prev_row[3 * xx],
                            prev_row[3 * xx + 1],
                            prev_row[3 * xx + 2],
                        ));
                    } else {
                        assert((row@[3 * xx], row@[3 * xx + 1], row@[3 * xx + 2]) == px);
                    }
                }
            }
            x = x + 1;
        }
        row
    }

    /// The full image: one admissible row per scanline, emitted from the
    /// top of the frame (largest y) down, three bytes per pixel.
    pub fn render(&self) -> (out: Vec<u8>)
        requires
            scene_wf(*self),
        ensures
            out@.len() == 3 * self.width * self.height,
            exists|rows: Seq<Seq<u8>>| #[trigger] render_layout_ok(*self, rows, out@),
    {
        let mut out: Vec<u8> = Vec::new();
        let ghost mut rows: Seq<Seq<u8>> = Seq::empty();
        let mut done: u32 = 0;
        while done < self.height
            invariant
                scene_wf(*self),
                done <= self.height,
                out@.len() == 3 * self.width * done,
                rows.len() == done,
                forall|r: int|
                    0 <= r < rows.len() ==> row_ok(
                        *self,
                        self.height - 1 - r,
                        #[trigger] rows[r],
                    ),
                out@ == concat_rows(rows, rows.len() as int),
            decreases self.height - done,
        {
            let y = self.height - 1 - done;
            let mut row = self.render_row(y);
            let ghost prev_rows = rows;
            let ghost row_view = row@;
            out.append(&mut row);
            done = done + 1;
            proof {
                assert(3 * (self.width as int) * (done as int) == 3 * (self.width as int) * (
                done as int - 1) + 3 * (self.width as int)) by (nonlinear_arith);
                rows = prev_rows.push(row_view);
                lemma_concat_rows_prefix(prev_rows, rows, prev_rows.len() as int);
                assert(rows[rows.len() - 1] == row_view);
                assert(concat_rows(rows, rows.len() as int) == concat_rows(
                    prev_rows,
                    prev_rows.len() as int,
                ) + row_view);
                assert(row_ok(*self, y as int, row_view));
                assert(y as int == self.height - 1 - (rows.len() - 1));
            }
        }
        proof {
            assert(3 * (self.width as int) * (self.height as int) == 3 * (self.width as int) * (
            self.height as int)) by (nonlinear_arith);
            assert(render_layout_ok(*self, rows, out@));
        }
        out
    }
}

/// The average of a bounded nonnegative accumulation stays bounded.
proof fn lemma_avg_bound(total: int, ns: int)
    requires
        1 <= ns,
        0 <= total <= ns * 0x6600_0000,
    ensures
        0 <= total / ns <= 0x6600_0000,
        total / ns <= total,
{
    assert(0 <= total / ns <= 0x6600_0000) by (nonlinear_arith)
        requires
            1 <= ns,
            0 <= total <= ns * 0x6600_0000,
    {
    }
    assert(total / ns <= total) by (nonlinear_arith)
        requires
            1 <= ns,
            0 <= total,
    {
    }
}

} // verus!
