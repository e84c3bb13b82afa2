//! Textures: a color as a function of the surface coordinates (u, v) and
//! the hit point.  A closed enum of texture kinds: a scene graph built
//! once and then only read needs no open extension.

use vstd::prelude::*;
use crate::fixed::{abs_i, fmul, fdiv, tdiv, sclamp, mul_fx, div_fx, div_floor, clamp_fx, min_fx, max_fx, SCALE};
use crate::vec3::{Vec3, bounded_vec};
use crate::perlin::{Perlin, perlin_wf, spec_turb};

verus! {

/// Pi in fixed point, the period of the checker sign pattern.
pub const PI_FX: i64 = 205887;

/// Colors and coordinates handled by textures stay below this bound.
pub const TEX_COORD_LIMIT: i64 = 0x4_0000_0000_0000;


pub struct ConstantTexture {
    pub color: Vec3,
}


pub struct CheckerTexture {
    pub odd: Texture,
    pub even: Texture,
}


pub struct ImageTexture {
    pub data: Vec<u8>,
    pub nx: usize,
    pub ny: usize,
}


pub struct NoiseTexture {
    pub noise: Perlin,
    pub scale: i64,
}

pub enum Texture {
    Constant(ConstantTexture),
    Checker(Box<CheckerTexture>),
    Image(ImageTexture),
    Noise(Box<NoiseTexture>),
}

impl NoiseTexture {
    pub fn new(noise: Perlin, scale: i64) -> (r: Self)
        ensures
            r.noise == noise && r.scale == scale,
    {
        NoiseTexture { noise, scale }
    }
}

/// The sine approximation used by the marble pattern: range reduction
/// to one period and the Bhaskara rational approximation on each half,
/// clamped into [-1, 1].
pub open spec fn spec_sin(theta: int) -> int {
    let m = theta % 411775;
    if m <= 205887 {
        spec_sin_half(m)
    } else {
        -spec_sin_half(m - 205887)
    }
}

/// The Bhaskara approximation of sin on [0, pi].
pub open spec fn spec_sin_half(x: int) -> int {
    let q = fmul(x, 205887 - x);
    let c = fdiv(16 * q, 5 * fmul(205887, 205887) - 4 * q);
    sclamp(c, SCALE as int)
}

/// Executable sine, matching the approximation exactly.
fn sin_fx(theta: i64) -> (r: i64)
    requires
        theta > i64::MIN + 411775,
    ensures
        r == spec_sin(theta as int),
        abs_i(r as int) <= SCALE as int,
{
    let m = theta - 411775 * div_floor(theta, 411775);
    if m <= 205887 {
        sin_half(m)
    } else {
        -sin_half(m - 205887)
    }
}

fn sin_half(x: i64) -> (r: i64)
    requires
        0 <= x <= 205888,
    ensures
        r == spec_sin_half(x as int),
        abs_i(r as int) <= SCALE as int,
{
    proof {
        crate::fixed::lemma_mul_bound(x as int, 205887 - x as int, 205888, 205888);
        crate::fixed::lemma_tdiv_bound(x as int * (205887 - x as int), 65536);
        assert(-4 <= tdiv(x as int * (205887 - x as int), 65536) <= 646798) by (nonlinear_arith)
            requires
                0 <= x <= 205888,
        {
        }
    }
    let q = mul_fx(x, 205887 - x);
    proof {
        assert(fmul(205887, 205887) == 646811);
    }
    let den = 5 * 646811 - 4 * q;
    proof {
        crate::fixed::lemma_tdiv_bound(16 * q as int * 65536, den as int);
        assert(abs_i(tdiv(16 * q as int * 65536, den as int)) <= 2_000_000) by (nonlinear_arith)
            requires
                -4 <= q <= 646798,
                den == 5 * 646811 - 4 * q,
        {
        }
    }
    let c = div_fx(16 * q, den);
    clamp_fx(c, SCALE)
}

impl ConstantTexture {
    pub fn new(color: Vec3) -> (r: Self)
        ensures
            r == (ConstantTexture { color }),
    {
        ConstantTexture { color }
    }
}

impl CheckerTexture {
    pub fn new(odd: Texture, even: Texture) -> (r: Self)
        ensures
            r == (CheckerTexture { odd, even }),
    {
        CheckerTexture { odd, even }
    }
}

impl ImageTexture {
    pub fn new(data: Vec<u8>, nx: usize, ny: usize) -> (r: Self)
        ensures
            r == (ImageTexture { data, nx, ny }),
    {
        ImageTexture { data, nx, ny }
    }

    /// The raster is complete (3 bytes per pixel) and of a workable size.
    pub open spec fn wf(self) -> bool {
        &&& 1 <= self.nx <= 32768
        &&& 1 <= self.ny <= 32768
        &&& self.data@.len() == 3 * self.nx * self.ny
    }
}

/// How often sin(10 c) has crossed zero up to the coordinate c: the sine
/// is negative exactly when this count is odd.
pub open spec fn spec_sine_steps(c: int) -> int {
    (10 * c) / (PI_FX as int)
}

/// The spatial checker pattern selects the odd texture where the product
/// of the three sine signs is negative.
pub open spec fn spec_checker_is_odd(p: Vec3) -> bool {
    (spec_sine_steps(p.x as int) + spec_sine_steps(p.y as int) + spec_sine_steps(p.z as int)) % 2
        == 1
}

/// Surface coordinates act through their clamp into [0, 1].
pub open spec fn clamp01(u: int) -> int {
    imin_t(imax_t(u, 0), SCALE as int)
}

/// Nearest-texel column for u, clamped to the raster.
pub open spec fn spec_image_col(t: ImageTexture, u: int) -> int {
    imin_t(imax_t((clamp01(u) * t.nx) / (SCALE as int), 0), t.nx - 1)
}

/// Nearest-texel row for v, with the vertical flip from texture space
/// (origin bottom-left) to raster space (origin top-left), clamped.
pub open spec fn spec_image_row(t: ImageTexture, v: int) -> int {
    imin_t(imax_t(((SCALE as int - clamp01(v)) * t.ny - 66) / (SCALE as int), 0), t.ny - 1)
}

pub open spec fn imin_t(a: int, b: int) -> int {
    if a <= b {
        a
    } else {
        b
    }
}

pub open spec fn imax_t(a: int, b: int) -> int {
    if a >= b {
        a
    } else {
        b
    }
}

/// A byte channel scaled into fixed point: 255 becomes 1.0.
pub open spec fn spec_byte_color(b: int) -> int {
    tdiv(b * (SCALE as int), 255)
}

/// The color of a texture at surface coordinates (u, v) and point p.
pub open spec fn spec_texture(t: Texture, u: int, v: int, p: Vec3) -> Vec3
    decreases t,
{
    match t {
        Texture::Constant(c) => c.color,
        Texture::Checker(c) => if spec_checker_is_odd(p) {
            spec_texture(c.odd, u, v, p)
        } else {
            spec_texture(c.even, u, v, p)
        },
        Texture::Image(img) => {
            let i = spec_image_col(img, u);
            let j = spec_image_row(img, v);
            let base = 3 * i + 3 * img.nx * j;
            Vec3 {
                x: spec_byte_color(img.data@[base] as int) as i64,
                y: spec_byte_color(img.data@[base + 1] as int) as i64,
                z: spec_byte_color(img.data@[base + 2] as int) as i64,
            }
        },
        Texture::Noise(n) => {
            let clamped = Vec3 {
                x: sclamp(p.x as int, 0x1_0000_0000_0000) as i64,
                y: sclamp(p.y as int, 0x1_0000_0000_0000) as i64,
                z: sclamp(p.z as int, 0x1_0000_0000_0000) as i64,
            };
            let arg = fmul(n.scale as int, p.x as int) + 10 * spec_turb(n.noise, clamped);
            let c = fmul(32768, SCALE as int + spec_sin(arg)) as i64;
            Vec3 { x: c, y: c, z: c }
        },
    }
}

/// An albedo texture: every color it can produce is at most one, so
/// attenuation never amplifies.
pub open spec fn texture_unit(t: Texture) -> bool
    decreases t,
{
    match t {
        Texture::Constant(c) => bounded_vec(c.color, SCALE as int),
        Texture::Checker(c) => texture_unit(c.odd) && texture_unit(c.even),
        Texture::Image(_) => true,
        Texture::Noise(_) => true,
    }
}

/// Every raster and every constant color in the texture tree is sound.
pub open spec fn texture_wf(t: Texture) -> bool
    decreases t,
{
    match t {
        Texture::Constant(c) => 0 <= c.color.x && 0 <= c.color.y && 0 <= c.color.z
            && bounded_vec(c.color, 16 * (SCALE as int)),
        Texture::Checker(c) => texture_wf(c.odd) && texture_wf(c.even),
        Texture::Image(img) => img.wf(),
        Texture::Noise(n) => perlin_wf(n.noise) && 0 <= n.scale <= 4 * SCALE,
    }
}

impl Texture {
    /// Evaluates the texture; the result is the specified color and is
    /// bounded like every color in a sound texture tree.
    pub fn texture(&self, u: i64, v: i64, p: &Vec3) -> (r: Vec3)
        requires
            texture_wf(*self),
            abs_i(u as int) <= TEX_COORD_LIMIT as int,
            abs_i(v as int) <= TEX_COORD_LIMIT as int,
            bounded_vec(*p, TEX_COORD_LIMIT as int),
        ensures
            r == spec_texture(*self, u as int, v as int, *p),
            bounded_vec(r, 16 * (SCALE as int)),
            0 <= r.x && 0 <= r.y && 0 <= r.z,
            texture_unit(*self) ==> bounded_vec(r, SCALE as int),
        decreases *self,
    {
        match self {
            Texture::Constant(c) => c.color,
            Texture::Checker(c) => {
                let sx = div_floor(10 * p.x, PI_FX);
                let sy = div_floor(10 * p.y, PI_FX);
                let sz = div_floor(10 * p.z, PI_FX);
                let total = sx + sy + sz;
                let half = div_floor(total, 2);
                let parity = total - 2 * half;
                if parity == 1 {
                    c.odd.texture(u, v, p)
                } else {
                    c.even.texture(u, v, p)
                }
            },
            Texture::Image(img) => {
                let uc = min_fx(max_fx(u, 0), SCALE);
                let vc = min_fx(max_fx(v, 0), SCALE);
                proof {
                    crate::fixed::lemma_mul_bound(uc as int, img.nx as int, 65536, 32768);
                    crate::fixed::lemma_mul_bound(
                        SCALE as int - vc as int,
                        img.ny as int,
                        65536,
                        32768,
                    );
                }
                let i = min_fx(max_fx(div_floor(uc * (img.nx as i64), SCALE), 0), img.nx as i64 - 1);
                let j = min_fx(
                    max_fx(div_floor((SCALE - vc) * (img.ny as i64) - 66, SCALE), 0),
                    img.ny as i64 - 1,
                );
                let iu = i as usize;
                let ju = j as usize;
                proof {
                    assert(3 * (iu as int) + 3 * (img.nx as int) * (ju as int) + 2 < 3 * (
                    img.nx as int) * (img.ny as int)) by (nonlinear_arith)
                        requires
                            0 <= iu as int <= img.nx as int - 1,
                            0 <= ju as int <= img.ny as int - 1,
                            1 <= img.nx as int <= 32768,
                            1 <= img.ny as int <= 32768,
                    {
                    }
                    assert(3 * (img.nx as int) * (img.ny as int) <= 0xC000_0000)
                        by (nonlinear_arith)
                        requires
                            1 <= img.nx as int <= 32768,
                            1 <= img.ny as int <= 32768,
                    {
                    }
                    assert(3 * (img.nx as int) * (ju as int) >= 0) by (nonlinear_arith)
                        requires
                            0 <= ju as int,
                            1 <= img.nx as int,
                    {
                    }
                }
                let base = 3 * iu + 3 * img.nx * ju;
                let cr = img.data[base];
                let cg = img.data[base + 1];
                let cb = img.data[base + 2];
                proof {
                    lemma_byte_color_bounds(cr as int);
                    lemma_byte_color_bounds(cg as int);
                    lemma_byte_color_bounds(cb as int);
                }
                Vec3::new(
                    byte_to_fx(cr),
                    byte_to_fx(cg),
                    byte_to_fx(cb),
                )
            },
            Texture::Noise(n) => {
                let clamped = Vec3::new(
                    clamp_fx(p.x, 0x1_0000_0000_0000),
                    clamp_fx(p.y, 0x1_0000_0000_0000),
                    clamp_fx(p.z, 0x1_0000_0000_0000),
                );
                let t = n.noise.turb(&clamped);
                proof {
                    crate::ray::lemma_fmul_abs(
                        n.scale as int,
                        p.x as int,
                        262144,
                        TEX_COORD_LIMIT as int,
                    );
                }
                let arg = mul_fx(n.scale, p.x) + 10 * t;
                let sv = sin_fx(arg);
                proof {
                    crate::hittable::lemma_fmul_unit(32768, (SCALE + sv) as int);
                    assert(fmul(32768, (SCALE + sv) as int) >= 0) by (nonlinear_arith)
                        requires
                            SCALE + sv >= 0,
                            fmul(32768, (SCALE + sv) as int) == tdiv(
                                32768 * ((SCALE + sv) as int),
                                65536,
                            ),
                    {
                    }
                }
                let c = mul_fx(32768, SCALE + sv);
                Vec3::new(c, c, c)
            },
        }
    }
}

proof fn lemma_byte_color_bounds(b: int)
    requires
        0 <= b < 256,
    ensures
        0 <= spec_byte_color(b) <= SCALE as int,
{
    crate::fixed::lemma_tdiv_bound(b * (SCALE as int), 255);
    assert(abs_i(b * 65536) / 255 <= 65536) by (nonlinear_arith)
        requires
            0 <= b < 256,
    {
    }
}

/// One channel byte as a fixed-point color component.
fn byte_to_fx(b: u8) -> (r: i64)
    ensures
        r == spec_byte_color(b as int),
        0 <= r <= SCALE,
{
    proof {
        lemma_byte_color_bounds(b as int);
    }
    let q: u64 = (b as u64) * 65536 / 255;
    q as i64
}

} // verus!
