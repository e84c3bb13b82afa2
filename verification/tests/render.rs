use raytracer::camera::Camera;
use raytracer::fixed::SCALE;
use raytracer::hittable::{HitableList, Hittable, Sphere};
use raytracer::material::{DiffuseLight, Lambertian, Material};
use raytracer::perlin::perlin_generate_perm;
use raytracer::rng::rng_from_seed;
use raytracer::scene::{Background, Scene};
use raytracer::texture::{CheckerTexture, ConstantTexture, ImageTexture, Texture};
use raytracer::vec3::Vec3;

fn v(x: i64, y: i64, z: i64) -> Vec3 {
    Vec3::new(x * SCALE, y * SCALE, z * SCALE)
}

fn gray(level: i64) -> Texture {
    Texture::Constant(ConstantTexture::new(Vec3::new(level, level, level)))
}

fn sky_scene(width: u32, height: u32, rays_per_pixel: u32, seed: u64) -> Scene {
    let mut objects = HitableList::new(Vec::new());
    objects.push(Hittable::Sphere(Sphere::new(SCALE, v(0, 0, -4), 0)));
    let materials = vec![Material::Lambertian(Lambertian::new(gray(SCALE / 2)))];
    let camera = Camera::new(
        v(0, 0, 2),
        v(0, 0, -4),
        v(0, 1, 0),
        SCALE / 2,
        SCALE,
        0,
        6 * SCALE,
        0,
        SCALE,
    );
    Scene::new(
        camera,
        objects,
        materials,
        Background::Sky,
        width,
        height,
        rays_per_pixel,
        seed,
    )
}

#[test]
fn image_texture_lookup() {
    // a 2x2 raster: red, green / blue, white
    let data = vec![255, 0, 0, 0, 255, 0, 0, 0, 255, 255, 255, 255];
    let img = Texture::Image(ImageTexture::new(data, 2, 2));
    let p = Vec3::new(0, 0, 0);
    // u small, v large selects the top-left texel (red)
    let c = img.texture(0, SCALE - 1, &p);
    assert_eq!(c.x, SCALE);
    assert_eq!(c.y, 0);
    // u large, v small selects the bottom-right texel (white)
    let c = img.texture(SCALE - 1, 0, &p);
    assert_eq!(c.x, SCALE);
    assert_eq!(c.y, SCALE);
    assert_eq!(c.z, SCALE);
}

#[test]
fn checker_texture_alternates() {
    let t = Texture::Checker(Box::new(CheckerTexture::new(gray(0), gray(SCALE))));
    // sin(10x) positive just above zero: even texture
    let near = t.texture(0, 0, &Vec3::new(655, 0, 0));
    // shifting x by about pi/10 units flips the sign once: odd texture
    let shifted = t.texture(0, 0, &Vec3::new(655 + 20589, 0, 0));
    assert_ne!(near.x, shifted.x);
}

#[test]
fn perlin_permutation() {
    let mut rng = rng_from_seed(9);
    let p = perlin_generate_perm(&mut rng);
    assert_eq!(p.len(), 256);
    let mut sorted = p.clone();
    sorted.sort();
    for (i, value) in sorted.iter().enumerate() {
        assert_eq!(*value, i);
    }
}

#[test]
fn diffuse_light_only_emits() {
    let light = Material::DiffuseLight(DiffuseLight::new(gray(7 * SCALE)));
    let mut rng = rng_from_seed(1);
    let rec = raytracer::hittable::HitRecord::new(SCALE, v(0, 0, 0), v(0, 1, 0), 0, 0, 0);
    let ray = raytracer::ray::Ray::new(v(0, 0, 2), Vec3::new(0, 0, -SCALE), 0);
    assert!(light.scatter(&ray, &rec, &mut rng).is_none());
    let e = light.emitted(0, 0, &v(0, 0, 0));
    assert_eq!(e.x, 7 * SCALE);
}

#[test]
fn camera_ray_time_within_shutter() {
    let camera = Camera::new(
        v(0, 0, 2),
        v(0, 0, -4),
        v(0, 1, 0),
        SCALE / 2,
        SCALE,
        SCALE / 4,
        6 * SCALE,
        0,
        SCALE,
    );
    let mut rng = rng_from_seed(77);
    for _ in 0..100 {
        let r = camera.get_ray(SCALE / 2, SCALE / 2, &mut rng);
        assert!(0 <= r.time && r.time <= SCALE);
    }
}

#[test]
fn render_is_seed_reproducible() {
    let scene = sky_scene(8, 6, 2, 12345);
    let first = scene.render();
    let second = sky_scene(8, 6, 2, 12345).render();
    assert_eq!(first.len(), 3 * 8 * 6);
    assert_eq!(first, second);
}

#[test]
fn render_more_samples_reduces_variance() {
    // reference: a high-sample estimate of the same pixel grid
    let reference = sky_scene(4, 4, 256, 999).render();
    let coarse = sky_scene(4, 4, 1, 1).render();
    let fine = sky_scene(4, 4, 64, 1).render();
    let dev = |img: &Vec<u8>| -> u64 {
        img.iter()
            .zip(reference.iter())
            .map(|(a, b)| (*a as i64 - *b as i64).unsigned_abs())
            .sum()
    };
    let coarse_dev = dev(&coarse);
    let fine_dev = dev(&fine);
    assert!(
        fine_dev <= coarse_dev,
        "64-sample deviation {} exceeds 1-sample deviation {}",
        fine_dev,
        coarse_dev
    );
}

#[test]
fn black_background_renders_black() {
    let objects = HitableList::new(Vec::new());
    let camera = Camera::new(
        v(0, 0, 2),
        v(0, 0, -4),
        v(0, 1, 0),
        SCALE / 2,
        SCALE,
        0,
        6 * SCALE,
        0,
        SCALE,
    );
    let scene = Scene::new(camera, objects, Vec::new(), Background::Black, 3, 3, 1, 4);
    let img = scene.render();
    assert_eq!(img.len(), 27);
    assert!(img.iter().all(|b| *b == 0));
}

#[test]
fn noise_texture_is_a_bounded_gray() {
    let mut rng = rng_from_seed(31);
    let perlin = raytracer::perlin::Perlin::new(&mut rng);
    let marble = Texture::Noise(Box::new(raytracer::texture::NoiseTexture::new(
        perlin,
        SCALE / 10,
    )));
    for i in 0..50i64 {
        let p = Vec3::new(i * 3000, i * 700, -i * 1300);
        let c = marble.texture(0, 0, &p);
        assert_eq!(c.x, c.y);
        assert_eq!(c.y, c.z);
        assert!(0 <= c.x && c.x <= SCALE);
    }
}

#[test]
fn perlin_noise_is_deterministic_per_table() {
    let mut rng = rng_from_seed(8);
    let perlin = raytracer::perlin::Perlin::new(&mut rng);
    let p = Vec3::new(12345, 54321, -777);
    let a = perlin.noise(&p);
    let b = perlin.noise(&p);
    assert_eq!(a, b);
    assert!(a.abs() <= 24 * SCALE);
}

#[test]
fn unit_ratio_dielectric_always_refracts() {
    let glass = Material::Dielectric(raytracer::material::Dielectric::new(SCALE));
    let mut rng = rng_from_seed(21);
    let rec = raytracer::hittable::HitRecord::new(SCALE, v(0, 0, 0), v(0, 0, 1), 0, 0, 0);
    let incoming = raytracer::ray::Ray::new(v(0, 0, 2), Vec3::new(0, 0, -SCALE), 0);
    for _ in 0..200 {
        let (_, scattered) = glass
            .scatter(&incoming, &rec, &mut rng)
            .expect("glass always scatters");
        assert_eq!(scattered.direction, Vec3::new(0, 0, -SCALE));
    }
}
