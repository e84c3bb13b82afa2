use raytracer::aabb::{surrounding_box, AABB};
use raytracer::fixed::SCALE;
use raytracer::hittable::{
    BVHNode, ConstantMedium, HitableList, Hittable, Sphere, Translate, XZRect,
};
use raytracer::ray::{refract, Ray};
use raytracer::rng::rng_from_seed;
use raytracer::vec3::Vec3;

fn v(x: i64, y: i64, z: i64) -> Vec3 {
    Vec3::new(x * SCALE, y * SCALE, z * SCALE)
}

#[test]
fn surrounding_box_contains_and_commutes() {
    let a = AABB::new(v(-1, -1, -1), v(1, 1, 1));
    let b = AABB::new(v(0, 0, 0), v(3, 2, 5));
    let u1 = surrounding_box(&a, &b);
    let u2 = surrounding_box(&b, &a);
    assert_eq!(u1.min.x, -SCALE);
    assert_eq!(u1.min.y, -SCALE);
    assert_eq!(u1.min.z, -SCALE);
    assert_eq!(u1.max.x, 3 * SCALE);
    assert_eq!(u1.max.y, 2 * SCALE);
    assert_eq!(u1.max.z, 5 * SCALE);
    assert!(u1.min.x <= a.min.x && a.max.x <= u1.max.x);
    assert!(u1.min.x <= b.min.x && b.max.x <= u1.max.x);
    assert_eq!(u1.min.x, u2.min.x);
    assert_eq!(u1.max.y, u2.max.y);
    assert_eq!(u1.max.z, u2.max.z);
}

#[test]
fn aabb_slab_interval() {
    let b = AABB::new(v(-1, -1, -1), v(1, 1, 1));
    let r = Ray::new(v(0, 0, 4), Vec3::new(0, 0, -SCALE), 0);
    let hit = b.hit(&r, 0, 100 * SCALE);
    // entry at t = 3, exit at t = 5 along the negative z axis
    assert_eq!(hit, Some((3 * SCALE, 5 * SCALE)));
    let miss = Ray::new(v(0, 3, 4), Vec3::new(0, 0, -SCALE), 0);
    assert_eq!(b.hit(&miss, 0, 100 * SCALE), None);
}

#[test]
fn sphere_head_on_hit() {
    let s = Sphere::new(SCALE, v(0, 0, 0), 0);
    let world = Hittable::Sphere(s);
    let ray = Ray::new(v(0, 0, 2), Vec3::new(0, 0, -SCALE), 0);
    let mut rng = rng_from_seed(7);
    let rec = world.hit(&ray, 66, 0x100_0000_0000, &mut rng).expect("must hit");
    assert_eq!(rec.t, SCALE);
    assert_eq!(rec.p.x, 0);
    assert_eq!(rec.p.y, 0);
    assert_eq!(rec.p.z, SCALE);
    assert_eq!(rec.normal.x, 0);
    assert_eq!(rec.normal.y, 0);
    assert_eq!(rec.normal.z, SCALE);
}

#[test]
fn bvh_matches_flat_list() {
    let elems = || {
        vec![
            Hittable::Sphere(Sphere::new(SCALE, v(0, 0, -3), 0)),
            Hittable::Sphere(Sphere::new(SCALE, v(3, 0, -6), 1)),
            Hittable::Sphere(Sphere::new(2 * SCALE, v(-4, 1, -8), 2)),
            Hittable::XZRect(XZRect::new(-5 * SCALE, 5 * SCALE, -9 * SCALE, -1 * SCALE, -2 * SCALE, 3)),
            Hittable::Sphere(Sphere::new(SCALE / 2, v(1, 1, -4), 4)),
        ]
    };
    let list = Hittable::List(HitableList::new(elems()));
    let mut rng = rng_from_seed(11);
    let bvh = Hittable::Bvh(BVHNode::new(HitableList::new(elems()), 0, SCALE, &mut rng));
    let dirs = [
        Vec3::new(SCALE / 16, SCALE / 32, -SCALE),
        Vec3::new(SCALE / 4, 0, -SCALE),
        Vec3::new(-SCALE / 3, SCALE / 8, -SCALE),
        Vec3::new(0, -SCALE / 2, -SCALE),
        Vec3::new(SCALE / 2, SCALE / 9, -SCALE),
    ];
    for (i, d) in dirs.iter().enumerate() {
        let ray = Ray::new(v(0, 0, 4), *d, 0);
        let a = list.hit(&ray, 66, 0x100_0000_0000, &mut rng);
        let b = bvh.hit(&ray, 66, 0x100_0000_0000, &mut rng);
        match (a, b) {
            (Some(ra), Some(rb)) => assert_eq!(ra.t, rb.t, "ray {}", i),
            (None, None) => {}
            other => panic!("list and hierarchy disagree on ray {}: {:?}", i, other.0.map(|r| r.t)),
        }
    }
}

#[test]
fn translate_composition() {
    let base = || Hittable::Sphere(Sphere::new(SCALE, v(0, 0, 0), 0));
    let nested = Hittable::Translate(Translate::new(
        Hittable::Translate(Translate::new(base(), v(1, 0, 0))),
        v(0, 2, 0),
    ));
    let flat = Hittable::Translate(Translate::new(base(), v(1, 2, 0)));
    let mut rng = rng_from_seed(3);
    let ray = Ray::new(v(1, 2, 5), Vec3::new(0, 0, -SCALE), 0);
    let a = nested.hit(&ray, 66, 0x100_0000_0000, &mut rng).expect("nested hit");
    let b = flat.hit(&ray, 66, 0x100_0000_0000, &mut rng).expect("flat hit");
    assert_eq!(a.t, b.t);
    assert_eq!(a.p, b.p);
    assert_eq!(a.normal, b.normal);
}

#[test]
fn refract_with_matched_indices_is_identity() {
    let incoming = Vec3::new(0, 0, -SCALE);
    let normal = Vec3::new(0, 0, SCALE);
    let out = refract(&incoming, &normal, SCALE).expect("no total internal reflection");
    assert_eq!(out, Vec3::new(0, 0, -SCALE));
}

#[test]
fn medium_density_extremes() {
    let mut rng = rng_from_seed(42);
    let boundary = || Hittable::Sphere(Sphere::new(2 * SCALE, v(0, 0, 0), 0));
    let thin = Hittable::ConstantMedium(ConstantMedium::new(boundary(), 1, 0));
    let dense = Hittable::ConstantMedium(ConstantMedium::new(boundary(), SCALE * 65536, 0));
    let mut thin_scatters = 0u32;
    let mut dense_scatters = 0u32;
    let trials = 10_000u32;
    for _ in 0..trials {
        let ray = Ray::new(v(0, 0, 5), Vec3::new(0, 0, -SCALE), 0);
        if thin.hit(&ray, 66, 0x100_0000_0000, &mut rng).is_some() {
            thin_scatters += 1;
        }
        if dense.hit(&ray, 66, 0x100_0000_0000, &mut rng).is_some() {
            dense_scatters += 1;
        }
    }
    assert!(thin_scatters < trials / 100, "thin medium scattered {} times", thin_scatters);
    assert!(dense_scatters > trials - trials / 100, "dense medium scattered only {} times", dense_scatters);
}

#[test]
fn rotate_quarter_turn_hits() {
    // a sphere at +x, viewed through a quarter turn about y, appears at -z
    let s = Hittable::Sphere(Sphere::new(SCALE, v(3, 0, 0), 0));
    let rot = Hittable::RotateY(raytracer::hittable::RotateY::new(s, SCALE, 0));
    let mut rng = rng_from_seed(5);
    let ray = Ray::new(v(0, 0, 6), Vec3::new(0, 0, -SCALE), 0);
    let rec = rot.hit(&ray, 66, 0x100_0000_0000, &mut rng);
    assert!(rec.is_some());
    assert_eq!(rec.unwrap().t, 8 * SCALE);
}

#[test]
fn lone_bvh_child_is_duplicated() {
    let single = HitableList::new(vec![Hittable::Sphere(Sphere::new(SCALE, v(0, 0, -3), 7))]);
    let mut rng = rng_from_seed(13);
    let node = BVHNode::new(single, 0, SCALE, &mut rng);
    for child in [&*node.left, &*node.right] {
        match child {
            Hittable::Sphere(s) => {
                assert_eq!(s.r, SCALE);
                assert_eq!(s.center, v(0, 0, -3));
                assert_eq!(s.material, 7);
            }
            other => panic!("child is not the duplicated sphere: {:?}", std::mem::discriminant(other)),
        }
    }
}
