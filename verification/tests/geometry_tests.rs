use ray_tracing_in_one_weekend::FS;
use ray_tracing_in_one_weekend::vec3::Vec3;
use ray_tracing_in_one_weekend::ray::Ray;
use ray_tracing_in_one_weekend::sphere::Sphere;
use ray_tracing_in_one_weekend::hittable::{hit, HitRecord, Hittable};
use ray_tracing_in_one_weekend::material::{Material, Lambertian};

fn empty_rec() -> HitRecord {
    HitRecord {
        t: 0,
        p: Vec3::new(0, 0, 0),
        normal: Vec3::new(0, 0, 0),
        material: None,
    }
}

fn gray() -> Option<Material> {
    Some(Material::Lambertian(Lambertian::new(Vec3::new(FS / 2, FS / 2, FS / 2))))
}

#[test]
fn head_on_hit_reports_near_root_and_outward_normal() {
    // Sphere of radius one half at (0, 0, -1), ray from the origin into it.
    let s = Sphere::new(&Vec3::new(0, 0, -FS), FS / 2, gray());
    let r = Ray::new(&Vec3::new(0, 0, 0), &Vec3::new(0, 0, -FS));
    let mut rec = empty_rec();
    assert!(s.hit(&r, 1048, 0x4000_0000, &mut rec));
    assert_eq!(rec.t, FS / 2);
    assert_eq!((rec.p.x(), rec.p.y(), rec.p.z()), (0, 0, -FS / 2));
    assert_eq!((rec.normal.x(), rec.normal.y(), rec.normal.z()), (0, 0, FS));
    assert!(rec.material.is_some());
}

#[test]
fn both_roots_along_the_line_to_the_center() {
    // Unit sphere at the origin, ray starting three units out on the axis:
    // near root at distance - radius, far root at distance + radius.
    let s = Sphere::new(&Vec3::new(0, 0, 0), FS, gray());
    let r = Ray::new(&Vec3::new(0, 0, 3 * FS), &Vec3::new(0, 0, -FS));
    let mut rec = empty_rec();
    assert!(s.hit(&r, 1048, 0x4000_0000, &mut rec));
    assert_eq!(rec.t, 2 * FS);
    // Excluding the near root exposes the far one.
    assert!(s.hit(&r, 5 * FS / 2, 0x4000_0000, &mut rec));
    assert_eq!(rec.t, 4 * FS);
}

#[test]
fn ray_pointing_away_misses() {
    let s = Sphere::new(&Vec3::new(0, 0, -2 * FS), FS / 2, gray());
    let r = Ray::new(&Vec3::new(0, 0, 0), &Vec3::new(0, 0, FS));
    let mut rec = empty_rec();
    assert!(!s.hit(&r, 1048, 0x4000_0000, &mut rec));
}

#[test]
fn window_excluding_both_roots_misses() {
    let s = Sphere::new(&Vec3::new(0, 0, -4 * FS), FS / 2, gray());
    let r = Ray::new(&Vec3::new(0, 0, 0), &Vec3::new(0, 0, -FS));
    let mut rec = empty_rec();
    // Both roots lie beyond two units.
    assert!(!s.hit(&r, 1048, 2 * FS, &mut rec));
}

#[test]
fn scan_keeps_the_nearest_hit_in_either_order() {
    let near = Sphere::new(&Vec3::new(0, 0, -2 * FS), FS / 2, gray());
    let far = Sphere::new(&Vec3::new(0, 0, -6 * FS), FS / 2, gray());
    let r = Ray::new(&Vec3::new(0, 0, 0), &Vec3::new(0, 0, -FS));
    let mut rec = empty_rec();

    let world_a: Vec<Sphere> = vec![near, far];
    assert!(hit(&world_a, &r, 1048, 0x4000_0000, &mut rec));
    let t_a = rec.t;

    let world_b: Vec<Sphere> = vec![far, near];
    let mut rec_b = empty_rec();
    assert!(hit(&world_b, &r, 1048, 0x4000_0000, &mut rec_b));
    assert_eq!(t_a, rec_b.t);
    assert_eq!(t_a, 3 * FS / 2);
}

#[test]
fn empty_scene_never_hits() {
    let world: Vec<Sphere> = Vec::new();
    let r = Ray::new(&Vec3::new(0, 0, 0), &Vec3::new(0, 0, -FS));
    let mut rec = empty_rec();
    assert!(!hit(&world, &r, 1048, 0x4000_0000, &mut rec));
}
