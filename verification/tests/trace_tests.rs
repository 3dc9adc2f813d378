use ray_tracing_in_one_weekend::FS;
use ray_tracing_in_one_weekend::vec3::Vec3;
use ray_tracing_in_one_weekend::ray::Ray;
use ray_tracing_in_one_weekend::sphere::Sphere;
use ray_tracing_in_one_weekend::material::{Material, Lambertian};
use ray_tracing_in_one_weekend::camera::Camera;
use ray_tracing_in_one_weekend::tracer::color;
use ray_tracing_in_one_weekend::rng::seed_source;

fn one_sphere_world() -> Vec<Sphere> {
    vec![Sphere::new(
        &Vec3::new(0, 0, -FS),
        FS / 2,
        Some(Material::Lambertian(Lambertian::new(Vec3::new(FS / 2, FS / 2, FS / 2)))),
    )]
}

#[test]
fn missing_everything_returns_the_sky_gradient() {
    let world: Vec<Sphere> = Vec::new();
    let mut src = seed_source(1);
    // Horizontal ray: t = 1/2, color (0.75, 0.85, 1.0).
    let r = Ray::new(&Vec3::new(0, 0, 0), &Vec3::new(0, 0, -FS));
    let c = color(&r, &world, 0, &mut src);
    assert_eq!((c.x(), c.y(), c.z()), (786432, 891289, FS));
    // Straight up: t = 1, exactly the sky color (0.5, 0.7, 1.0).
    let up = Ray::new(&Vec3::new(0, 0, 0), &Vec3::new(0, FS, 0));
    let c_up = color(&up, &world, 0, &mut src);
    assert_eq!((c_up.x(), c_up.y(), c_up.z()), (524288, 734003, FS));
}

#[test]
fn a_sphere_behind_the_ray_still_gives_the_gradient() {
    let world = one_sphere_world();
    let mut src = seed_source(1);
    let r = Ray::new(&Vec3::new(0, 0, 0), &Vec3::new(0, 0, FS));
    let c = color(&r, &world, 0, &mut src);
    assert_eq!((c.x(), c.y(), c.z()), (786432, 891289, FS));
}

#[test]
fn diffuse_bounce_attenuates_by_the_albedo() {
    let world = one_sphere_world();
    let r = Ray::new(&Vec3::new(0, 0, 0), &Vec3::new(0, 0, -FS));
    for seed in 0..16u64 {
        let mut src = seed_source(seed);
        let c = color(&r, &world, 0, &mut src);
        // One bounce off a half-gray surface at most halves each channel
        // of whatever the sky later provides; channels stay in [0, 1].
        assert!(0 <= c.x() && c.x() <= FS);
        assert!(0 <= c.y() && c.y() <= FS);
        assert!(0 <= c.z() && c.z() <= FS);
        assert!(c.z() <= FS / 2 + 1);
    }
}

#[test]
fn depth_limit_forces_black_before_anything_else() {
    let world = one_sphere_world();
    let r = Ray::new(&Vec3::new(0, 0, 0), &Vec3::new(0, 0, -FS));
    let mut src = seed_source(9);
    let c = color(&r, &world, 50, &mut src);
    assert_eq!((c.x(), c.y(), c.z()), (0, 0, 0));
    let c2 = color(&r, &world, 77, &mut src);
    assert_eq!((c2.x(), c2.y(), c2.z()), (0, 0, 0));
    // The limit precedes the scene query: even a ray that misses
    // everything yields black once the depth is exhausted.
    let empty: Vec<_> = Vec::new();
    let c3 = color(&r, &empty, 50, &mut src);
    assert_eq!((c3.x(), c3.y(), c3.z()), (0, 0, 0));
}

#[test]
fn sample_sums_do_not_depend_on_the_order() {
    let world = one_sphere_world();
    let r = Ray::new(&Vec3::new(0, 0, 0), &Vec3::new(0, 0, -FS));
    let mut samples: Vec<Vec3> = Vec::new();
    for seed in 0..10u64 {
        let mut src = seed_source(seed);
        samples.push(color(&r, &world, 0, &mut src));
    }
    let mut fwd = Vec3::new(0, 0, 0);
    for s in samples.iter() {
        fwd = fwd.add(*s);
    }
    let mut rev = Vec3::new(0, 0, 0);
    for s in samples.iter().rev() {
        rev = rev.add(*s);
    }
    assert_eq!(fwd, rev);
}

#[test]
fn centered_camera_ray_points_down_the_view_axis() {
    // Pinhole camera (zero aperture) looking down negative z.
    let cam = Camera::new(
        &Vec3::new(0, 0, FS),
        &Vec3::new(0, 0, 0),
        &Vec3::new(0, FS, 0),
        FS / 2,
        2 * FS,
        0,
        FS,
    );
    let mut src = seed_source(2);
    let r = cam.get_ray(FS / 2, FS / 2, &mut src);
    assert_eq!((r.a.x(), r.a.y(), r.a.z()), (0, 0, FS));
    assert_eq!((r.b.x(), r.b.y(), r.b.z()), (0, 0, -FS));
}

#[test]
fn camera_corner_rays_span_the_viewport() {
    let cam = Camera::new(
        &Vec3::new(0, 0, FS),
        &Vec3::new(0, 0, 0),
        &Vec3::new(0, FS, 0),
        FS / 2,
        2 * FS,
        0,
        FS,
    );
    let mut src = seed_source(2);
    let low_left = cam.get_ray(0, 0, &mut src);
    assert_eq!((low_left.b.x(), low_left.b.y(), low_left.b.z()), (-FS, -FS / 2, -FS));
    let top_right = cam.get_ray(FS, FS, &mut src);
    assert_eq!((top_right.b.x(), top_right.b.y(), top_right.b.z()), (FS, FS / 2, -FS));
}

#[test]
fn traced_pixel_through_camera_stays_in_range() {
    let world = one_sphere_world();
    let cam = Camera::new(
        &Vec3::new(0, 0, 0),
        &Vec3::new(0, 0, -FS),
        &Vec3::new(0, FS, 0),
        FS / 2,
        2 * FS,
        FS / 10,
        FS,
    );
    let mut src = seed_source(42);
    let mut acc = Vec3::new(0, 0, 0);
    let ns: i64 = 20;
    for _ in 0..ns {
        let r = cam.get_ray(FS / 2, FS / 2, &mut src);
        if r.b.x() != 0 || r.b.y() != 0 || r.b.z() != 0 {
            acc = acc.add(color(&r, &world, 0, &mut src));
        }
    }
    acc = acc.div_s(ns * FS);
    assert!(0 <= acc.x() && acc.x() <= FS);
    assert!(0 <= acc.y() && acc.y() <= FS);
    assert!(0 <= acc.z() && acc.z() <= FS);
}
