use ray_tracing_in_one_weekend::FS;
use ray_tracing_in_one_weekend::vec3::Vec3;
use ray_tracing_in_one_weekend::ray::Ray;
use ray_tracing_in_one_weekend::hittable::HitRecord;
use ray_tracing_in_one_weekend::material::{
    Material, Lambertian, Metal, Dielectric, reflect, refract, schlick,
};
use ray_tracing_in_one_weekend::rng::seed_source;

fn surface_rec(p: Vec3, normal: Vec3) -> HitRecord {
    HitRecord { t: FS, p, normal, material: None }
}

fn zero_ray() -> Ray {
    Ray::new(&Vec3::new(0, 0, 0), &Vec3::new(0, 0, 0))
}

#[test]
fn lambertian_attenuation_is_exactly_the_albedo() {
    let albedo = Vec3::new(FS / 2, FS / 4, FS / 8);
    let mat = Lambertian::new(albedo);
    let rec = surface_rec(Vec3::new(0, 0, -FS / 2), Vec3::new(0, 0, FS));
    let r_in = Ray::new(&Vec3::new(0, 0, 0), &Vec3::new(0, 0, -FS));
    let mut attenuation = Vec3::new(0, 0, 0);
    let mut scattered = zero_ray();
    let mut src = seed_source(11);
    assert!(mat.scatter(&r_in, &rec, &mut attenuation, &mut scattered, &mut src));
    assert_eq!(attenuation, albedo);
    assert_eq!(scattered.a, rec.p);
    // The direction is the normal plus a point strictly inside the unit ball.
    let q = scattered.b.sub(rec.normal);
    let qq = q.x() * q.x() + q.y() * q.y() + q.z() * q.z();
    assert!(qq < FS * FS);
}

#[test]
fn metal_with_no_fuzz_mirrors_exactly() {
    let albedo = Vec3::new(7 * FS / 10, 6 * FS / 10, FS / 2);
    let mat = Metal::new(albedo, 0);
    // Incoming at 45 degrees onto an upward-facing surface.
    let r_in = Ray::new(&Vec3::new(-FS, FS, 0), &Vec3::new(FS, -FS, 0));
    let rec = surface_rec(Vec3::new(0, 0, 0), Vec3::new(0, FS, 0));
    let mut attenuation = Vec3::new(0, 0, 0);
    let mut scattered = zero_ray();
    let mut src = seed_source(5);
    assert!(mat.scatter(&r_in, &rec, &mut attenuation, &mut scattered, &mut src));
    assert_eq!(attenuation, albedo);
    // unit of (1, -1, 0) reflects to (unit.x, -unit.y, 0) about (0, 1, 0).
    let u = Vec3::unit_vector(r_in.direction());
    let refl = reflect(&u, &rec.normal);
    assert_eq!(scattered.b, refl);
    assert_eq!(refl.x(), u.x());
    assert!(refl.y() > 0);
}

#[test]
fn metal_absorbs_rays_scattered_into_the_surface() {
    // A normal facing the same way the ray travels sends the mirror
    // reflection inward, so the dot product is not positive: absorbed.
    let mat = Metal::new(Vec3::new(FS / 2, FS / 2, FS / 2), 0);
    let r_in = Ray::new(&Vec3::new(0, 0, 0), &Vec3::new(0, 0, -FS));
    let rec = surface_rec(Vec3::new(0, 0, -FS), Vec3::new(0, 0, -FS));
    let mut attenuation = Vec3::new(0, 0, 0);
    let mut scattered = zero_ray();
    let mut src = seed_source(5);
    assert!(!mat.scatter(&r_in, &rec, &mut attenuation, &mut scattered, &mut src));
}

#[test]
fn metal_new_clamps_fuzz_into_the_unit_interval() {
    let m = Metal::new(Vec3::new(FS, FS, FS), 3 * FS);
    assert_eq!(m.fuzz, FS);
    let m2 = Metal::new(Vec3::new(FS, FS, FS), FS / 4);
    assert_eq!(m2.fuzz, FS / 4);
    let m3 = Metal::new(Vec3::new(FS, FS, FS), -FS);
    assert_eq!(m3.fuzz, 0);
    let m4 = Metal::new(Vec3::new(FS, FS, FS), -1);
    assert_eq!(m4.fuzz, 0);
}

#[test]
fn dielectric_attenuation_is_always_white() {
    let mat = Dielectric::new(3 * FS / 2);
    let r_in = Ray::new(&Vec3::new(0, 0, 0), &Vec3::new(0, 0, -FS));
    let rec = surface_rec(Vec3::new(0, 0, -FS / 2), Vec3::new(0, 0, FS));
    for seed in 0..8u64 {
        let mut attenuation = Vec3::new(0, 0, 0);
        let mut scattered = zero_ray();
        let mut src = seed_source(seed);
        assert!(mat.scatter(&r_in, &rec, &mut attenuation, &mut scattered, &mut src));
        assert_eq!(
            (attenuation.x(), attenuation.y(), attenuation.z()),
            (FS, FS, FS)
        );
        assert_eq!(scattered.a, rec.p);
    }
}

#[test]
fn schlick_is_a_probability_for_unit_cosines() {
    let ref_idx = 3 * FS / 2;
    for cosine in [0, FS / 8, FS / 4, FS / 2, 3 * FS / 4, FS] {
        let p = schlick(cosine, ref_idx);
        assert!(0 <= p && p <= FS, "schlick({cosine}) = {p}");
    }
}

#[test]
fn schlick_exact_values_at_the_ends() {
    let ref_idx = 3 * FS / 2;
    // Grazing incidence reflects with probability one.
    assert_eq!(schlick(0, ref_idx), FS);
    // Head-on incidence leaves exactly r0 = ((1 - n)/(1 + n))^2.
    assert_eq!(schlick(FS, ref_idx), 41943);
}

#[test]
fn refraction_bends_head_on_and_reflects_at_grazing() {
    let n = Vec3::new(0, FS, 0);
    let mut refracted = Vec3::new(0, 0, 0);
    // Head-on through the surface: refraction succeeds.
    let down = Vec3::new(0, -FS, 0);
    assert!(refract(&down, &n, 3 * FS / 2, &mut refracted));
    assert!(refracted.y() < 0);
    // Grazing incidence from the dense side: total internal reflection.
    let graze = Vec3::new(FS, -FS / 8, 0);
    let before = refracted;
    assert!(!refract(&graze, &n, 3 * FS / 2, &mut refracted));
    assert_eq!(refracted, before);
}

#[test]
fn material_dispatch_matches_each_variant() {
    let albedo = Vec3::new(FS / 2, FS / 2, FS / 2);
    let rec = surface_rec(Vec3::new(0, 0, -FS / 2), Vec3::new(0, 0, FS));
    let r_in = Ray::new(&Vec3::new(0, 0, 0), &Vec3::new(0, 0, -FS));
    let mut src = seed_source(3);

    let mut attenuation = Vec3::new(0, 0, 0);
    let mut scattered = zero_ray();
    let lam = Material::Lambertian(Lambertian::new(albedo));
    assert!(lam.scatter(&r_in, &rec, &mut attenuation, &mut scattered, &mut src));
    assert_eq!(attenuation, albedo);

    let die = Material::Dielectric(Dielectric::new(3 * FS / 2));
    assert!(die.scatter(&r_in, &rec, &mut attenuation, &mut scattered, &mut src));
    assert_eq!((attenuation.x(), attenuation.y(), attenuation.z()), (FS, FS, FS));
}
