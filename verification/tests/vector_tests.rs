use ray_tracing_in_one_weekend::FS;
use ray_tracing_in_one_weekend::vec3::Vec3;
use ray_tracing_in_one_weekend::ray::Ray;
use ray_tracing_in_one_weekend::rng::{seed_source, gen_in};

fn fsv(a: i64, b: i64, c: i64) -> Vec3 {
    Vec3::new(a * FS, b * FS, c * FS)
}

#[test]
fn add_sub_are_exact() {
    let a = fsv(1, 2, 3);
    let b = fsv(4, 5, 6);
    let s = a.add(b);
    assert_eq!((s.x(), s.y(), s.z()), (5 * FS, 7 * FS, 9 * FS));
    let d = b.sub(a);
    assert_eq!((d.x(), d.y(), d.z()), (3 * FS, 3 * FS, 3 * FS));
}

#[test]
fn componentwise_product_scales() {
    let a = fsv(2, 3, 4);
    let b = fsv(5, 6, 7);
    let p = a.mul(b);
    assert_eq!((p.x(), p.y(), p.z()), (10 * FS, 18 * FS, 28 * FS));
}

#[test]
fn scalar_ops_scale() {
    let a = fsv(2, -3, 4);
    let m = a.mul_s(2 * FS);
    assert_eq!((m.x(), m.y(), m.z()), (4 * FS, -6 * FS, 8 * FS));
    let d = a.div_s(2 * FS);
    assert_eq!((d.x(), d.y(), d.z()), (FS, -3 * FS / 2, 2 * FS));
}

#[test]
fn dot_and_cross_match_formulas() {
    let a = fsv(1, 2, 3);
    let b = fsv(4, 5, 6);
    assert_eq!(Vec3::dot(&a, &b), 32 * FS);
    let e1 = fsv(1, 0, 0);
    let e2 = fsv(0, 1, 0);
    let c = Vec3::cross(&e1, &e2);
    assert_eq!((c.x(), c.y(), c.z()), (0, 0, FS));
}

#[test]
fn lengths_of_pythagorean_vector() {
    let v = fsv(3, 4, 0);
    assert_eq!(v.length(), 5 * FS);
    assert_eq!(v.squared_length(), 25 * FS);
}

#[test]
fn unit_vector_of_three_four_zero() {
    let v = fsv(3, 4, 0);
    let u = Vec3::unit_vector(v);
    assert_eq!((u.x(), u.y(), u.z()), (629145, 838860, 0));
}

#[test]
fn normalized_length_is_one_within_tolerance() {
    // |length - 1| < 1e-5, i.e. strictly fewer than 11 fixed-point steps.
    for v in [
        fsv(3, 4, 0),
        fsv(1, 1, 1),
        fsv(-7, 2, 9),
        Vec3::new(FS / 2, FS / 3, -FS / 5),
        fsv(100, -250, 401),
    ] {
        let u = Vec3::unit_vector(v);
        let diff = u.length() - FS;
        assert!(diff.abs() < 11, "length off by {diff} steps");
    }
}

#[test]
fn make_unit_vector_normalizes_in_place() {
    let mut v = fsv(0, -2, 0);
    v.make_unit_vector();
    assert_eq!((v.x(), v.y(), v.z()), (0, -FS, 0));
}

#[test]
fn assign_ops_match_plain_ops() {
    let mut a = fsv(1, 2, 3);
    a.add_assign(fsv(1, 1, 1));
    assert_eq!((a.x(), a.y(), a.z()), (2 * FS, 3 * FS, 4 * FS));
    a.sub_assign(fsv(2, 2, 2));
    assert_eq!((a.x(), a.y(), a.z()), (0, FS, 2 * FS));
    a.mul_assign(fsv(3, 3, 3));
    assert_eq!((a.x(), a.y(), a.z()), (0, 3 * FS, 6 * FS));
    a.mul_assign_s(FS / 2);
    assert_eq!((a.x(), a.y(), a.z()), (0, 3 * FS / 2, 3 * FS));
    a.div_assign_s(3 * FS);
    assert_eq!((a.x(), a.y(), a.z()), (0, FS / 2, FS));
    a.div_assign(fsv(1, 1, 2));
    assert_eq!((a.x(), a.y(), a.z()), (0, FS / 2, FS / 2));
}

#[test]
fn color_accessors_alias_coordinates() {
    let v = Vec3::new(10, 20, 30);
    assert_eq!((v.r(), v.g(), v.b()), (v.x(), v.y(), v.z()));
}

#[test]
fn point_at_parameter_walks_the_ray() {
    let r = Ray::new(&fsv(1, 0, 0), &fsv(0, 0, -1));
    let p = r.point_at_parameter(FS / 2);
    assert_eq!((p.x(), p.y(), p.z()), (FS, 0, -FS / 2));
    let o = r.origin();
    let d = r.direction();
    assert_eq!((o.x(), o.y(), o.z()), (FS, 0, 0));
    assert_eq!((d.x(), d.y(), d.z()), (0, 0, -FS));
}

#[test]
fn gen_in_stays_inside_bounds_and_varies() {
    let mut src = seed_source(7);
    let mut all_same = true;
    let mut first: Option<i64> = None;
    for _ in 0..200 {
        let x = gen_in(&mut src, -FS, FS);
        assert!(-FS <= x && x <= FS);
        match first {
            None => first = Some(x),
            Some(f) => {
                if x != f {
                    all_same = false;
                }
            }
        }
    }
    assert!(!all_same, "two hundred samples never varied");
}

#[test]
fn seeded_sources_are_reproducible() {
    let mut a = seed_source(123);
    let mut b = seed_source(123);
    let mut c = seed_source(124);
    let mut saw_difference = false;
    for _ in 0..32 {
        let xa = gen_in(&mut a, 0, FS - 1);
        let xb = gen_in(&mut b, 0, FS - 1);
        let xc = gen_in(&mut c, 0, FS - 1);
        assert_eq!(xa, xb);
        if xa != xc {
            saw_difference = true;
        }
    }
    assert!(saw_difference);
}
