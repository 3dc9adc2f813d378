//! The sphere primitive and its intersection test.
//!
//! The hit test forms the quadratic `|origin + t*dir - center|^2 = r^2`
//! in half-coefficient form over exact integers (scale `FS^2` for the
//! coefficients, `FS^4` for the discriminant) and accepts the smaller
//! root inside `(t_min, t_max)` first, then the larger.

use vstd::prelude::*;
use crate::fixed::{FS, fxdiv, sqrt_floor, isqrt_u128,
    lemma_mul_abs_bound, lemma_div_range};
use crate::vec3::{Vec3, bounded, dot3, COORD_MAX};
use crate::ray::{Ray, point_at1, point_at2, point_at3};
use crate::material::Material;
use crate::hittable::{HitRecord, HitData, Hittable, rec_matches, hit_data_ok};

verus! {

/// Largest ray parameter the intersection protocol handles
/// (2^30 steps, 1024 units).
pub const T_CAP: i64 = 0x4000_0000;

/// Smallest sphere radius the intersection protocol handles
/// (1024 steps, about a thousandth of a unit).
pub const RADIUS_MIN: i64 = 1024;

#[derive(Debug, Clone, Copy)]
pub struct Sphere {
    pub center: Vec3,
    pub radius: i64,
    pub material: Option<Material>,
}

/// Offset from the sphere's center to the ray origin, first coordinate.
pub open spec fn sph_oc1(s: Sphere, r: Ray) -> int {
    r.a.v1 - s.center.v1
}

/// Offset from the sphere's center to the ray origin, second coordinate.
pub open spec fn sph_oc2(s: Sphere, r: Ray) -> int {
    r.a.v2 - s.center.v2
}

/// Offset from the sphere's center to the ray origin, third coordinate.
pub open spec fn sph_oc3(s: Sphere, r: Ray) -> int {
    r.a.v3 - s.center.v3
}

/// Quadratic coefficient `a = dir . dir` (scale `FS^2`).
pub open spec fn sph_a(s: Sphere, r: Ray) -> int {
    dot3(r.b, r.b)
}

/// Half-coefficient `b = oc . dir` (scale `FS^2`).
pub open spec fn sph_b(s: Sphere, r: Ray) -> int {
    sph_oc1(s, r) * r.b.v1 + sph_oc2(s, r) * r.b.v2 + sph_oc3(s, r) * r.b.v3
}

/// Constant coefficient `c = oc . oc - radius^2` (scale `FS^2`).
pub open spec fn sph_c(s: Sphere, r: Ray) -> int {
    sph_oc1(s, r) * sph_oc1(s, r) + sph_oc2(s, r) * sph_oc2(s, r)
        + sph_oc3(s, r) * sph_oc3(s, r) - s.radius * s.radius
}

/// Discriminant `b^2 - a*c` of the half-coefficient quadratic
/// (scale `FS^4`).
pub open spec fn sph_disc(s: Sphere, r: Ray) -> int {
    sph_b(s, r) * sph_b(s, r) - sph_a(s, r) * sph_c(s, r)
}

/// The smaller root `(-b - sqrt(disc)) / a`, a fixed-point parameter.
pub open spec fn sph_t_near(s: Sphere, r: Ray) -> int {
    fxdiv(-sph_b(s, r) - sqrt_floor(sph_disc(s, r)), sph_a(s, r))
}

/// The larger root `(-b + sqrt(disc)) / a`, a fixed-point parameter.
pub open spec fn sph_t_far(s: Sphere, r: Ray) -> int {
    fxdiv(-sph_b(s, r) + sqrt_floor(sph_disc(s, r)), sph_a(s, r))
}

/// The record a sphere reports for an accepted parameter `t`: the point
/// on the ray, the outward normal `(p - center) / radius`, and the
/// sphere's material.
pub open spec fn sphere_hit_data(s: Sphere, r: Ray, t: int) -> HitData {
    HitData {
        t,
        p1: point_at1(r, t),
        p2: point_at2(r, t),
        p3: point_at3(r, t),
        n1: fxdiv(point_at1(r, t) - s.center.v1, s.radius as int),
        n2: fxdiv(point_at2(r, t) - s.center.v2, s.radius as int),
        n3: fxdiv(point_at3(r, t) - s.center.v3, s.radius as int),
        material: s.material,
    }
}

impl Sphere {
    /// A sphere the intersection protocol can handle: coordinates and
    /// radius within the geometric range, and a valid material if any.
    pub open spec fn wf(self) -> bool {
        bounded(self.center, COORD_MAX as int)
        && RADIUS_MIN <= self.radius <= COORD_MAX
        && (self.material is Some ==> self.material->Some_0.valid())
    }

    pub fn new(c: &Vec3, r: i64, m: Option<Material>) -> (s: Sphere)
        ensures
            s.center == *c,
            s.radius == r,
            s.material == m,
    {
        Sphere { center: *c, radius: r, material: m }
    }

    /// An accepted record of a well-formed sphere lies inside the bounds
    /// and carries the sphere's (valid) material.
    pub proof fn lemma_hit_spec_ok(self, r: Ray, t_min: int, t_max: int)
        requires
            self.wf(),
        ensures
            self.hit_spec(r, t_min, t_max) is Some
                ==> hit_data_ok(self.hit_spec(r, t_min, t_max)->Some_0),
    {
    }
}

/// Numeric ranges of the quadratic pieces for in-range spheres and rays;
/// everything stays far inside 128 bits.
proof fn lemma_sphere_num_bounds(s: Sphere, r: Ray)
    requires
        s.wf(),
        bounded(r.a, COORD_MAX as int),
        bounded(r.b, COORD_MAX as int),
    ensures
        -0x4000_0000 <= sph_oc1(s, r) <= 0x4000_0000,
        -0x4000_0000 <= sph_oc2(s, r) <= 0x4000_0000,
        -0x4000_0000 <= sph_oc3(s, r) <= 0x4000_0000,
        -0x400_0000_0000_0000 <= r.b.v1 * r.b.v1 <= 0x400_0000_0000_0000,
        -0x400_0000_0000_0000 <= r.b.v2 * r.b.v2 <= 0x400_0000_0000_0000,
        -0x400_0000_0000_0000 <= r.b.v3 * r.b.v3 <= 0x400_0000_0000_0000,
        -0xc00_0000_0000_0000 <= sph_a(s, r) <= 0xc00_0000_0000_0000,
        -0x800_0000_0000_0000 <= sph_oc1(s, r) * r.b.v1 <= 0x800_0000_0000_0000,
        -0x800_0000_0000_0000 <= sph_oc2(s, r) * r.b.v2 <= 0x800_0000_0000_0000,
        -0x800_0000_0000_0000 <= sph_oc3(s, r) * r.b.v3 <= 0x800_0000_0000_0000,
        -0x1800_0000_0000_0000 <= sph_b(s, r) <= 0x1800_0000_0000_0000,
        0 <= sph_oc1(s, r) * sph_oc1(s, r) <= 0x1000_0000_0000_0000,
        0 <= sph_oc2(s, r) * sph_oc2(s, r) <= 0x1000_0000_0000_0000,
        0 <= sph_oc3(s, r) * sph_oc3(s, r) <= 0x1000_0000_0000_0000,
        0 <= s.radius * s.radius <= 0x400_0000_0000_0000,
        -0x3400_0000_0000_0000 <= sph_c(s, r) <= 0x3400_0000_0000_0000,
        -0x240_0000_0000_0000_0000_0000_0000_0000 <= sph_b(s, r) * sph_b(s, r)
            <= 0x240_0000_0000_0000_0000_0000_0000_0000,
        -0x270_0000_0000_0000_0000_0000_0000_0000 <= sph_a(s, r) * sph_c(s, r)
            <= 0x270_0000_0000_0000_0000_0000_0000_0000,
        -0x4b0_0000_0000_0000_0000_0000_0000_0000 <= sph_disc(s, r)
            <= 0x4b0_0000_0000_0000_0000_0000_0000_0000,
{
    lemma_mul_abs_bound(r.b.v1 as int, r.b.v1 as int, 0x2000_0000, 0x2000_0000);
    lemma_mul_abs_bound(r.b.v2 as int, r.b.v2 as int, 0x2000_0000, 0x2000_0000);
    lemma_mul_abs_bound(r.b.v3 as int, r.b.v3 as int, 0x2000_0000, 0x2000_0000);
    crate::vec3::lemma_sq_nonneg(r.b.v1 as int);
    crate::vec3::lemma_sq_nonneg(r.b.v2 as int);
    crate::vec3::lemma_sq_nonneg(r.b.v3 as int);
    lemma_mul_abs_bound(sph_oc1(s, r), r.b.v1 as int, 0x4000_0000, 0x2000_0000);
    lemma_mul_abs_bound(sph_oc2(s, r), r.b.v2 as int, 0x4000_0000, 0x2000_0000);
    lemma_mul_abs_bound(sph_oc3(s, r), r.b.v3 as int, 0x4000_0000, 0x2000_0000);
    lemma_mul_abs_bound(sph_oc1(s, r), sph_oc1(s, r), 0x4000_0000, 0x4000_0000);
    lemma_mul_abs_bound(sph_oc2(s, r), sph_oc2(s, r), 0x4000_0000, 0x4000_0000);
    lemma_mul_abs_bound(sph_oc3(s, r), sph_oc3(s, r), 0x4000_0000, 0x4000_0000);
    crate::vec3::lemma_sq_nonneg(sph_oc1(s, r));
    crate::vec3::lemma_sq_nonneg(sph_oc2(s, r));
    crate::vec3::lemma_sq_nonneg(sph_oc3(s, r));
    lemma_mul_abs_bound(s.radius as int, s.radius as int, 0x2000_0000, 0x2000_0000);
    crate::vec3::lemma_sq_nonneg(s.radius as int);
    lemma_mul_abs_bound(sph_b(s, r), sph_b(s, r), 0x1800_0000_0000_0000, 0x1800_0000_0000_0000);
    crate::vec3::lemma_sq_nonneg(sph_b(s, r));
    lemma_mul_abs_bound(sph_a(s, r), sph_c(s, r), 0xc00_0000_0000_0000, 0x3400_0000_0000_0000);
    assert(0x2000_0000 * 0x2000_0000int == 0x400_0000_0000_0000) by (nonlinear_arith);
    assert(0x4000_0000 * 0x2000_0000int == 0x800_0000_0000_0000) by (nonlinear_arith);
    assert(0x4000_0000 * 0x4000_0000int == 0x1000_0000_0000_0000) by (nonlinear_arith);
    assert(0x1800_0000_0000_0000 * 0x1800_0000_0000_0000int
        == 0x240_0000_0000_0000_0000_0000_0000_0000) by (nonlinear_arith);
    assert(0xc00_0000_0000_0000 * 0x3400_0000_0000_0000int
        == 0x270_0000_0000_0000_0000_0000_0000_0000) by (nonlinear_arith);
}

impl Hittable for Sphere {
    open spec fn hit_pre(&self, r: Ray, t_min: int, t_max: int) -> bool {
        self.wf() && bounded(r.a, COORD_MAX as int) && bounded(r.b, COORD_MAX as int)
            && dot3(r.b, r.b) > 0 && -(T_CAP as int) <= t_min && t_max <= T_CAP as int
    }

    open spec fn hit_spec(&self, r: Ray, t_min: int, t_max: int) -> Option<HitData> {
        if sph_disc(*self, r) > 0 {
            if t_min < sph_t_near(*self, r) < t_max {
                Option::Some(sphere_hit_data(*self, r, sph_t_near(*self, r)))
            } else if t_min < sph_t_far(*self, r) < t_max {
                Option::Some(sphere_hit_data(*self, r, sph_t_far(*self, r)))
            } else {
                Option::None
            }
        } else {
            Option::None
        }
    }

    fn hit(&self, r: &Ray, t_min: i64, t_max: i64, rec: &mut HitRecord) -> (b: bool) {
        proof {
            lemma_sphere_num_bounds(*self, *r);
        }
        let oc = r.a.sub(self.center);
        let a_e: i128 = (r.b.v1 as i128) * (r.b.v1 as i128)
            + (r.b.v2 as i128) * (r.b.v2 as i128) + (r.b.v3 as i128) * (r.b.v3 as i128);
        let b_e: i128 = (oc.v1 as i128) * (r.b.v1 as i128)
            + (oc.v2 as i128) * (r.b.v2 as i128) + (oc.v3 as i128) * (r.b.v3 as i128);
        let c_e: i128 = (oc.v1 as i128) * (oc.v1 as i128) + (oc.v2 as i128) * (oc.v2 as i128)
            + (oc.v3 as i128) * (oc.v3 as i128)
            - (self.radius as i128) * (self.radius as i128);
        let disc: i128 = b_e * b_e - a_e * c_e;
        if disc > 0 {
            let sd_u: u128 = isqrt_u128(disc as u128);
            proof {
                assert(sd_u as int <= 0x800_0000_0000_0000_0000) by (nonlinear_arith)
                    requires
                        0 <= sd_u as int,
                        (sd_u as int) * (sd_u as int) <= disc as int,
                        disc as int <= 0x4b0_0000_0000_0000_0000_0000_0000_0000;
            }
            let sd: i128 = sd_u as i128;
            if let Some(t_n) = root_in_window(b_e, sd, a_e, t_min, t_max, true) {
                proof {
                    assert(t_n as int == sph_t_near(*self, *r));
                }
                fill_record(self, r, t_n, rec);
                return true;
            }
            if let Some(t_f) = root_in_window(b_e, sd, a_e, t_min, t_max, false) {
                proof {
                    assert(t_f as int == sph_t_far(*self, *r));
                }
                fill_record(self, r, t_f, rec);
                return true;
            }
        }
        false
    }
}

/// Evaluates one quadratic root `(-b -/+ sd) * FS / a` and accepts it only
/// strictly inside `(t_min, t_max)`.
fn root_in_window(b_e: i128, sd: i128, a_e: i128, t_min: i64, t_max: i64, near: bool)
    -> (t: Option<i64>)
    requires
        1 <= a_e <= 0xc00_0000_0000_0000,
        -0x1800_0000_0000_0000 <= b_e <= 0x1800_0000_0000_0000,
        0 <= sd <= 0x800_0000_0000_0000_0000,
    ensures
        ({
            let num = if near { -b_e - sd } else { -b_e + sd };
            let tv = fxdiv(num as int, a_e as int);
            match t {
                Some(tt) => t_min < tv < t_max && tt == tv,
                None => !(t_min < tv < t_max),
            }
        }),
{
    let num: i128 = if near { -b_e - sd } else { -b_e + sd };
    proof {
        lemma_mul_abs_bound(num as int, FS as int, 0x1000_0000_0000_0000_0000, FS as int);
        assert(FS as int == 0x100000);
        assert(0x1000_0000_0000_0000_0000 * 0x100000int
            == 0x1_0000_0000_0000_0000_0000_0000) by (nonlinear_arith);
        assert(0x1_0000_0000_0000_0000_0000_0000int
            <= 0x1_0000_0000_0000_0000_0000_0000 * a_e as int) by (nonlinear_arith)
            requires 1 <= a_e as int;
        lemma_div_range(num as int * (FS as int), a_e as int,
            0x1_0000_0000_0000_0000_0000_0000);
    }
    let scaled: i128 = num * (FS as i128);
    let tq: i128 = match scaled.checked_div_euclid(a_e) {
        Some(q) => q,
        None => 0,
    };
    if (t_min as i128) < tq && tq < (t_max as i128) {
        Some(tq as i64)
    } else {
        None
    }
}

/// Writes the accepted parameter, the hit point, the outward normal and
/// the material into the record.
fn fill_record(s: &Sphere, r: &Ray, t: i64, rec: &mut HitRecord)
    requires
        s.wf(),
        bounded(r.a, COORD_MAX as int),
        bounded(r.b, COORD_MAX as int),
        -T_CAP < t < T_CAP,
    ensures
        rec_matches(*final(rec), sphere_hit_data(*s, *r, t as int)),
{
    proof {
        lemma_mul_abs_bound(t as int, r.b.v1 as int, 0x4000_0000, 0x2000_0000);
        lemma_mul_abs_bound(t as int, r.b.v2 as int, 0x4000_0000, 0x2000_0000);
        lemma_mul_abs_bound(t as int, r.b.v3 as int, 0x4000_0000, 0x2000_0000);
        assert(FS as int == 0x100000);
        assert(0x4000_0000 * 0x2000_0000int == 0x80_0000_0000 * 0x100000int)
            by (nonlinear_arith);
        lemma_div_range(t as int * (r.b.v1 as int), FS as int, 0x80_0000_0000);
        lemma_div_range(t as int * (r.b.v2 as int), FS as int, 0x80_0000_0000);
        lemma_div_range(t as int * (r.b.v3 as int), FS as int, 0x80_0000_0000);
    }
    let p = (*r).point_at_parameter(t);
    let pc = p.sub(s.center);
    let n = pc.div_s(s.radius);
    rec.t = t;
    rec.p = p;
    rec.normal = n;
    rec.material = s.material;
}

} // verus!
