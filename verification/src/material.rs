//! Surface materials and their scattering rules.
//!
//! The scattering protocol is a closed set of three variants dispatched
//! through the `Material` sum type: diffuse, metallic and dielectric.

use vstd::prelude::*;
use crate::fixed::{FS, fxmul, fxdiv, sqrt_floor, fx_mul, fx_div, fx_sqrt,
    lemma_mul_abs_bound, lemma_div_range};
use vstd::arithmetic::div_mod::{lemma_div_multiples_vanish, lemma_div_is_ordered, lemma_div_pos_is_pos};
use crate::vec3::{Vec3, dot3, bounded, COORD_MAX, OP_MAX};
use crate::ray::Ray;
use crate::hittable::HitRecord;
use crate::rng::{RandomSource, random_unit, random_in_unit_sphere};

verus! {

/// Each channel of a color lies in the unit interval `[0, FS]`.
pub open spec fn color_ok(v: Vec3) -> bool {
    0 <= v.v1 <= FS && 0 <= v.v2 <= FS && 0 <= v.v3 <= FS
}

/// A diffuse surface: scatters into the unit sphere about the normal.
#[derive(Debug, Clone, Copy, PartialEq, Eq, Structural)]
pub struct Lambertian {
    pub albedo: Vec3,
}

impl Lambertian {
    pub fn new(v: Vec3) -> (r: Lambertian)
        ensures
            r.albedo == v,
    {
        Lambertian { albedo: v }
    }
}

/// A metallic surface: mirror reflection blurred by `fuzz`.
#[derive(Debug, Clone, Copy, PartialEq, Eq, Structural)]
pub struct Metal {
    pub albedo: Vec3,
    pub fuzz: i64,
}

impl Metal {
    /// Clamps the blur radius into the unit interval `[0, 1]`, as the
    /// scattering rule assumes.
    pub fn new(v: Vec3, f: i64) -> (r: Metal)
        ensures
            r.albedo == v,
            r.fuzz == if f < 0 { 0int } else if f < FS { f as int } else { FS as int },
            0 <= r.fuzz <= FS,
    {
        let fuzz: i64 = if f < 0 { 0 } else if f < FS { f } else { FS };
        Metal { albedo: v, fuzz }
    }
}

/// A clear refracting surface with the given refractive index.
#[derive(Debug, Clone, Copy, PartialEq, Eq, Structural)]
pub struct Dielectric {
    pub ref_idx: i64,
}

impl Dielectric {
    pub fn new(r: i64) -> (d: Dielectric)
        ensures
            d.ref_idx == r,
    {
        Dielectric { ref_idx: r }
    }
}

/// The closed set of materials a primitive can carry.
#[derive(Debug, Clone, Copy, PartialEq, Eq, Structural)]
pub enum Material {
    Lambertian(Lambertian),
    Metal(Metal),
    Dielectric(Dielectric),
}

impl Material {
    /// The data invariant of a material: albedos are colors in the unit
    /// cube, blur lies in the unit interval, the refractive index lies
    /// between a sixteenth and sixteen — the supported envelope of the
    /// fixed-point refraction arithmetic, covering every physical
    /// medium with room to spare.
    pub open spec fn valid(self) -> bool {
        match self {
            Material::Lambertian(l) => color_ok(l.albedo),
            Material::Metal(m) => color_ok(m.albedo) && 0 <= m.fuzz <= FS,
            Material::Dielectric(d) => 0x10000 <= d.ref_idx <= 16 * (FS as int),
        }
    }
}

/// Unit-vector coordinates of `v`: each coordinate divided by the floor
/// length (see `Vec3::unit_vector`).
pub open spec fn uv1(v: Vec3) -> int {
    fxdiv(v.v1 as int, sqrt_floor(dot3(v, v)))
}

pub open spec fn uv2(v: Vec3) -> int {
    fxdiv(v.v2 as int, sqrt_floor(dot3(v, v)))
}

pub open spec fn uv3(v: Vec3) -> int {
    fxdiv(v.v3 as int, sqrt_floor(dot3(v, v)))
}

/// The scaled dot product of coordinates `(u1, u2, u3)` with `n`.
pub open spec fn refl_dot(u1: int, u2: int, u3: int, n: Vec3) -> int {
    (u1 * n.v1 + u2 * n.v2 + u3 * n.v3) / (FS as int)
}

/// Mirror reflection about `n`, first coordinate:
/// `u - 2 * dot(u, n) * n`.
pub open spec fn refl1(u1: int, u2: int, u3: int, n: Vec3) -> int {
    u1 - fxmul(n.v1 as int, 2 * refl_dot(u1, u2, u3, n))
}

pub open spec fn refl2(u1: int, u2: int, u3: int, n: Vec3) -> int {
    u2 - fxmul(n.v2 as int, 2 * refl_dot(u1, u2, u3, n))
}

pub open spec fn refl3(u1: int, u2: int, u3: int, n: Vec3) -> int {
    u3 - fxmul(n.v3 as int, 2 * refl_dot(u1, u2, u3, n))
}

/// Mirror-reflects `v` (already unit scale) about the normal `n`.
pub fn reflect(v: &Vec3, n: &Vec3) -> (r: Vec3)
    requires
        bounded(*v, 4 * (FS as int)),
        bounded(*n, 4 * (FS as int)),
    ensures
        r.v1 == refl1(v.v1 as int, v.v2 as int, v.v3 as int, *n),
        r.v2 == refl2(v.v1 as int, v.v2 as int, v.v3 as int, *n),
        r.v3 == refl3(v.v1 as int, v.v2 as int, v.v3 as int, *n),
        bounded(r, COORD_MAX as int),
{
    proof {
        assert(FS as int == 0x100000);
        lemma_mul_abs_bound(v.v1 as int, n.v1 as int, 0x400000, 0x400000);
        lemma_mul_abs_bound(v.v2 as int, n.v2 as int, 0x400000, 0x400000);
        lemma_mul_abs_bound(v.v3 as int, n.v3 as int, 0x400000, 0x400000);
        assert(0x400000 * 0x400000int * 3 == 0x3000000 * 0x100000int) by (nonlinear_arith);
        lemma_div_range(dot3(*v, *n), FS as int, 0x3000000);
    }
    let d: i64 = Vec3::dot(v, n);
    let two_d: i64 = 2 * d;
    let nd = n.mul_s(two_d);
    proof {
        lemma_mul_abs_bound(n.v1 as int, two_d as int, 0x400000, 0x6000000);
        lemma_mul_abs_bound(n.v2 as int, two_d as int, 0x400000, 0x6000000);
        lemma_mul_abs_bound(n.v3 as int, two_d as int, 0x400000, 0x6000000);
        assert(0x400000 * 0x6000000int == 0x18000000 * 0x100000int) by (nonlinear_arith);
        lemma_div_range(n.v1 as int * two_d as int, FS as int, 0x18000000);
        lemma_div_range(n.v2 as int * two_d as int, FS as int, 0x18000000);
        lemma_div_range(n.v3 as int * two_d as int, FS as int, 0x18000000);
    }
    v.sub(nd)
}

/// The scaled dot of the unit of `v` with the outward normal coordinates.
pub open spec fn refr_dt(v: Vec3, o1: int, o2: int, o3: int) -> int {
    (uv1(v) * o1 + uv2(v) * o2 + uv3(v) * o3) / (FS as int)
}

/// Snell's-law discriminant `1 - ni^2 * (1 - dt^2)` at fixed-point scale.
pub open spec fn refr_disc(v: Vec3, o1: int, o2: int, o3: int, ni: int) -> int {
    (FS as int) - fxmul(fxmul(ni, ni), (FS as int) - fxmul(refr_dt(v, o1, o2, o3), refr_dt(v, o1, o2, o3)))
}

/// The refracted direction `ni*(uv - n*dt) - n*sqrt(disc)`, coordinates.
pub open spec fn refr_d1(v: Vec3, o1: int, o2: int, o3: int, ni: int) -> int {
    fxmul(uv1(v) - fxmul(o1, refr_dt(v, o1, o2, o3)), ni)
        - fxmul(o1, sqrt_floor(refr_disc(v, o1, o2, o3, ni) * (FS as int)))
}

pub open spec fn refr_d2(v: Vec3, o1: int, o2: int, o3: int, ni: int) -> int {
    fxmul(uv2(v) - fxmul(o2, refr_dt(v, o1, o2, o3)), ni)
        - fxmul(o2, sqrt_floor(refr_disc(v, o1, o2, o3, ni) * (FS as int)))
}

pub open spec fn refr_d3(v: Vec3, o1: int, o2: int, o3: int, ni: int) -> int {
    fxmul(uv3(v) - fxmul(o3, refr_dt(v, o1, o2, o3)), ni)
        - fxmul(o3, sqrt_floor(refr_disc(v, o1, o2, o3, ni) * (FS as int)))
}

/// Refraction by Snell's law: succeeds exactly when the discriminant is
/// positive (otherwise total internal reflection), and then writes the
/// refracted direction.
pub fn refract(v: &Vec3, n: &Vec3, ni_over_nt: i64, refracted: &mut Vec3) -> (b: bool)
    requires
        bounded(*v, COORD_MAX as int),
        dot3(*v, *v) > 0,
        bounded(*n, 4 * (FS as int)),
        0 < ni_over_nt <= 16 * (FS as int),
    ensures
        b == (refr_disc(*v, n.v1 as int, n.v2 as int, n.v3 as int, ni_over_nt as int) > 0),
        b ==> final(refracted).v1 == refr_d1(*v, n.v1 as int, n.v2 as int, n.v3 as int, ni_over_nt as int),
        b ==> final(refracted).v2 == refr_d2(*v, n.v1 as int, n.v2 as int, n.v3 as int, ni_over_nt as int),
        b ==> final(refracted).v3 == refr_d3(*v, n.v1 as int, n.v2 as int, n.v3 as int, ni_over_nt as int),
        b ==> bounded(*final(refracted), 0x1_0000_0000),
        !b ==> *final(refracted) == *old(refracted),
{
    let uv = Vec3::unit_vector(*v);
    proof {
        assert(FS as int == 0x100000);
        lemma_mul_abs_bound(uv.v1 as int, n.v1 as int, 0x200000, 0x400000);
        lemma_mul_abs_bound(uv.v2 as int, n.v2 as int, 0x200000, 0x400000);
        lemma_mul_abs_bound(uv.v3 as int, n.v3 as int, 0x200000, 0x400000);
        assert(0x200000 * 0x400000int * 3 == 0x1800000 * 0x100000int) by (nonlinear_arith);
        lemma_div_range(dot3(uv, *n), FS as int, 0x1800000);
    }
    let dt: i64 = Vec3::dot(&uv, n);
    proof {
        lemma_mul_abs_bound(dt as int, dt as int, 0x1800000, 0x1800000);
        assert(0x1800000 * 0x1800000int == 0x2400_0000 * 0x100000int) by (nonlinear_arith);
        lemma_div_range(dt as int * dt as int, FS as int, 0x2400_0000);
    }
    let d2: i64 = fx_mul(dt, dt);
    proof {
        crate::vec3::lemma_sq_nonneg(dt as int);
        lemma_div_pos_is_pos(dt as int * dt as int, FS as int);
        lemma_mul_abs_bound(ni_over_nt as int, ni_over_nt as int, 0x1000000, 0x1000000);
        assert(0x1000000 * 0x1000000int == 0x1000_0000 * 0x100000int) by (nonlinear_arith);
        lemma_div_range(ni_over_nt as int * ni_over_nt as int, FS as int, 0x1000_0000);
    }
    let ni2: i64 = fx_mul(ni_over_nt, ni_over_nt);
    proof {
        lemma_mul_abs_bound(ni2 as int, FS as int - d2 as int, 0x1000_0000, 0x2400_0000);
        assert(0x1000_0000 * 0x2400_0000int == 0x24_0000_0000 * 0x100000int) by (nonlinear_arith);
        lemma_div_range(ni2 as int * (FS as int - d2 as int), FS as int, 0x24_0000_0000);
    }
    let k: i64 = fx_mul(ni2, FS - d2);
    let disc: i64 = FS - k;
    if disc > 0 {
        let sd: i64 = fx_sqrt(disc);
        proof {
            lemma_mul_abs_bound(disc as int, FS as int, 0x25_0000_0000, FS as int);
            assert(0x25_0000_0000 * 0x100000int < 0x2000_0000 * 0x2000_0000int)
                by (nonlinear_arith);
            assert(sd as int <= 0x2000_0000) by (nonlinear_arith)
                requires
                    0 <= sd as int,
                    (sd as int) * (sd as int) <= disc as int * (FS as int),
                    disc as int * (FS as int) < 0x2000_0000 * 0x2000_0000int;
        }
        let ond = n.mul_s(dt);
        proof {
            lemma_mul_abs_bound(n.v1 as int, dt as int, 0x400000, 0x1800000);
            lemma_mul_abs_bound(n.v2 as int, dt as int, 0x400000, 0x1800000);
            lemma_mul_abs_bound(n.v3 as int, dt as int, 0x400000, 0x1800000);
            assert(0x400000 * 0x1800000int == 0x6000000 * 0x100000int) by (nonlinear_arith);
            lemma_div_range(n.v1 as int * dt as int, FS as int, 0x6000000);
            lemma_div_range(n.v2 as int * dt as int, FS as int, 0x6000000);
            lemma_div_range(n.v3 as int * dt as int, FS as int, 0x6000000);
        }
        let inner = uv.sub(ond);
        let part1 = inner.mul_s(ni_over_nt);
        proof {
            lemma_mul_abs_bound(inner.v1 as int, ni_over_nt as int, 0x6300000, 0x1000000);
            lemma_mul_abs_bound(inner.v2 as int, ni_over_nt as int, 0x6300000, 0x1000000);
            lemma_mul_abs_bound(inner.v3 as int, ni_over_nt as int, 0x6300000, 0x1000000);
            assert(0x6300000 * 0x1000000int == 0x6300_0000 * 0x100000int) by (nonlinear_arith);
            lemma_div_range(inner.v1 as int * ni_over_nt as int, FS as int, 0x6300_0000);
            lemma_div_range(inner.v2 as int * ni_over_nt as int, FS as int, 0x6300_0000);
            lemma_div_range(inner.v3 as int * ni_over_nt as int, FS as int, 0x6300_0000);
        }
        let osd = n.mul_s(sd);
        proof {
            lemma_mul_abs_bound(n.v1 as int, sd as int, 0x400000, 0x2000_0000);
            lemma_mul_abs_bound(n.v2 as int, sd as int, 0x400000, 0x2000_0000);
            lemma_mul_abs_bound(n.v3 as int, sd as int, 0x400000, 0x2000_0000);
            assert(0x400000 * 0x2000_0000int == 0x8000_0000 * 0x100000int) by (nonlinear_arith);
            lemma_div_range(n.v1 as int * sd as int, FS as int, 0x8000_0000);
            lemma_div_range(n.v2 as int * sd as int, FS as int, 0x8000_0000);
            lemma_div_range(n.v3 as int * sd as int, FS as int, 0x8000_0000);
        }
        *refracted = part1.sub(osd);
        true
    } else {
        false
    }
}

/// The Schlick quotient `(1 - n) / (1 + n)`, a fixed-point scalar.
pub open spec fn schlick_q(ref_idx: int) -> int {
    fxdiv((FS as int) - ref_idx, (FS as int) + ref_idx)
}

/// The Schlick reflectance approximation
/// `r0 + (1 - r0) * (1 - cosine)^5` with `r0 = ((1 - n)/(1 + n))^2`.
pub open spec fn schlick_spec(cosine: int, ref_idx: int) -> int {
    let r0 = fxmul(schlick_q(ref_idx), schlick_q(ref_idx));
    let omc = (FS as int) - cosine;
    let p5 = fxmul(fxmul(fxmul(omc, omc), fxmul(omc, omc)), omc);
    r0 + fxmul((FS as int) - r0, p5)
}

/// A fixed-point product with a factor in `[0, 1]` shrinks a nonnegative
/// value toward zero.
pub proof fn lemma_fxmul_scale_down(a: int, b: int)
    requires
        0 <= a,
        0 <= b <= FS as int,
    ensures
        0 <= fxmul(a, b) <= a,
{
    assert(0 <= a * b && a * b <= a * (FS as int)) by (nonlinear_arith)
        requires 0 <= a, 0 <= b <= FS as int;
    lemma_div_pos_is_pos(a * b, FS as int);
    lemma_div_is_ordered(a * b, a * (FS as int), FS as int);
    lemma_div_multiples_vanish(a, FS as int);
    assert((FS as int) * a == a * (FS as int)) by (nonlinear_arith);
}

/// Probabilistic reflectance at a dielectric boundary, by the Schlick
/// approximation; for a cosine in the unit interval the value is a
/// probability in `[0, 1]`.
pub fn schlick(cosine: i64, ref_idx: i64) -> (r: i64)
    requires
        -(2 * (FS as int)) <= cosine <= 2 * (FS as int),
        0 < ref_idx <= 16 * (FS as int),
    ensures
        r == schlick_spec(cosine as int, ref_idx as int),
        0 <= cosine <= FS ==> 0 <= r <= FS,
{
    proof {
        assert(FS as int == 0x100000);
        let num = (FS as int - ref_idx as int) * (FS as int);
        assert(-((FS as int) * ((FS as int) + ref_idx as int)) <= num
            && num <= (FS as int) * ((FS as int) + ref_idx as int)) by (nonlinear_arith)
            requires
                0 < ref_idx as int,
                num == ((0x100000int) - ref_idx as int) * 0x100000int,
                FS as int == 0x100000;
        lemma_div_range(num, FS as int + ref_idx as int, FS as int);
    }
    let q: i64 = fx_div(FS - ref_idx, FS + ref_idx);
    proof {
        lemma_mul_abs_bound(q as int, q as int, FS as int, FS as int);
        assert(0x100000 * 0x100000int == 0x100000 * 0x100000) by (nonlinear_arith);
        lemma_div_range(q as int * q as int, FS as int, FS as int);
        crate::vec3::lemma_sq_nonneg(q as int);
        lemma_div_pos_is_pos(q as int * q as int, FS as int);
    }
    let r0: i64 = fx_mul(q, q);
    let omc: i64 = FS - cosine;
    proof {
        lemma_mul_abs_bound(omc as int, omc as int, 0x300000, 0x300000);
        assert(0x300000 * 0x300000int == 0x900000 * 0x100000int) by (nonlinear_arith);
        lemma_div_range(omc as int * omc as int, FS as int, 0x900000);
    }
    let p2: i64 = fx_mul(omc, omc);
    proof {
        lemma_mul_abs_bound(p2 as int, p2 as int, 0x900000, 0x900000);
        assert(0x900000 * 0x900000int == 0x5100000 * 0x100000int) by (nonlinear_arith);
        lemma_div_range(p2 as int * p2 as int, FS as int, 0x5100000);
    }
    let p4: i64 = fx_mul(p2, p2);
    proof {
        lemma_mul_abs_bound(p4 as int, omc as int, 0x5100000, 0x300000);
        assert(0x5100000 * 0x300000int == 0xf300000 * 0x100000int) by (nonlinear_arith);
        lemma_div_range(p4 as int * omc as int, FS as int, 0xf300000);
    }
    let p5: i64 = fx_mul(p4, omc);
    proof {
        lemma_mul_abs_bound(FS as int - r0 as int, p5 as int, 0x100000, 0xf300000);
        assert(0x100000 * 0xf300000int == 0xf300000 * 0x100000int) by (nonlinear_arith);
        lemma_div_range((FS as int - r0 as int) * p5 as int, FS as int, 0xf300000);
        if 0 <= cosine as int <= FS as int {
            lemma_fxmul_scale_down(omc as int, omc as int);
            lemma_fxmul_scale_down(p2 as int, p2 as int);
            lemma_fxmul_scale_down(p4 as int, omc as int);
            lemma_fxmul_scale_down(FS as int - r0 as int, p5 as int);
        }
    }
    r0 + fx_mul(FS - r0, p5)
}

/// The scattered direction of a diffuse bounce lies strictly inside the
/// unit ball centered at the normal.
pub open spec fn diffuse_dir_ok(d: Vec3, n: Vec3) -> bool {
    let q1 = d.v1 - n.v1;
    let q2 = d.v2 - n.v2;
    let q3 = d.v3 - n.v3;
    q1 * q1 + q2 * q2 + q3 * q3 < (FS as int) * (FS as int)
}

/// The scattered direction of a metallic bounce is the mirror reflection
/// of the unit incoming direction, perturbed by `fuzz` times some point
/// of the unit ball.
pub open spec fn metal_dir_ok(d: Vec3, din: Vec3, n: Vec3, fuzz: int) -> bool {
    exists|q: Vec3|
        #![auto]
        dot3(q, q) < (FS as int) * (FS as int)
            && d.v1 == refl1(uv1(din), uv2(din), uv3(din), n) + fxmul(q.v1 as int, fuzz)
            && d.v2 == refl2(uv1(din), uv2(din), uv3(din), n) + fxmul(q.v2 as int, fuzz)
            && d.v3 == refl3(uv1(din), uv2(din), uv3(din), n) + fxmul(q.v3 as int, fuzz)
}

/// The scattered direction of a dielectric bounce is either the mirror
/// reflection of the unit incoming direction, or the Snell refraction
/// through the outward-facing side of the surface.
pub open spec fn dielectric_dir_ok(d: Vec3, din: Vec3, n: Vec3, ref_idx: int) -> bool {
    let exiting = dot3(din, n) > 0;
    let o1 = if exiting { -(n.v1 as int) } else { n.v1 as int };
    let o2 = if exiting { -(n.v2 as int) } else { n.v2 as int };
    let o3 = if exiting { -(n.v3 as int) } else { n.v3 as int };
    let ni = if exiting { ref_idx } else { fxdiv(FS as int, ref_idx) };
    (d.v1 == refl1(uv1(din), uv2(din), uv3(din), n)
        && d.v2 == refl2(uv1(din), uv2(din), uv3(din), n)
        && d.v3 == refl3(uv1(din), uv2(din), uv3(din), n))
    || (refr_disc(din, o1, o2, o3, ni) > 0
        && d.v1 == refr_d1(din, o1, o2, o3, ni)
        && d.v2 == refr_d2(din, o1, o2, o3, ni)
        && d.v3 == refr_d3(din, o1, o2, o3, ni))
}

/// `x * (-1)` at fixed-point scale is the exact negation.
proof fn lemma_fxmul_neg_unit(x: int)
    ensures
        fxmul(x, -(FS as int)) == -x,
{
    assert(x * (-(FS as int)) == (FS as int) * (-x)) by (nonlinear_arith);
    lemma_div_multiples_vanish(-x, FS as int);
}

/// The componentwise negation, a scaling by minus one.
fn negated(v: &Vec3) -> (r: Vec3)
    requires
        bounded(*v, OP_MAX as int),
    ensures
        r.v1 == -(v.v1 as int),
        r.v2 == -(v.v2 as int),
        r.v3 == -(v.v3 as int),
{
    proof {
        lemma_fxmul_neg_unit(v.v1 as int);
        lemma_fxmul_neg_unit(v.v2 as int);
        lemma_fxmul_neg_unit(v.v3 as int);
    }
    v.mul_s(-FS)
}

impl Lambertian {
    /// Diffuse scattering: bounce from the hit point toward the normal
    /// plus a random point of the unit ball; attenuation is the albedo
    /// itself, and the bounce always succeeds.
    pub fn scatter(
        &self,
        _r_in: &Ray,
        rec: &HitRecord,
        attenuation: &mut Vec3,
        scattered: &mut Ray,
        src: &mut RandomSource,
    ) -> (b: bool)
        requires
            bounded(rec.p, COORD_MAX as int),
            bounded(rec.normal, 4 * (FS as int)),
        ensures
            b,
            *final(attenuation) == self.albedo,
            final(scattered).a == rec.p,
            diffuse_dir_ok(final(scattered).b, rec.normal),
    {
        let rnd = random_in_unit_sphere(src);
        let target = rec.p.add(rec.normal).add(rnd);
        let dir = target.sub(rec.p);
        *scattered = Ray::new(&rec.p, &dir);
        *attenuation = self.albedo;
        true
    }
}

impl Metal {
    /// Metallic scattering: mirror-reflect the unit incoming direction,
    /// blur it by `fuzz`, and absorb the ray whenever the result points
    /// into the surface (its exact dot product with the normal is not
    /// positive).
    pub fn scatter(
        &self,
        r_in: &Ray,
        rec: &HitRecord,
        attenuation: &mut Vec3,
        scattered: &mut Ray,
        src: &mut RandomSource,
    ) -> (b: bool)
        requires
            bounded(r_in.b, COORD_MAX as int),
            dot3(r_in.b, r_in.b) > 0,
            bounded(rec.p, COORD_MAX as int),
            bounded(rec.normal, 4 * (FS as int)),
            0 <= self.fuzz <= FS,
        ensures
            *final(attenuation) == self.albedo,
            final(scattered).a == rec.p,
            b == (dot3(final(scattered).b, rec.normal) > 0),
            metal_dir_ok(final(scattered).b, r_in.b, rec.normal, self.fuzz as int),
    {
        let unit = Vec3::unit_vector(r_in.direction());
        let reflected = reflect(&unit, &rec.normal);
        let rnd = random_in_unit_sphere(src);
        proof {
            assert(FS as int == 0x100000);
            lemma_mul_abs_bound(rnd.v1 as int, self.fuzz as int, 0x100000, 0x100000);
            lemma_mul_abs_bound(rnd.v2 as int, self.fuzz as int, 0x100000, 0x100000);
            lemma_mul_abs_bound(rnd.v3 as int, self.fuzz as int, 0x100000, 0x100000);
            assert(0x100000 * 0x100000int == 0x100000 * 0x100000) by (nonlinear_arith);
            lemma_div_range(rnd.v1 as int * self.fuzz as int, FS as int, 0x100000);
            lemma_div_range(rnd.v2 as int * self.fuzz as int, FS as int, 0x100000);
            lemma_div_range(rnd.v3 as int * self.fuzz as int, FS as int, 0x100000);
        }
        let fuzzed = rnd.mul_s(self.fuzz);
        let dir = reflected.add(fuzzed);
        *scattered = Ray::new(&rec.p, &dir);
        *attenuation = self.albedo;
        let de = Vec3::dot_exact(&dir, &rec.normal);
        proof {
            assert(dot3(rnd, rnd) < (FS as int) * (FS as int)
                && dir.v1 == refl1(uv1(r_in.b), uv2(r_in.b), uv3(r_in.b), rec.normal)
                    + fxmul(rnd.v1 as int, self.fuzz as int)
                && dir.v2 == refl2(uv1(r_in.b), uv2(r_in.b), uv3(r_in.b), rec.normal)
                    + fxmul(rnd.v2 as int, self.fuzz as int)
                && dir.v3 == refl3(uv1(r_in.b), uv2(r_in.b), uv3(r_in.b), rec.normal)
                    + fxmul(rnd.v3 as int, self.fuzz as int));
        }
        de > 0
    }
}

impl Dielectric {
    /// Dielectric scattering: choose the side being crossed from the
    /// sign of the exact dot product, refract when Snell's discriminant
    /// allows it, and pick reflection with the Schlick probability (the
    /// cosine is clamped into the unit interval before the lookup, a
    /// numeric guard for geometrically impossible inputs). Attenuation
    /// is always pure white and the bounce always succeeds.
    pub fn scatter(
        &self,
        r_in: &Ray,
        rec: &HitRecord,
        attenuation: &mut Vec3,
        scattered: &mut Ray,
        src: &mut RandomSource,
    ) -> (b: bool)
        requires
            bounded(r_in.b, COORD_MAX as int),
            dot3(r_in.b, r_in.b) > 0,
            bounded(rec.p, COORD_MAX as int),
            bounded(rec.normal, 2 * (FS as int)),
            0x10000 <= self.ref_idx <= 16 * (FS as int),
        ensures
            b,
            final(attenuation).v1 == FS,
            final(attenuation).v2 == FS,
            final(attenuation).v3 == FS,
            final(scattered).a == rec.p,
            dielectric_dir_ok(final(scattered).b, r_in.b, rec.normal, self.ref_idx as int),
    {
        let unit = Vec3::unit_vector(r_in.direction());
        let reflected = reflect(&unit, &rec.normal);
        *attenuation = Vec3::new(FS, FS, FS);
        let mut refracted = Vec3::new(0, 0, 0);
        let de: i64 = Vec3::dot_exact(&r_in.direction(), &rec.normal);
        let exiting: bool = de > 0;
        let outward: Vec3;
        let ni: i64;
        if exiting {
            outward = negated(&rec.normal);
            ni = self.ref_idx;
        } else {
            outward = rec.normal;
            proof {
                assert(FS as int == 0x100000);
                assert(0x100000 * 0x100000int <= 0x100000 * 0x100000 * self.ref_idx as int
                    && -(0x100000 * 0x100000 * self.ref_idx as int) <= 0x100000 * 0x100000int)
                    by (nonlinear_arith)
                    requires self.ref_idx as int >= 1;
                lemma_div_range(0x100000 * 0x100000int, self.ref_idx as int,
                    0x100000int * 0x100000int);
                assert((0x100000int * 0x100000int) / (self.ref_idx as int) >= 1)
                    by (nonlinear_arith)
                    requires 1 <= self.ref_idx as int <= 0x1000000;
            }
            ni = fx_div(FS, self.ref_idx);
            proof {
                vstd::arithmetic::div_mod::lemma_div_by_self(self.ref_idx as int);
                vstd::arithmetic::div_mod::lemma_div_is_ordered(
                    self.ref_idx as int, 0x100000int * 0x100000int, self.ref_idx as int);
                vstd::arithmetic::div_mod::lemma_div_is_ordered_by_denominator(
                    0x100000int * 0x100000int, 0x10000, self.ref_idx as int);
                lemma_div_multiples_vanish(0x1000000, 0x10000);
                assert(0x10000 * 0x1000000int == 0x100000int * 0x100000int) by (nonlinear_arith);
            }
        }
        let has_refract = refract(&r_in.direction(), &outward, ni, &mut refracted);
        proof {
            if exiting {
                assert(outward.v1 == -(rec.normal.v1 as int));
            }
        }
        let len: i64 = r_in.direction().length();
        proof {
            if len as int == 0 {
                assert((len as int + 1) * (len as int + 1) == 1) by (nonlinear_arith)
                    requires len as int == 0;
                assert(false);
            }
            assert(FS as int == 0x100000);
            lemma_mul_abs_bound(r_in.b.v1 as int, rec.normal.v1 as int, 0x2000_0000, 0x200000);
            lemma_mul_abs_bound(r_in.b.v2 as int, rec.normal.v2 as int, 0x2000_0000, 0x200000);
            lemma_mul_abs_bound(r_in.b.v3 as int, rec.normal.v3 as int, 0x2000_0000, 0x200000);
            assert(0x2000_0000 * 0x200000int * 3 == 0xc000_0000 * 0x100000int) by (nonlinear_arith);
            lemma_div_range(dot3(r_in.b, rec.normal), FS as int, 0xc000_0000);
        }
        let ds: i64 = Vec3::dot(&r_in.direction(), &rec.normal);
        proof {
            lemma_mul_abs_bound(ds as int, FS as int, 0xc000_0000, FS as int);
            assert(0xc000_0000 * 0x100000int <= 0xc000_0000 * 0x100000 * len as int
                && -(0xc000_0000 * 0x100000 * len as int) <= -(0xc000_0000 * 0x100000int))
                by (nonlinear_arith)
                requires len as int >= 1;
            lemma_div_range(ds as int * (FS as int), len as int, 0xc000_0000int * 0x100000int);
            lemma_div_range(-(ds as int) * (FS as int), len as int, 0xc000_0000int * 0x100000int);
            lemma_mul_abs_bound(-(ds as int), FS as int, 0xc000_0000, FS as int);
        }
        let cosine_raw: i64 = if exiting {
            fx_div(ds, len)
        } else {
            fx_div(-ds, len)
        };
        let cosine: i64 = if cosine_raw > FS {
            FS
        } else if cosine_raw < -FS {
            -FS
        } else {
            cosine_raw
        };
        let reflect_prob: i64 = if has_refract {
            schlick(cosine, self.ref_idx)
        } else {
            FS
        };
        let u: i64 = random_unit(src);
        if u < reflect_prob {
            *scattered = Ray::new(&rec.p, &reflected);
        } else {
            *scattered = Ray::new(&rec.p, &refracted);
        }
        true
    }
}

/// What one scattering step guarantees, by material kind: the diffuse
/// and metallic attenuations are exactly the albedo, the dielectric
/// attenuation is exactly white, the scattered ray starts at the hit
/// point, and its direction obeys the kind's geometric rule; a metallic
/// bounce succeeds exactly when the blurred reflection leaves the
/// surface, the other two always succeed.
pub open spec fn scatter_post(
    m: Material,
    r_in: Ray,
    rec: HitRecord,
    att: Vec3,
    out: Ray,
    b: bool,
) -> bool {
    match m {
        Material::Lambertian(l) => b && att == l.albedo && out.a == rec.p
            && diffuse_dir_ok(out.b, rec.normal),
        Material::Metal(mt) => att == mt.albedo && out.a == rec.p
            && b == (dot3(out.b, rec.normal) > 0)
            && metal_dir_ok(out.b, r_in.b, rec.normal, mt.fuzz as int),
        Material::Dielectric(d) => b && att.v1 == FS && att.v2 == FS && att.v3 == FS
            && out.a == rec.p
            && dielectric_dir_ok(out.b, r_in.b, rec.normal, d.ref_idx as int),
    }
}

impl Material {
    /// Dispatches the scattering protocol over the closed variant set.
    pub fn scatter(
        &self,
        r_in: &Ray,
        rec: &HitRecord,
        attenuation: &mut Vec3,
        scattered: &mut Ray,
        src: &mut RandomSource,
    ) -> (b: bool)
        requires
            self.valid(),
            bounded(r_in.b, COORD_MAX as int),
            dot3(r_in.b, r_in.b) > 0,
            bounded(rec.p, COORD_MAX as int),
            bounded(rec.normal, 2 * (FS as int)),
        ensures
            scatter_post(*self, *r_in, *rec, *final(attenuation), *final(scattered), b),
    {
        match self {
            Material::Lambertian(l) => l.scatter(r_in, rec, attenuation, scattered, src),
            Material::Metal(m) => m.scatter(r_in, rec, attenuation, scattered, src),
            Material::Dielectric(d) => d.scatter(r_in, rec, attenuation, scattered, src),
        }
    }
}

} // verus!
