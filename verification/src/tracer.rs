//! The recursive radiance integrator: nearest hit, scatter, recurse;
//! black on absorption or depth exhaustion, the sky gradient on a miss.

use vstd::prelude::*;
use crate::fixed::{FS, fxmul, fx_mul, lemma_mul_abs_bound, lemma_div_range};
use crate::vec3::{Vec3, dot3, bounded, COORD_MAX};
use crate::ray::Ray;
use crate::sphere::Sphere;
use crate::hittable::{HitRecord, hit, scan_hit, lemma_scan_result};
use crate::material::{uv2, Material, lemma_fxmul_scale_down};
use vstd::arithmetic::div_mod::{lemma_div_multiples_vanish, lemma_div_is_ordered, lemma_div_pos_is_pos};
use crate::rng::RandomSource;

verus! {

/// The fixed recursion bound of the integrator.
pub const MAX_DEPTH: u32 = 50;

/// The self-intersection guard: secondary rays only count hits beyond
/// about a thousandth of a unit.
pub const T_MIN_EPS: i64 = 1048;

/// The far bound handed to the nearest-hit scan (the protocol's cap).
pub const T_MAX_TRACE: i64 = 0x4000_0000;

/// The vertical blend parameter of the sky gradient:
/// `0.5 * (unit_direction.y + 1)`.
pub open spec fn bg_t(r: Ray) -> int {
    fxmul(uv2(r.b) + FS, 0x80000)
}

/// The sky gradient `(1 - t) * white + t * (0.5, 0.7, 1.0)`, first channel.
pub open spec fn bg1(r: Ray) -> int {
    fxmul(FS as int, (FS as int) - bg_t(r)) + fxmul(0x80000, bg_t(r))
}

/// Second channel; `0.7` rounds to `734003` fixed-point steps.
pub open spec fn bg2(r: Ray) -> int {
    fxmul(FS as int, (FS as int) - bg_t(r)) + fxmul(734003, bg_t(r))
}

/// Third channel.
pub open spec fn bg3(r: Ray) -> int {
    fxmul(FS as int, (FS as int) - bg_t(r)) + fxmul(FS as int, bg_t(r))
}

/// All of a scene's spheres are within the intersection protocol's range.
pub open spec fn scene_ok(list: Seq<Sphere>) -> bool {
    forall|i: int| 0 <= i < list.len() ==> (#[trigger] list[i]).wf()
}

/// Whether a coordinate-wise bound holds, decided at run time.
fn in_range(v: &Vec3, m: i64) -> (b: bool)
    requires
        m >= 0,
    ensures
        b == bounded(*v, m as int),
{
    -m <= v.v1 && v.v1 <= m && -m <= v.v2 && v.v2 <= m && -m <= v.v3 && v.v3 <= m
}

/// If some coordinate is nonzero, the squared norm is positive.
proof fn lemma_dir_nonzero(v: Vec3)
    requires
        v.v1 != 0 || v.v2 != 0 || v.v3 != 0,
    ensures
        dot3(v, v) > 0,
{
    assert(v.v1 != 0 ==> v.v1 * v.v1 > 0) by (nonlinear_arith);
    assert(v.v2 != 0 ==> v.v2 * v.v2 > 0) by (nonlinear_arith);
    assert(v.v3 != 0 ==> v.v3 * v.v3 > 0) by (nonlinear_arith);
    crate::vec3::lemma_dot3_self(v);
}

/// Scaling a nonnegative value by a factor in the unit interval never
/// grows it.
proof fn lemma_fxmul_unit_factor(a: int, b: int)
    requires
        0 <= a <= FS as int,
        0 <= b,
    ensures
        0 <= fxmul(a, b) <= b,
{
    assert(0 <= a * b && a * b <= (FS as int) * b) by (nonlinear_arith)
        requires 0 <= a <= FS as int, 0 <= b;
    lemma_div_pos_is_pos(a * b, FS as int);
    lemma_div_is_ordered(a * b, (FS as int) * b, FS as int);
    lemma_div_multiples_vanish(b, FS as int);
}

/// The recursive radiance function. Once the configured depth is
/// reached it returns exactly black, before the scene is even queried;
/// below the limit a miss returns exactly the sky gradient, and a hit
/// scatters, recurses and attenuates, so every channel stays in the unit
/// interval and never exceeds the hit surface's own albedo channel.
/// Degenerate records (an absent material, a point or normal outside the
/// geometric range, a zero or out-of-range scattered direction) are
/// treated as absorbed, the explicit choice for the numeric edge cases
/// the rendering recursion cannot rule out.
pub fn color(r: &Ray, world: &Vec<Sphere>, depth: u32, src: &mut RandomSource) -> (c: Vec3)
    requires
        bounded(r.a, COORD_MAX as int),
        bounded(r.b, COORD_MAX as int),
        dot3(r.b, r.b) > 0,
        scene_ok(world@),
    ensures
        0 <= c.v1 <= FS,
        0 <= c.v2 <= FS,
        0 <= c.v3 <= FS,
        depth >= MAX_DEPTH ==> c.v1 == 0 && c.v2 == 0 && c.v3 == 0,
        (depth < MAX_DEPTH
            && scan_hit(world@, *r, T_MIN_EPS as int, T_MAX_TRACE as int, Option::None) is None)
            ==> c.v1 == bg1(*r) && c.v2 == bg2(*r) && c.v3 == bg3(*r),
        ({
            let res = scan_hit(world@, *r, T_MIN_EPS as int, T_MAX_TRACE as int, Option::None);
            res is Some ==> match res->Some_0.material {
                Option::Some(Material::Lambertian(l)) =>
                    c.v1 <= l.albedo.v1 && c.v2 <= l.albedo.v2 && c.v3 <= l.albedo.v3,
                Option::Some(Material::Metal(mt)) =>
                    c.v1 <= mt.albedo.v1 && c.v2 <= mt.albedo.v2 && c.v3 <= mt.albedo.v3,
                _ => true,
            }
        }),
    decreases (if depth < MAX_DEPTH { (MAX_DEPTH - depth) as int } else { 0int }),
{
    proof {
        lemma_scan_result(world@, *r, T_MIN_EPS as int, T_MAX_TRACE as int, Option::None);
    }
    if depth >= MAX_DEPTH {
        return Vec3 { v1: 0, v2: 0, v3: 0 };
    }
    let mut rec = HitRecord {
        t: 0,
        p: Vec3 { v1: 0, v2: 0, v3: 0 },
        normal: Vec3 { v1: 0, v2: 0, v3: 0 },
        material: None,
    };
    if hit(world, r, T_MIN_EPS, T_MAX_TRACE, &mut rec) {
        if let Some(m) = rec.material {
            if in_range(&rec.p, COORD_MAX) && in_range(&rec.normal, 2 * FS) {
                let mut attenuation = Vec3 { v1: 0, v2: 0, v3: 0 };
                let mut scattered = Ray {
                    a: Vec3 { v1: 0, v2: 0, v3: 0 },
                    b: Vec3 { v1: 0, v2: 0, v3: 0 },
                };
                if m.scatter(r, &rec, &mut attenuation, &mut scattered, src) {
                    let nonzero = scattered.b.v1 != 0 || scattered.b.v2 != 0
                        || scattered.b.v3 != 0;
                    if nonzero && in_range(&scattered.b, COORD_MAX) {
                        proof {
                            lemma_dir_nonzero(scattered.b);
                        }
                        let rc = color(&scattered, world, depth + 1, src);
                        proof {
                            lemma_fxmul_scale_down(attenuation.v1 as int, rc.v1 as int);
                            lemma_fxmul_scale_down(attenuation.v2 as int, rc.v2 as int);
                            lemma_fxmul_scale_down(attenuation.v3 as int, rc.v3 as int);
                        }
                        return attenuation.mul(rc);
                    }
                }
                return Vec3 { v1: 0, v2: 0, v3: 0 };
            }
            return Vec3 { v1: 0, v2: 0, v3: 0 };
        }
        return Vec3 { v1: 0, v2: 0, v3: 0 };
    } else {
        let unit_direction = Vec3::unit_vector(r.direction());
        let uy: i64 = unit_direction.y();
        proof {
            assert(FS as int == 0x100000);
            lemma_mul_abs_bound(uy as int + FS as int, 0x80000, 0x200000, 0x80000);
            assert(0x200000 * 0x80000int == 0x100000 * 0x100000int) by (nonlinear_arith);
            lemma_div_range((uy as int + FS as int) * 0x80000, FS as int, FS as int);
            lemma_mul_abs_bound(uy as int + FS as int, 0x80000, 0x200000, 0x80000);
            vstd::arithmetic::mul::lemma_mul_nonnegative(uy as int + FS as int, 0x80000);
            lemma_div_pos_is_pos((uy as int + FS as int) * 0x80000, FS as int);
        }
        let t: i64 = fx_mul(uy + FS, 0x80000);
        let white = Vec3 { v1: FS, v2: FS, v3: FS };
        let sky = Vec3 { v1: 0x80000, v2: 734003, v3: FS };
        proof {
            lemma_div_multiples_vanish(FS as int - t as int, FS as int);
            lemma_fxmul_unit_factor(0x80000, t as int);
            lemma_fxmul_unit_factor(734003, t as int);
            lemma_fxmul_unit_factor(FS as int, t as int);
        }
        white.mul_s(FS - t).add(sky.mul_s(t))
    }
}

} // verus!

