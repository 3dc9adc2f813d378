//! Laws of the geometric core, stated and proved over the same spec
//! functions the executable contracts use.

use vstd::prelude::*;
use crate::fixed::{FS, fxdiv, sqrt_floor, is_sqrt_floor,
    lemma_sqrt_floor_exists, lemma_sqrt_floor_is};
use vstd::arithmetic::div_mod::{lemma_fundamental_div_mod, lemma_mod_bound,
    lemma_div_multiples_vanish};
use crate::vec3::{Vec3, dot3, bounded, OP_MAX, lemma_dot3_self, lemma_coord_le_root,
    lemma_sq_nonneg};
use crate::ray::Ray;
use crate::sphere::{Sphere, sph_a, sph_b, sph_c, sph_disc, sph_t_near, sph_t_far,
    sph_oc1, sph_oc2, sph_oc3, sphere_hit_data};
use crate::hittable::Hittable;

verus! {

/// One normalized coordinate is off its exact value by less than one
/// step: `l * u = x - rem` with `0 <= rem < l`, so the squares satisfy
/// `x^2 - 2|x|l <= (l*u)^2 <= x^2 + 2|x|l + l^2`.
proof fn lemma_unit_coord_sq(x: int, l: int)
    requires
        l >= 1,
    ensures
        ({
            let u = x / l;
            x * x - 2 * ((if x < 0 { -x } else { x }) * l) <= (l * u) * (l * u)
                && (l * u) * (l * u) <= x * x + 2 * ((if x < 0 { -x } else { x }) * l) + l * l
        }),
{
    let u = x / l;
    lemma_fundamental_div_mod(x, l);
    lemma_mod_bound(x, l);
    let rem = x % l;
    assert(l * u == x - rem);
    let ax = if x < 0 { -x } else { x };
    assert((x - rem) * (x - rem) == x * x - 2 * (x * rem) + rem * rem) by (nonlinear_arith);
    assert(-(ax * l) <= x * rem <= ax * l) by (nonlinear_arith)
        requires 0 <= rem < l, -ax <= x <= ax;
    assert(0 <= rem * rem <= l * l) by (nonlinear_arith)
        requires 0 <= rem < l;
}

/// Every vector of at least half a unit's length normalizes to a vector
/// whose fixed-point length is within seven steps of one — relatively,
/// within `7 / FS` (about `6.7e-6`) of exact unity.
///
/// Shorter vectors are excluded: below half a unit the one-step
/// quantization of each coordinate can exceed that tolerance.
pub proof fn lemma_unit_vector_length(v: Vec3)
    requires
        bounded(v, OP_MAX as int),
        dot3(v, v) >= 0x80000 * 0x80000int,
    ensures
        ({
            let l = sqrt_floor(dot3(v, v));
            let u1 = fxdiv(v.v1 as int, l);
            let u2 = fxdiv(v.v2 as int, l);
            let u3 = fxdiv(v.v3 as int, l);
            (FS as int) - 7 <= sqrt_floor(u1 * u1 + u2 * u2 + u3 * u3) <= (FS as int) + 7
        }),
{
    let s = dot3(v, v);
    lemma_dot3_self(v);
    lemma_sqrt_floor_exists(s as nat);
    let l = sqrt_floor(s);
    assert(is_sqrt_floor(s, l));
    assert(l >= 0x80000) by (nonlinear_arith)
        requires
            is_sqrt_floor(s, l),
            s >= 0x80000 * 0x80000int;
    lemma_coord_le_root(v, l);
    let fs = FS as int;
    assert(fs == 0x100000);
    let x1 = v.v1 * fs;
    let x2 = v.v2 * fs;
    let x3 = v.v3 * fs;
    let u1 = fxdiv(v.v1 as int, l);
    let u2 = fxdiv(v.v2 as int, l);
    let u3 = fxdiv(v.v3 as int, l);
    assert(u1 == x1 / l && u2 == x2 / l && u3 == x3 / l);
    lemma_unit_coord_sq(x1, l);
    lemma_unit_coord_sq(x2, l);
    lemma_unit_coord_sq(x3, l);
    let a1 = if x1 < 0 { -x1 } else { x1 };
    let a2 = if x2 < 0 { -x2 } else { x2 };
    let a3 = if x3 < 0 { -x3 } else { x3 };
    // |x_i| <= (l + 1) * FS
    assert(a1 <= (l + 1) * fs && a2 <= (l + 1) * fs && a3 <= (l + 1) * fs)
        by (nonlinear_arith)
        requires
            -(l + 1) <= v.v1 <= l + 1,
            -(l + 1) <= v.v2 <= l + 1,
            -(l + 1) <= v.v3 <= l + 1,
            x1 == v.v1 * fs,
            x2 == v.v2 * fs,
            x3 == v.v3 * fs,
            a1 == (if x1 < 0 { -x1 } else { x1 }),
            a2 == (if x2 < 0 { -x2 } else { x2 }),
            a3 == (if x3 < 0 { -x3 } else { x3 }),
            fs > 0,
            l >= 1;
    // Sum of squares of the exact scaled coordinates.
    assert(x1 * x1 == (v.v1 * v.v1) * (fs * fs)) by (nonlinear_arith)
        requires x1 == v.v1 * fs;
    assert(x2 * x2 == (v.v2 * v.v2) * (fs * fs)) by (nonlinear_arith)
        requires x2 == v.v2 * fs;
    assert(x3 * x3 == (v.v3 * v.v3) * (fs * fs)) by (nonlinear_arith)
        requires x3 == v.v3 * fs;
    assert(s * (fs * fs) == (v.v1 * v.v1) * (fs * fs) + (v.v2 * v.v2) * (fs * fs)
        + (v.v3 * v.v3) * (fs * fs)) by (nonlinear_arith)
        requires s == v.v1 * v.v1 + v.v2 * v.v2 + v.v3 * v.v3;
    let uu = u1 * u1 + u2 * u2 + u3 * u3;
    // l^2 * uu is within the rounding corridor of s * fs^2.
    assert((l * u1) * (l * u1) == (l * l) * (u1 * u1)) by (nonlinear_arith);
    assert((l * u2) * (l * u2) == (l * l) * (u2 * u2)) by (nonlinear_arith);
    assert((l * u3) * (l * u3) == (l * l) * (u3 * u3)) by (nonlinear_arith);
    assert((l * l) * uu == (l * l) * (u1 * u1) + (l * l) * (u2 * u2) + (l * l) * (u3 * u3))
        by (nonlinear_arith)
        requires uu == u1 * u1 + u2 * u2 + u3 * u3;
    assert((l * l) * uu <= s * (fs * fs) + 2 * (a1 * l) + 2 * (a2 * l) + 2 * (a3 * l)
        + 3 * (l * l));
    assert((l * l) * uu >= s * (fs * fs) - 2 * (a1 * l) - 2 * (a2 * l) - 2 * (a3 * l));
    assert(2 * (a1 * l) + 2 * (a2 * l) + 2 * (a3 * l) <= 6 * (((l + 1) * fs) * l))
        by (nonlinear_arith)
        requires
            0 <= a1 <= (l + 1) * fs,
            0 <= a2 <= (l + 1) * fs,
            0 <= a3 <= (l + 1) * fs,
            l >= 1;
    // Corridor bounds against l^2 * (fs^2 +/- 13 fs), using l >= fs / 2.
    assert(s * (fs * fs) <= ((l + 1) * (l + 1) - 1) * (fs * fs)) by (nonlinear_arith)
        requires s < (l + 1) * (l + 1), fs > 0;
    assert(s * (fs * fs) >= (l * l) * (fs * fs)) by (nonlinear_arith)
        requires s >= l * l, fs > 0;
    assert(((l + 1) * (l + 1) - 1) * (fs * fs) + 6 * (((l + 1) * fs) * l) + 3 * (l * l)
        <= (l * l) * (fs * fs + 13 * fs)) by (nonlinear_arith)
        requires
            l >= 0x80000,
            fs == 0x100000;
    assert((l * l) * (fs * fs) - 6 * (((l + 1) * fs) * l)
        >= (l * l) * (fs * fs - 13 * fs)) by (nonlinear_arith)
        requires
            l >= 0x80000,
            fs == 0x100000;
    assert(uu <= fs * fs + 13 * fs) by (nonlinear_arith)
        requires
            (l * l) * uu <= (l * l) * (fs * fs + 13 * fs),
            l >= 1;
    assert(uu >= fs * fs - 13 * fs) by (nonlinear_arith)
        requires
            (l * l) * uu >= (l * l) * (fs * fs - 13 * fs),
            l >= 1;
    // The floor root of the corridor lies within seven steps of one.
    lemma_sq_nonneg(u1);
    lemma_sq_nonneg(u2);
    lemma_sq_nonneg(u3);
    lemma_sqrt_floor_exists(uu as nat);
    let lu = sqrt_floor(uu);
    assert(is_sqrt_floor(uu, lu));
    assert(lu >= fs - 7) by (nonlinear_arith)
        requires
            is_sqrt_floor(uu, lu),
            uu >= fs * fs - 13 * fs,
            fs == 0x100000;
    assert(lu <= fs + 7) by (nonlinear_arith)
        requires
            is_sqrt_floor(uu, lu),
            uu <= fs * fs + 13 * fs,
            fs == 0x100000;
}

/// The near root of the intersection quadratic never exceeds the far
/// root: the hit test's preference for the near root picks the smaller
/// parameter.
pub proof fn lemma_roots_ordered(s: Sphere, r: Ray)
    requires
        sph_a(s, r) > 0,
        sqrt_floor(sph_disc(s, r)) >= 0,
    ensures
        sph_t_near(s, r) <= sph_t_far(s, r),
{
    let b = sph_b(s, r);
    let sd = sqrt_floor(sph_disc(s, r));
    let a = sph_a(s, r);
    assert((-b - sd) * (FS as int) <= (-b + sd) * (FS as int)) by (nonlinear_arith)
        requires sd >= 0, FS as int > 0;
    vstd::arithmetic::div_mod::lemma_div_is_ordered(
        (-b - sd) * (FS as int), (-b + sd) * (FS as int), a);
}

/// A ray cast from outside a sphere straight at its center, displaced
/// `dz` along the third axis with an exactly-unit direction, meets it at
/// exactly `dz - radius` (near root) and `dz + radius` (far root); with
/// the window containing the near root, the hit test reports exactly
/// that parameter. Displacements off a coordinate axis pick up floor
/// rounding and are not exact.
pub proof fn lemma_axis_ray_roots(s: Sphere, r: Ray, dz: int, t_min: int, t_max: int)
    requires
        s.wf(),
        r.a.v1 == s.center.v1,
        r.a.v2 == s.center.v2,
        r.a.v3 == s.center.v3 + dz,
        r.b.v1 == 0,
        r.b.v2 == 0,
        r.b.v3 == -(FS as int),
        dz > s.radius,
        t_min < dz - s.radius < t_max,
    ensures
        sph_disc(s, r) > 0,
        sph_t_near(s, r) == dz - s.radius,
        sph_t_far(s, r) == dz + s.radius,
        s.hit_spec(r, t_min, t_max)
            == Option::Some(sphere_hit_data(s, r, dz - s.radius)),
{
    let fs = FS as int;
    assert(fs == 0x100000);
    let rad = s.radius as int;
    assert(sph_oc1(s, r) == 0 && sph_oc2(s, r) == 0 && sph_oc3(s, r) == dz);
    assert(sph_a(s, r) == fs * fs) by (nonlinear_arith)
        requires r.b.v1 == 0, r.b.v2 == 0, r.b.v3 == -fs, sph_a(s, r) == dot3(r.b, r.b);
    assert(sph_b(s, r) == dz * -fs) by (nonlinear_arith)
        requires
            sph_oc1(s, r) == 0,
            sph_oc2(s, r) == 0,
            sph_oc3(s, r) == dz,
            r.b.v1 == 0,
            r.b.v2 == 0,
            r.b.v3 == -fs,
            sph_b(s, r) == sph_oc1(s, r) * r.b.v1 + sph_oc2(s, r) * r.b.v2
                + sph_oc3(s, r) * r.b.v3;
    assert(sph_c(s, r) == dz * dz - rad * rad) by (nonlinear_arith)
        requires
            rad == s.radius,
            sph_oc1(s, r) == 0,
            sph_oc2(s, r) == 0,
            sph_oc3(s, r) == dz,
            sph_c(s, r) == sph_oc1(s, r) * sph_oc1(s, r) + sph_oc2(s, r) * sph_oc2(s, r)
                + sph_oc3(s, r) * sph_oc3(s, r) - s.radius * s.radius;
    assert((dz * -fs) * (dz * -fs) == (fs * fs) * (dz * dz)) by (nonlinear_arith);
    assert((fs * fs) * (dz * dz - rad * rad)
        == (fs * fs) * (dz * dz) - (fs * fs) * (rad * rad)) by (nonlinear_arith);
    assert((fs * rad) * (fs * rad) == (fs * fs) * (rad * rad)) by (nonlinear_arith);
    assert(sph_disc(s, r) == (fs * rad) * (fs * rad));
    assert(sph_disc(s, r) > 0) by (nonlinear_arith)
        requires sph_disc(s, r) == (fs * rad) * (fs * rad), fs > 0, rad > 0;
    assert(is_sqrt_floor((fs * rad) * (fs * rad), fs * rad)) by (nonlinear_arith)
        requires fs > 0, rad > 0;
    lemma_sqrt_floor_is(sph_disc(s, r), fs * rad);
    // near root: ((dz - rad) * fs^2) / fs^2 == dz - rad
    assert(-sph_b(s, r) - fs * rad == (dz - rad) * fs) by (nonlinear_arith)
        requires sph_b(s, r) == dz * -fs;
    assert(((dz - rad) * fs) * fs == (fs * fs) * (dz - rad)) by (nonlinear_arith);
    lemma_div_multiples_vanish(dz - rad, fs * fs);
    assert(fs * fs > 0) by (nonlinear_arith) requires fs > 0;
    assert(sph_t_near(s, r) == dz - rad);
    assert(-sph_b(s, r) + fs * rad == (dz + rad) * fs) by (nonlinear_arith)
        requires sph_b(s, r) == dz * -fs;
    assert(((dz + rad) * fs) * fs == (fs * fs) * (dz + rad)) by (nonlinear_arith);
    lemma_div_multiples_vanish(dz + rad, fs * fs);
    assert(sph_t_far(s, r) == dz + rad);
}

} // verus!
