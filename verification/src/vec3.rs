//! Three-component fixed-point vectors, used as points, directions and
//! colors alike.
//!
//! Every operation mirrors an exact integer specification: sums are exact,
//! products and quotients are floor-rounded through the `FS` scale.

use vstd::prelude::*;
use crate::fixed::{
    FS, fxmul, fxdiv, sqrt_floor, is_sqrt_floor, fx_mul, fx_div, isqrt_u128,
    lemma_mul_abs_bound, lemma_div_range,
};

verus! {

/// Bound on the coordinates most geometric operations accept
/// (2^40 steps, about a million world units).
pub const OP_MAX: i64 = 0x100_0000_0000;

/// Bound on scene coordinates (2^29 steps, 512 world units).
pub const COORD_MAX: i64 = 0x2000_0000;

#[derive(Debug, Clone, Copy, PartialEq, Eq, Structural)]
pub struct Vec3 {
    pub v1: i64,
    pub v2: i64,
    pub v3: i64,
}

/// The exact (unscaled) dot product of two vectors: a sum of raw
/// coordinate products, at scale `FS * FS`.
pub open spec fn dot3(a: Vec3, b: Vec3) -> int {
    a.v1 * b.v1 + a.v2 * b.v2 + a.v3 * b.v3
}

/// All three coordinates lie within `m` steps of zero.
pub open spec fn bounded(v: Vec3, m: int) -> bool {
    -m <= v.v1 <= m && -m <= v.v2 <= m && -m <= v.v3 <= m
}

/// A square is never negative.
pub proof fn lemma_sq_nonneg(a: int)
    ensures
        a * a >= 0,
{
    assert(a * a >= 0) by (nonlinear_arith);
}

/// The squared norm dominates each squared coordinate.
pub proof fn lemma_dot3_self(v: Vec3)
    ensures
        dot3(v, v) >= 0,
        v.v1 * v.v1 <= dot3(v, v),
        v.v2 * v.v2 <= dot3(v, v),
        v.v3 * v.v3 <= dot3(v, v),
{
    lemma_sq_nonneg(v.v1 as int);
    lemma_sq_nonneg(v.v2 as int);
    lemma_sq_nonneg(v.v3 as int);
}

/// No coordinate of `v` exceeds the floor root of the squared norm:
/// a coordinate one larger would already square past it.
pub proof fn lemma_coord_le_root(v: Vec3, root: int)
    requires
        is_sqrt_floor(dot3(v, v), root),
    ensures
        -root <= v.v1 <= root,
        -root <= v.v2 <= root,
        -root <= v.v3 <= root,
{
    lemma_dot3_self(v);
    assert(-root <= v.v1 <= root) by (nonlinear_arith)
        requires v.v1 * v.v1 < (root + 1) * (root + 1), root >= 0;
    assert(-root <= v.v2 <= root) by (nonlinear_arith)
        requires v.v2 * v.v2 < (root + 1) * (root + 1), root >= 0;
    assert(-root <= v.v3 <= root) by (nonlinear_arith)
        requires v.v3 * v.v3 < (root + 1) * (root + 1), root >= 0;
}

impl Vec3 {
    pub fn new(v1: i64, v2: i64, v3: i64) -> (r: Vec3)
        ensures
            r.v1 == v1,
            r.v2 == v2,
            r.v3 == v3,
    {
        Vec3 { v1, v2, v3 }
    }

    pub fn x(self: &Vec3) -> (r: i64)
        ensures
            r == self.v1,
    {
        self.v1
    }

    pub fn y(self: &Vec3) -> (r: i64)
        ensures
            r == self.v2,
    {
        self.v2
    }

    pub fn z(self: &Vec3) -> (r: i64)
        ensures
            r == self.v3,
    {
        self.v3
    }

    pub fn r(self: &Vec3) -> (r: i64)
        ensures
            r == self.v1,
    {
        self.v1
    }

    pub fn g(self: &Vec3) -> (r: i64)
        ensures
            r == self.v2,
    {
        self.v2
    }

    pub fn b(self: &Vec3) -> (r: i64)
        ensures
            r == self.v3,
    {
        self.v3
    }

    /// Componentwise sum, exact.
    pub fn add(self, other: Vec3) -> (r: Vec3)
        requires
            i64::MIN <= self.v1 + other.v1 <= i64::MAX,
            i64::MIN <= self.v2 + other.v2 <= i64::MAX,
            i64::MIN <= self.v3 + other.v3 <= i64::MAX,
        ensures
            r.v1 == self.v1 + other.v1,
            r.v2 == self.v2 + other.v2,
            r.v3 == self.v3 + other.v3,
    {
        Vec3 { v1: self.v1 + other.v1, v2: self.v2 + other.v2, v3: self.v3 + other.v3 }
    }

    /// Componentwise difference, exact.
    pub fn sub(self, other: Vec3) -> (r: Vec3)
        requires
            i64::MIN <= self.v1 - other.v1 <= i64::MAX,
            i64::MIN <= self.v2 - other.v2 <= i64::MAX,
            i64::MIN <= self.v3 - other.v3 <= i64::MAX,
        ensures
            r.v1 == self.v1 - other.v1,
            r.v2 == self.v2 - other.v2,
            r.v3 == self.v3 - other.v3,
    {
        Vec3 { v1: self.v1 - other.v1, v2: self.v2 - other.v2, v3: self.v3 - other.v3 }
    }

    /// Componentwise fixed-point product (used for color attenuation).
    pub fn mul(self, other: Vec3) -> (r: Vec3)
        requires
            bounded(self, OP_MAX as int),
            bounded(other, OP_MAX as int),
        ensures
            r.v1 == fxmul(self.v1 as int, other.v1 as int),
            r.v2 == fxmul(self.v2 as int, other.v2 as int),
            r.v3 == fxmul(self.v3 as int, other.v3 as int),
    {
        proof { lemma_fxmul_ops_fit(self, other); }
        Vec3 {
            v1: fx_mul(self.v1, other.v1),
            v2: fx_mul(self.v2, other.v2),
            v3: fx_mul(self.v3, other.v3),
        }
    }

    /// Scaling by a fixed-point scalar.
    pub fn mul_s(self, k: i64) -> (r: Vec3)
        requires
            bounded(self, OP_MAX as int),
            -OP_MAX <= k <= OP_MAX,
        ensures
            r.v1 == fxmul(self.v1 as int, k as int),
            r.v2 == fxmul(self.v2 as int, k as int),
            r.v3 == fxmul(self.v3 as int, k as int),
    {
        proof { lemma_fxmul_ops_fit(self, Vec3 { v1: k, v2: k, v3: k }); }
        Vec3 { v1: fx_mul(self.v1, k), v2: fx_mul(self.v2, k), v3: fx_mul(self.v3, k) }
    }

    /// Division by a positive fixed-point scalar.
    pub fn div_s(self, k: i64) -> (r: Vec3)
        requires
            bounded(self, OP_MAX as int),
            k > 0,
        ensures
            r.v1 == fxdiv(self.v1 as int, k as int),
            r.v2 == fxdiv(self.v2 as int, k as int),
            r.v3 == fxdiv(self.v3 as int, k as int),
    {
        proof { lemma_fxdiv_ops_fit(self, k); }
        Vec3 { v1: fx_div(self.v1, k), v2: fx_div(self.v2, k), v3: fx_div(self.v3, k) }
    }

    /// Componentwise quotient by a vector with positive coordinates.
    pub fn div(self, other: Vec3) -> (r: Vec3)
        requires
            bounded(self, OP_MAX as int),
            other.v1 > 0,
            other.v2 > 0,
            other.v3 > 0,
        ensures
            r.v1 == fxdiv(self.v1 as int, other.v1 as int),
            r.v2 == fxdiv(self.v2 as int, other.v2 as int),
            r.v3 == fxdiv(self.v3 as int, other.v3 as int),
    {
        proof {
            lemma_fxdiv_ops_fit(self, other.v1);
            lemma_fxdiv_ops_fit(self, other.v2);
            lemma_fxdiv_ops_fit(self, other.v3);
        }
        Vec3 {
            v1: fx_div(self.v1, other.v1),
            v2: fx_div(self.v2, other.v2),
            v3: fx_div(self.v3, other.v3),
        }
    }

    /// The scaled dot product `dot3 / FS`, as a fixed-point scalar.
    pub fn dot(a: &Vec3, b: &Vec3) -> (r: i64)
        requires
            bounded(*a, OP_MAX as int),
            bounded(*b, OP_MAX as int),
        ensures
            r == dot3(*a, *b) / (FS as int),
    {
        proof { lemma_dot_fits(*a, *b); }
        let p: i128 = (a.v1 as i128) * (b.v1 as i128) + (a.v2 as i128) * (b.v2 as i128)
            + (a.v3 as i128) * (b.v3 as i128);
        let q: i128 = match p.checked_div_euclid(FS as i128) {
            Some(q) => q,
            None => 0,
        };
        q as i64
    }

    /// The exact dot product `dot3` itself, for coordinates small enough
    /// that it fits (unit-scale directions and normals).
    pub fn dot_exact(a: &Vec3, b: &Vec3) -> (r: i64)
        requires
            bounded(*a, 0x4000_0000),
            bounded(*b, 0x4000_0000),
        ensures
            r == dot3(*a, *b),
    {
        proof {
            lemma_mul_abs_bound(a.v1 as int, b.v1 as int, 0x4000_0000, 0x4000_0000);
            lemma_mul_abs_bound(a.v2 as int, b.v2 as int, 0x4000_0000, 0x4000_0000);
            lemma_mul_abs_bound(a.v3 as int, b.v3 as int, 0x4000_0000, 0x4000_0000);
            assert(0x4000_0000 * 0x4000_0000int * 3 < i64::MAX as int)
                by (nonlinear_arith);
        }
        let p: i128 = (a.v1 as i128) * (b.v1 as i128) + (a.v2 as i128) * (b.v2 as i128)
            + (a.v3 as i128) * (b.v3 as i128);
        p as i64
    }

    /// The cross product, each component floor-scaled by `FS`.
    pub fn cross(a: &Vec3, b: &Vec3) -> (r: Vec3)
        requires
            bounded(*a, OP_MAX as int),
            bounded(*b, OP_MAX as int),
        ensures
            r.v1 == (a.v2 * b.v3 - a.v3 * b.v2) / (FS as int),
            r.v2 == (a.v3 * b.v1 - a.v1 * b.v3) / (FS as int),
            r.v3 == (a.v1 * b.v2 - a.v2 * b.v1) / (FS as int),
    {
        let x: i64 = cross_part(a.v2, b.v3, a.v3, b.v2);
        let y: i64 = cross_part(a.v3, b.v1, a.v1, b.v3);
        let z: i64 = cross_part(a.v1, b.v2, a.v2, b.v1);
        Vec3 { v1: x, v2: y, v3: z }
    }

    /// The scaled squared length `dot3(v, v) / FS`, a fixed-point scalar.
    pub fn squared_length(self: &Vec3) -> (r: i64)
        requires
            bounded(*self, OP_MAX as int),
        ensures
            r == dot3(*self, *self) / (FS as int),
            r >= 0,
    {
        proof {
            lemma_dot3_self(*self);
            vstd::arithmetic::div_mod::lemma_div_pos_is_pos(dot3(*self, *self), FS as int);
        }
        Vec3::dot(self, self)
    }

    /// The fixed-point length: the floor root of the exact squared norm
    /// (`sqrt(dot3) == sqrt(dot3 / FS^2) * FS`, so the result is at
    /// scale `FS`).
    pub fn length(self: &Vec3) -> (r: i64)
        requires
            bounded(*self, OP_MAX as int),
        ensures
            r == sqrt_floor(dot3(*self, *self)),
            is_sqrt_floor(dot3(*self, *self), r as int),
            r >= 0,
    {
        proof {
            lemma_dot_fits(*self, *self);
            lemma_dot3_self(*self);
        }
        let p: i128 = (self.v1 as i128) * (self.v1 as i128)
            + (self.v2 as i128) * (self.v2 as i128)
            + (self.v3 as i128) * (self.v3 as i128);
        let r: u128 = isqrt_u128(p as u128);
        proof {
            assert(r as int <= 0x200_0000_0000_0000) by (nonlinear_arith)
                requires
                    0 <= r as int,
                    (r as int) * (r as int) <= p as int,
                    p as int <= 0x3_0000_0000_0000_0000_0000;
        }
        r as i64
    }

    /// Divides each coordinate by the length, producing a unit-scale
    /// vector (no coordinate beyond one unit).
    pub fn unit_vector(v: Vec3) -> (r: Vec3)
        requires
            bounded(v, OP_MAX as int),
            dot3(v, v) > 0,
        ensures
            r.v1 == fxdiv(v.v1 as int, sqrt_floor(dot3(v, v))),
            r.v2 == fxdiv(v.v2 as int, sqrt_floor(dot3(v, v))),
            r.v3 == fxdiv(v.v3 as int, sqrt_floor(dot3(v, v))),
            bounded(r, FS as int),
    {
        let len: i64 = v.length();
        proof {
            let s = dot3(v, v);
            let l = len as int;
            if l == 0 {
                assert((l + 1) * (l + 1) == 1) by (nonlinear_arith)
                    requires l == 0;
                assert(false);
            }
            lemma_coord_le_root(v, l);
            lemma_unit_div_fits(v.v1 as int, l);
            lemma_unit_div_fits(v.v2 as int, l);
            lemma_unit_div_fits(v.v3 as int, l);
        }
        Vec3 { v1: fx_div(v.v1, len), v2: fx_div(v.v2, len), v3: fx_div(v.v3, len) }
    }

    /// Normalizes in place; see `unit_vector`.
    pub fn make_unit_vector(self: &mut Vec3)
        requires
            bounded(*old(self), OP_MAX as int),
            dot3(*old(self), *old(self)) > 0,
        ensures
            final(self).v1 == fxdiv(old(self).v1 as int, sqrt_floor(dot3(*old(self), *old(self)))),
            final(self).v2 == fxdiv(old(self).v2 as int, sqrt_floor(dot3(*old(self), *old(self)))),
            final(self).v3 == fxdiv(old(self).v3 as int, sqrt_floor(dot3(*old(self), *old(self)))),
            bounded(*final(self), FS as int),
    {
        *self = Vec3::unit_vector(*self);
    }

    /// Adds `other` in place, exactly.
    pub fn add_assign(self: &mut Vec3, other: Vec3)
        requires
            i64::MIN <= old(self).v1 + other.v1 <= i64::MAX,
            i64::MIN <= old(self).v2 + other.v2 <= i64::MAX,
            i64::MIN <= old(self).v3 + other.v3 <= i64::MAX,
        ensures
            final(self).v1 == old(self).v1 + other.v1,
            final(self).v2 == old(self).v2 + other.v2,
            final(self).v3 == old(self).v3 + other.v3,
    {
        *self = self.add(other);
    }

    /// Subtracts `other` in place, exactly.
    pub fn sub_assign(self: &mut Vec3, other: Vec3)
        requires
            i64::MIN <= old(self).v1 - other.v1 <= i64::MAX,
            i64::MIN <= old(self).v2 - other.v2 <= i64::MAX,
            i64::MIN <= old(self).v3 - other.v3 <= i64::MAX,
        ensures
            final(self).v1 == old(self).v1 - other.v1,
            final(self).v2 == old(self).v2 - other.v2,
            final(self).v3 == old(self).v3 - other.v3,
    {
        *self = self.sub(other);
    }

    /// Multiplies componentwise in place.
    pub fn mul_assign(self: &mut Vec3, other: Vec3)
        requires
            bounded(*old(self), OP_MAX as int),
            bounded(other, OP_MAX as int),
        ensures
            final(self).v1 == fxmul(old(self).v1 as int, other.v1 as int),
            final(self).v2 == fxmul(old(self).v2 as int, other.v2 as int),
            final(self).v3 == fxmul(old(self).v3 as int, other.v3 as int),
    {
        *self = self.mul(other);
    }

    /// Scales in place by a fixed-point scalar.
    pub fn mul_assign_s(self: &mut Vec3, k: i64)
        requires
            bounded(*old(self), OP_MAX as int),
            -OP_MAX <= k <= OP_MAX,
        ensures
            final(self).v1 == fxmul(old(self).v1 as int, k as int),
            final(self).v2 == fxmul(old(self).v2 as int, k as int),
            final(self).v3 == fxmul(old(self).v3 as int, k as int),
    {
        *self = self.mul_s(k);
    }

    /// Divides componentwise in place by positive coordinates.
    pub fn div_assign(self: &mut Vec3, other: Vec3)
        requires
            bounded(*old(self), OP_MAX as int),
            other.v1 > 0,
            other.v2 > 0,
            other.v3 > 0,
        ensures
            final(self).v1 == fxdiv(old(self).v1 as int, other.v1 as int),
            final(self).v2 == fxdiv(old(self).v2 as int, other.v2 as int),
            final(self).v3 == fxdiv(old(self).v3 as int, other.v3 as int),
    {
        *self = self.div(other);
    }

    /// Divides in place by a positive fixed-point scalar.
    pub fn div_assign_s(self: &mut Vec3, k: i64)
        requires
            bounded(*old(self), OP_MAX as int),
            k > 0,
        ensures
            final(self).v1 == fxdiv(old(self).v1 as int, k as int),
            final(self).v2 == fxdiv(old(self).v2 as int, k as int),
            final(self).v3 == fxdiv(old(self).v3 as int, k as int),
    {
        *self = self.div_s(k);
    }
}

/// One cross-product component: `a * b - c * d`, floor-scaled by `FS`.
fn cross_part(a: i64, b: i64, c: i64, d: i64) -> (r: i64)
    requires
        -OP_MAX <= a <= OP_MAX,
        -OP_MAX <= b <= OP_MAX,
        -OP_MAX <= c <= OP_MAX,
        -OP_MAX <= d <= OP_MAX,
    ensures
        r == (a * b - c * d) / (FS as int),
{
    proof {
        lemma_mul_abs_bound(a as int, b as int, 0x100_0000_0000, 0x100_0000_0000);
        lemma_mul_abs_bound(c as int, d as int, 0x100_0000_0000, 0x100_0000_0000);
        assert(FS as int == 0x100000);
        assert(0x100_0000_0000 * 0x100_0000_0000int * 2
            <= 0x2000_0000_0000_0000 * 0x100000int) by (nonlinear_arith);
        lemma_div_range(
            a as int * b as int - c as int * d as int,
            FS as int,
            0x2000_0000_0000_0000,
        );
    }
    let p: i128 = (a as i128) * (b as i128) - (c as i128) * (d as i128);
    let q: i128 = match p.checked_div_euclid(FS as i128) {
        Some(q) => q,
        None => 0,
    };
    q as i64
}

/// The raw dot product of `OP_MAX`-bounded vectors stays far inside
/// the 128-bit range, and its `FS`-quotient inside the 64-bit range.
proof fn lemma_dot_fits(a: Vec3, b: Vec3)
    requires
        bounded(a, OP_MAX as int),
        bounded(b, OP_MAX as int),
    ensures
        -0x1_0000_0000_0000_0000_0000 <= a.v1 * b.v1 <= 0x1_0000_0000_0000_0000_0000,
        -0x1_0000_0000_0000_0000_0000 <= a.v2 * b.v2 <= 0x1_0000_0000_0000_0000_0000,
        -0x1_0000_0000_0000_0000_0000 <= a.v3 * b.v3 <= 0x1_0000_0000_0000_0000_0000,
        -0x3_0000_0000_0000_0000_0000 <= dot3(a, b) <= 0x3_0000_0000_0000_0000_0000,
        i64::MIN <= dot3(a, b) / (FS as int) <= i64::MAX,
{
    lemma_mul_abs_bound(a.v1 as int, b.v1 as int, 0x100_0000_0000, 0x100_0000_0000);
    lemma_mul_abs_bound(a.v2 as int, b.v2 as int, 0x100_0000_0000, 0x100_0000_0000);
    lemma_mul_abs_bound(a.v3 as int, b.v3 as int, 0x100_0000_0000, 0x100_0000_0000);
    assert(0x100_0000_0000 * 0x100_0000_0000int == 0x1_0000_0000_0000_0000_0000)
        by (nonlinear_arith);
    assert(FS as int == 0x100000);
    assert(0x3_0000_0000_0000_0000_0000int <= 0x3000_0000_0000_0000 * 0x100000int)
        by (nonlinear_arith);
    lemma_div_range(dot3(a, b), FS as int, 0x3000_0000_0000_0000);
}

/// Componentwise fixed products of `OP_MAX`-bounded vectors fit in 64 bits.
proof fn lemma_fxmul_ops_fit(a: Vec3, b: Vec3)
    requires
        bounded(a, OP_MAX as int),
        bounded(b, OP_MAX as int),
    ensures
        i64::MIN <= fxmul(a.v1 as int, b.v1 as int) <= i64::MAX,
        i64::MIN <= fxmul(a.v2 as int, b.v2 as int) <= i64::MAX,
        i64::MIN <= fxmul(a.v3 as int, b.v3 as int) <= i64::MAX,
{
    lemma_mul_abs_bound(a.v1 as int, b.v1 as int, 0x100_0000_0000, 0x100_0000_0000);
    lemma_mul_abs_bound(a.v2 as int, b.v2 as int, 0x100_0000_0000, 0x100_0000_0000);
    lemma_mul_abs_bound(a.v3 as int, b.v3 as int, 0x100_0000_0000, 0x100_0000_0000);
    assert(FS as int == 0x100000);
    assert(0x100_0000_0000 * 0x100_0000_0000int
        <= 0x1000_0000_0000_0000 * 0x100000int) by (nonlinear_arith);
    lemma_div_range(a.v1 as int * b.v1 as int, FS as int, 0x1000_0000_0000_0000);
    lemma_div_range(a.v2 as int * b.v2 as int, FS as int, 0x1000_0000_0000_0000);
    lemma_div_range(a.v3 as int * b.v3 as int, FS as int, 0x1000_0000_0000_0000);
}

/// Componentwise fixed quotients of an `OP_MAX`-bounded vector by a
/// positive scalar fit in 64 bits.
proof fn lemma_fxdiv_ops_fit(a: Vec3, k: i64)
    requires
        bounded(a, OP_MAX as int),
        k > 0,
    ensures
        i64::MIN <= fxdiv(a.v1 as int, k as int) <= i64::MAX,
        i64::MIN <= fxdiv(a.v2 as int, k as int) <= i64::MAX,
        i64::MIN <= fxdiv(a.v3 as int, k as int) <= i64::MAX,
{
    lemma_fxdiv_fit_one(a.v1 as int, k as int);
    lemma_fxdiv_fit_one(a.v2 as int, k as int);
    lemma_fxdiv_fit_one(a.v3 as int, k as int);
}

/// `x * FS / k` fits in 64 bits for `|x| <= OP_MAX` and positive `k`.
proof fn lemma_fxdiv_fit_one(x: int, k: int)
    requires
        -(OP_MAX as int) <= x <= OP_MAX as int,
        k > 0,
    ensures
        i64::MIN <= fxdiv(x, k) <= i64::MAX,
{
    assert(FS as int == 0x100000);
    lemma_mul_abs_bound(x, FS as int, 0x100_0000_0000, 0x100000);
    assert(0x100_0000_0000 * 0x100000int <= 0x1000_0000_0000_0000 * k)
        by (nonlinear_arith)
        requires k >= 1;
    lemma_div_range(x * (FS as int), k, 0x1000_0000_0000_0000);
}

/// The quotient of a coordinate by the vector's floor length stays
/// within one unit.
proof fn lemma_unit_div_fits(x: int, l: int)
    requires
        l >= 1,
        -l <= x <= l,
    ensures
        -(FS as int) <= fxdiv(x, l) <= FS as int,
{
    assert(FS as int == 0x100000);
    assert(-(0x100000int * l) <= x * 0x100000int <= 0x100000int * l)
        by (nonlinear_arith)
        requires l >= 1, -l <= x <= l;
    lemma_div_range(x * (FS as int), l, FS as int);
}

} // verus!
