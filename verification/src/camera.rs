//! The depth-of-field camera: an orthonormal basis aimed at a target, a
//! focus-plane viewport, and per-ray lens jitter.
//!
//! Trigonometry is not part of the fixed-point core, so the camera takes
//! the tangent of half the vertical field of view directly instead of an
//! angle in degrees.

use vstd::prelude::*;
use crate::fixed::{FS, fxmul, fxdiv, sqrt_floor, fx_mul, fx_div,
    lemma_mul_abs_bound, lemma_div_range};
use crate::vec3::{Vec3, dot3, bounded, COORD_MAX, OP_MAX};
use crate::ray::Ray;
use crate::rng::{RandomSource, random_in_unit_disk};

verus! {

/// Bound on the camera's eye, target and focus distance
/// (2^24 steps, 16 world units).
pub const EYE_MAX: i64 = 0x100_0000;

/// The unit vector of coordinates `(x1, x2, x3)`.
pub open spec fn unit3(x1: int, x2: int, x3: int) -> (int, int, int) {
    let l = sqrt_floor(x1 * x1 + x2 * x2 + x3 * x3);
    (fxdiv(x1, l), fxdiv(x2, l), fxdiv(x3, l))
}

/// The cross product of coordinate triples, floor-scaled by `FS`.
pub open spec fn cross3(a1: int, a2: int, a3: int, b1: int, b2: int, b3: int) -> (int, int, int) {
    (
        (a2 * b3 - a3 * b2) / (FS as int),
        (a3 * b1 - a1 * b3) / (FS as int),
        (a1 * b2 - a2 * b1) / (FS as int),
    )
}

/// The view-axis basis vector `w = unit(lookfrom - lookat)`.
pub open spec fn cam_w(lf: Vec3, la: Vec3) -> (int, int, int) {
    unit3(lf.v1 - la.v1, lf.v2 - la.v2, lf.v3 - la.v3)
}

/// The unnormalized right vector `cross(vup, w)`.
pub open spec fn cam_cu(vup: Vec3, lf: Vec3, la: Vec3) -> (int, int, int) {
    let w = cam_w(lf, la);
    cross3(vup.v1 as int, vup.v2 as int, vup.v3 as int, w.0, w.1, w.2)
}

/// The right basis vector `u = unit(cross(vup, w))`.
pub open spec fn cam_u(vup: Vec3, lf: Vec3, la: Vec3) -> (int, int, int) {
    let cu = cam_cu(vup, lf, la);
    unit3(cu.0, cu.1, cu.2)
}

/// The up basis vector `v = cross(w, u)`.
pub open spec fn cam_v(vup: Vec3, lf: Vec3, la: Vec3) -> (int, int, int) {
    let w = cam_w(lf, la);
    let u = cam_u(vup, lf, la);
    cross3(w.0, w.1, w.2, u.0, u.1, u.2)
}

pub struct Camera {
    pub origin: Vec3,
    pub lower_left_corner: Vec3,
    pub horizontal: Vec3,
    pub vertical: Vec3,
    pub u: Vec3,
    pub v: Vec3,
    pub w: Vec3,
    pub lens_radius: i64,
}

/// The lens offset of one sample `rd` of the unit disk:
/// `u * (rd.x * lens_radius) + v * (rd.y * lens_radius)`, coordinates.
pub open spec fn cam_off1(c: Camera, rd: Vec3) -> int {
    fxmul(c.u.v1 as int, fxmul(rd.v1 as int, c.lens_radius as int))
        + fxmul(c.v.v1 as int, fxmul(rd.v2 as int, c.lens_radius as int))
}

pub open spec fn cam_off2(c: Camera, rd: Vec3) -> int {
    fxmul(c.u.v2 as int, fxmul(rd.v1 as int, c.lens_radius as int))
        + fxmul(c.v.v2 as int, fxmul(rd.v2 as int, c.lens_radius as int))
}

pub open spec fn cam_off3(c: Camera, rd: Vec3) -> int {
    fxmul(c.u.v3 as int, fxmul(rd.v1 as int, c.lens_radius as int))
        + fxmul(c.v.v3 as int, fxmul(rd.v2 as int, c.lens_radius as int))
}

impl Camera {
    /// Ranges every camera built by `new` provides, and `get_ray` needs
    /// to keep camera rays inside the geometric range.
    pub open spec fn wf(self) -> bool {
        bounded(self.origin, EYE_MAX as int)
        && bounded(self.lower_left_corner, 0xC00_0000)
        && bounded(self.horizontal, 0x400_0000)
        && bounded(self.vertical, 0x800_0000)
        && bounded(self.u, 2 * (FS as int))
        && bounded(self.v, 8 * (FS as int))
        && bounded(self.w, 2 * (FS as int))
        && 0 <= self.lens_radius <= FS
    }

    /// Builds the orthonormal basis and the focus-plane viewport.
    ///
    /// `tan_half_vfov` is the tangent of half the vertical field of
    /// view, a fixed-point scalar.
    ///
    /// The numeric preconditions are the supported envelope of this
    /// fixed-point camera, not limits the rendering model sets: eye,
    /// target and focus distance within 16 units, a vertical field of
    /// at most about fifty degrees (tangent of the half-angle at most
    /// one half), aspect at most two, aperture at most one unit. Within
    /// it, `get_ray` provably keeps every camera ray inside the 512-unit
    /// coordinate range that the intersection test's 128-bit headroom
    /// forces; the envelope covers the classic configurations with room
    /// to spare and could only be widened by redoing that overflow
    /// analysis.
    pub fn new(
        lookfrom: &Vec3,
        lookat: &Vec3,
        vup: &Vec3,
        tan_half_vfov: i64,
        aspect: i64,
        aperture: i64,
        focus_dist: i64,
    ) -> (c: Camera)
        requires
            bounded(*lookfrom, EYE_MAX as int),
            bounded(*lookat, EYE_MAX as int),
            bounded(*vup, 4 * (FS as int)),
            !(lookfrom.v1 == lookat.v1 && lookfrom.v2 == lookat.v2 && lookfrom.v3 == lookat.v3),
            ({
                let cu = cam_cu(*vup, *lookfrom, *lookat);
                !(cu.0 == 0 && cu.1 == 0 && cu.2 == 0)
            }),
            0 < tan_half_vfov <= 0x80000,
            0 < aspect <= 2 * (FS as int),
            0 <= aperture <= FS,
            0 < focus_dist <= EYE_MAX,
        ensures
            c.wf(),
            c.origin == *lookfrom,
            c.lens_radius == fxdiv(aperture as int, 2 * (FS as int)),
            (c.w.v1 as int, c.w.v2 as int, c.w.v3 as int) == cam_w(*lookfrom, *lookat),
            (c.u.v1 as int, c.u.v2 as int, c.u.v3 as int) == cam_u(*vup, *lookfrom, *lookat),
            (c.v.v1 as int, c.v.v2 as int, c.v.v3 as int) == cam_v(*vup, *lookfrom, *lookat),
            ({
                let u = cam_u(*vup, *lookfrom, *lookat);
                let v = cam_v(*vup, *lookfrom, *lookat);
                let w = cam_w(*lookfrom, *lookat);
                let hw = fxmul(aspect as int, tan_half_vfov as int);
                c.horizontal.v1 == fxmul(u.0, fxmul(2 * hw, focus_dist as int))
                && c.horizontal.v2 == fxmul(u.1, fxmul(2 * hw, focus_dist as int))
                && c.horizontal.v3 == fxmul(u.2, fxmul(2 * hw, focus_dist as int))
                && c.vertical.v1 == fxmul(v.0, fxmul(2 * tan_half_vfov as int, focus_dist as int))
                && c.vertical.v2 == fxmul(v.1, fxmul(2 * tan_half_vfov as int, focus_dist as int))
                && c.vertical.v3 == fxmul(v.2, fxmul(2 * tan_half_vfov as int, focus_dist as int))
                && c.lower_left_corner.v1 == lookfrom.v1 - fxmul(u.0, fxmul(hw, focus_dist as int))
                    - fxmul(v.0, fxmul(tan_half_vfov as int, focus_dist as int))
                    - fxmul(w.0, focus_dist as int)
                && c.lower_left_corner.v2 == lookfrom.v2 - fxmul(u.1, fxmul(hw, focus_dist as int))
                    - fxmul(v.1, fxmul(tan_half_vfov as int, focus_dist as int))
                    - fxmul(w.1, focus_dist as int)
                && c.lower_left_corner.v3 == lookfrom.v3 - fxmul(u.2, fxmul(hw, focus_dist as int))
                    - fxmul(v.2, fxmul(tan_half_vfov as int, focus_dist as int))
                    - fxmul(w.2, focus_dist as int)
            }),
    {
        let half_height: i64 = tan_half_vfov;
        proof {
            assert(FS as int == 0x100000);
            lemma_mul_abs_bound(aspect as int, half_height as int, 0x200000, 0x80000);
            assert(0x200000 * 0x80000int == 0x100000 * 0x100000int) by (nonlinear_arith);
            lemma_div_range(aspect as int * half_height as int, FS as int, 0x100000);
        }
        let half_width: i64 = fx_mul(aspect, half_height);
        let diff = lookfrom.sub(*lookat);
        proof {
            lemma_nonzero_sq(diff.v1 as int, diff.v2 as int, diff.v3 as int);
        }
        let w = Vec3::unit_vector(diff);
        let cu = Vec3::cross(vup, &w);
        proof {
            lemma_cross_range(*vup, w, 0x400000, 0x200000, 0x100_0000);
            lemma_nonzero_sq(cu.v1 as int, cu.v2 as int, cu.v3 as int);
        }
        let u = Vec3::unit_vector(cu);
        let v = Vec3::cross(&w, &u);
        proof {
            lemma_cross_range(w, u, 0x200000, 0x200000, 0x800000);
        }
        proof {
            lemma_mul_abs_bound(half_width as int, focus_dist as int, 0x100000, 0x100_0000);
            assert(0x100000 * 0x100_0000int == 0x100_0000 * 0x100000int) by (nonlinear_arith);
            lemma_div_range(half_width as int * focus_dist as int, FS as int, 0x100_0000);
            lemma_mul_abs_bound(half_height as int, focus_dist as int, 0x80000, 0x100_0000);
            assert(0x80000 * 0x100_0000int == 0x80_0000 * 0x100000int) by (nonlinear_arith);
            lemma_div_range(half_height as int * focus_dist as int, FS as int, 0x80_0000);
        }
        let s_hw: i64 = fx_mul(half_width, focus_dist);
        let s_hh: i64 = fx_mul(half_height, focus_dist);
        proof {
            lemma_scaled_basis(u, s_hw as int, 0x200000, 0x100_0000, 0x200_0000);
            lemma_scaled_basis(v, s_hh as int, 0x800000, 0x80_0000, 0x400_0000);
            lemma_scaled_basis(w, focus_dist as int, 0x200000, 0x100_0000, 0x200_0000);
        }
        let tu = u.mul_s(s_hw);
        let tv = v.mul_s(s_hh);
        let tw = w.mul_s(focus_dist);
        let lower_left_corner = lookfrom.sub(tu).sub(tv).sub(tw);
        proof {
            lemma_mul_abs_bound(2 * half_width as int, focus_dist as int, 0x200000, 0x100_0000);
            assert(0x200000 * 0x100_0000int == 0x200_0000 * 0x100000int) by (nonlinear_arith);
            lemma_div_range(2 * half_width as int * focus_dist as int, FS as int, 0x200_0000);
            lemma_mul_abs_bound(2 * half_height as int, focus_dist as int, 0x100000, 0x100_0000);
            assert(0x100000 * 0x100_0000int == 0x100_0000 * 0x100000int) by (nonlinear_arith);
            lemma_div_range(2 * half_height as int * focus_dist as int, FS as int, 0x100_0000);
        }
        let sh2: i64 = fx_mul(2 * half_width, focus_dist);
        let sv2: i64 = fx_mul(2 * half_height, focus_dist);
        proof {
            lemma_scaled_basis(u, sh2 as int, 0x200000, 0x200_0000, 0x400_0000);
            lemma_scaled_basis(v, sv2 as int, 0x800000, 0x100_0000, 0x800_0000);
        }
        let horizontal = u.mul_s(sh2);
        let vertical = v.mul_s(sv2);
        proof {
            lemma_mul_abs_bound(aperture as int, FS as int, 0x100000, 0x100000);
            assert(0x100000int * 0x100000int <= 0x100000 * (2 * 0x100000int)) by (nonlinear_arith);
            lemma_div_range(aperture as int * (FS as int), 2 * (FS as int), 0x100000);
            vstd::arithmetic::div_mod::lemma_div_pos_is_pos(
                aperture as int * (FS as int), 2 * (FS as int));
            vstd::arithmetic::mul::lemma_mul_nonnegative(aperture as int, FS as int);
        }
        let lens_radius: i64 = fx_div(aperture, 2 * FS);
        Camera {
            origin: *lookfrom,
            lower_left_corner,
            horizontal,
            vertical,
            u,
            v,
            w,
            lens_radius,
        }
    }

    /// Maps normalized image-plane coordinates `(s, t)` in `[0, 1]` and
    /// one lens-disk sample to a traced ray; the returned ray stays
    /// inside the geometric range of the intersection protocol.
    pub fn get_ray(&self, s: i64, t: i64, src: &mut RandomSource) -> (r: Ray)
        requires
            self.wf(),
            0 <= s <= FS,
            0 <= t <= FS,
        ensures
            bounded(r.a, COORD_MAX as int),
            bounded(r.b, COORD_MAX as int),
            exists|rd: Vec3|
                #![auto]
                dot3(rd, rd) < (FS as int) * (FS as int) && rd.v3 == 0
                    && r.a.v1 == self.origin.v1 + cam_off1(*self, rd)
                    && r.a.v2 == self.origin.v2 + cam_off2(*self, rd)
                    && r.a.v3 == self.origin.v3 + cam_off3(*self, rd)
                    && r.b.v1 == self.lower_left_corner.v1
                        + fxmul(self.horizontal.v1 as int, s as int)
                        + fxmul(self.vertical.v1 as int, t as int)
                        - self.origin.v1 - cam_off1(*self, rd)
                    && r.b.v2 == self.lower_left_corner.v2
                        + fxmul(self.horizontal.v2 as int, s as int)
                        + fxmul(self.vertical.v2 as int, t as int)
                        - self.origin.v2 - cam_off2(*self, rd)
                    && r.b.v3 == self.lower_left_corner.v3
                        + fxmul(self.horizontal.v3 as int, s as int)
                        + fxmul(self.vertical.v3 as int, t as int)
                        - self.origin.v3 - cam_off3(*self, rd),
    {
        let rd = random_in_unit_disk(src);
        proof {
            assert(FS as int == 0x100000);
            lemma_mul_abs_bound(rd.v1 as int, self.lens_radius as int, 0x100000, 0x100000);
            lemma_mul_abs_bound(rd.v2 as int, self.lens_radius as int, 0x100000, 0x100000);
            lemma_div_range(rd.v1 as int * self.lens_radius as int, FS as int, 0x100000);
            lemma_div_range(rd.v2 as int * self.lens_radius as int, FS as int, 0x100000);
        }
        let rdx: i64 = fx_mul(rd.x(), self.lens_radius);
        let rdy: i64 = fx_mul(rd.y(), self.lens_radius);
        proof {
            lemma_scaled_basis(self.u, rdx as int, 0x200000, 0x100000, 0x200000);
            lemma_scaled_basis(self.v, rdy as int, 0x800000, 0x100000, 0x800000);
        }
        let offset = self.u.mul_s(rdx).add(self.v.mul_s(rdy));
        let a = self.origin.add(offset);
        proof {
            lemma_scaled_basis(self.horizontal, s as int, 0x400_0000, 0x100000, 0x400_0000);
            lemma_scaled_basis(self.vertical, t as int, 0x800_0000, 0x100000, 0x800_0000);
        }
        let hs = self.horizontal.mul_s(s);
        let vt = self.vertical.mul_s(t);
        let b = self.lower_left_corner.add(hs).add(vt).sub(self.origin).sub(offset);
        proof {
            let rr = Ray { a, b };
            assert(dot3(rd, rd) < (FS as int) * (FS as int) && rd.v3 == 0
                && rr.a.v1 == self.origin.v1 + cam_off1(*self, rd)
                && rr.a.v2 == self.origin.v2 + cam_off2(*self, rd)
                && rr.a.v3 == self.origin.v3 + cam_off3(*self, rd));
        }
        Ray { a, b }
    }
}

/// If some coordinate is nonzero, the squared norm is positive.
proof fn lemma_nonzero_sq(x1: int, x2: int, x3: int)
    requires
        !(x1 == 0 && x2 == 0 && x3 == 0),
    ensures
        x1 * x1 + x2 * x2 + x3 * x3 > 0,
{
    assert(x1 != 0 ==> x1 * x1 > 0) by (nonlinear_arith);
    assert(x2 != 0 ==> x2 * x2 > 0) by (nonlinear_arith);
    assert(x3 != 0 ==> x3 * x3 > 0) by (nonlinear_arith);
    crate::vec3::lemma_sq_nonneg(x1);
    crate::vec3::lemma_sq_nonneg(x2);
    crate::vec3::lemma_sq_nonneg(x3);
}

/// Bounds on the coordinates of a cross product of bounded vectors.
proof fn lemma_cross_range(a: Vec3, b: Vec3, ma: int, mb: int, bd: int)
    requires
        bounded(a, ma),
        bounded(b, mb),
        0 <= ma,
        0 <= mb,
        0 <= bd,
        2 * (ma * mb) <= bd * (FS as int),
    ensures
        -bd <= (a.v2 * b.v3 - a.v3 * b.v2) / (FS as int) <= bd,
        -bd <= (a.v3 * b.v1 - a.v1 * b.v3) / (FS as int) <= bd,
        -bd <= (a.v1 * b.v2 - a.v2 * b.v1) / (FS as int) <= bd,
{
    lemma_mul_abs_bound(a.v1 as int, b.v2 as int, ma, mb);
    lemma_mul_abs_bound(a.v2 as int, b.v1 as int, ma, mb);
    lemma_mul_abs_bound(a.v2 as int, b.v3 as int, ma, mb);
    lemma_mul_abs_bound(a.v3 as int, b.v2 as int, ma, mb);
    lemma_mul_abs_bound(a.v3 as int, b.v1 as int, ma, mb);
    lemma_mul_abs_bound(a.v1 as int, b.v3 as int, ma, mb);
    lemma_div_range(a.v2 * b.v3 - a.v3 * b.v2, FS as int, bd);
    lemma_div_range(a.v3 * b.v1 - a.v1 * b.v3, FS as int, bd);
    lemma_div_range(a.v1 * b.v2 - a.v2 * b.v1, FS as int, bd);
}

/// Scaling a bounded vector by a bounded fixed-point scalar keeps each
/// coordinate within the given quotient bound.
proof fn lemma_scaled_basis(v: Vec3, k: int, vb: int, m: int, out: int)
    requires
        bounded(v, vb),
        -m <= k <= m,
        0 <= vb,
        0 <= m,
        0 <= out,
        vb * m <= out * (FS as int),
    ensures
        -out <= fxmul(v.v1 as int, k) <= out,
        -out <= fxmul(v.v2 as int, k) <= out,
        -out <= fxmul(v.v3 as int, k) <= out,
{
    lemma_mul_abs_bound(v.v1 as int, k, vb, m);
    lemma_mul_abs_bound(v.v2 as int, k, vb, m);
    lemma_mul_abs_bound(v.v3 as int, k, vb, m);
    lemma_div_range(v.v1 as int * k, FS as int, out);
    lemma_div_range(v.v2 as int * k, FS as int, out);
    lemma_div_range(v.v3 as int * k, FS as int, out);
}

} // verus!
