//! Fixed-point scalar arithmetic.
//!
//! A scalar is an `i64` counting steps of `1/FS`; the value `FS` itself is
//! the number one. Products and quotients are rounded with floor division
//! (the Euclidean convention), so every operation here has an exact
//! integer specification.

use vstd::prelude::*;
use vstd::arithmetic::div_mod::{lemma_div_is_ordered, lemma_div_multiples_vanish};

verus! {

/// One world unit expressed in fixed-point steps (2^20).
pub const FS: i64 = 1048576;

/// The fixed-point product: `a * b` scaled back down by `FS`, floor-rounded.
pub open spec fn fxmul(a: int, b: int) -> int {
    (a * b) / (FS as int)
}

/// The fixed-point quotient: `a / b` scaled up by `FS` first, floor-rounded.
pub open spec fn fxdiv(a: int, b: int) -> int {
    (a * FS) / b
}

/// `r` is the integer square root of `x`, rounded down.
pub open spec fn is_sqrt_floor(x: int, r: int) -> bool {
    0 <= r && r * r <= x && x < (r + 1) * (r + 1)
}

/// The integer square root of `x`, rounded down (meaningful for `x >= 0`).
pub open spec fn sqrt_floor(x: int) -> int {
    choose|r: int| #[trigger] is_sqrt_floor(x, r)
}

/// Every nonnegative integer has a floor square root.
pub proof fn lemma_sqrt_floor_exists(x: nat)
    ensures
        exists|r: int| #[trigger] is_sqrt_floor(x as int, r),
    decreases x,
{
    if x == 0 {
        assert(is_sqrt_floor(0, 0));
    } else {
        lemma_sqrt_floor_exists((x - 1) as nat);
        let r = choose|r: int| #[trigger] is_sqrt_floor(x - 1, r);
        if x < (r + 1) * (r + 1) {
            assert(is_sqrt_floor(x as int, r));
        } else {
            assert(x == (r + 1) * (r + 1));
            assert((r + 2) * (r + 2) > (r + 1) * (r + 1)) by (nonlinear_arith)
                requires r >= 0;
            assert(is_sqrt_floor(x as int, r + 1));
        }
    }
}

/// The floor square root is unique, so `sqrt_floor` picks the witness.
pub proof fn lemma_sqrt_floor_is(x: int, r: int)
    requires
        is_sqrt_floor(x, r),
    ensures
        sqrt_floor(x) == r,
{
    let s = sqrt_floor(x);
    assert(is_sqrt_floor(x, s));
    if s < r {
        assert((s + 1) * (s + 1) <= r * r) by (nonlinear_arith)
            requires 0 <= s, s < r;
        assert(false);
    }
    if r < s {
        assert((r + 1) * (r + 1) <= s * s) by (nonlinear_arith)
            requires 0 <= r, r < s;
        assert(false);
    }
}

/// A product is bounded by the product of the bounds on its factors.
pub proof fn lemma_mul_abs_bound(a: int, b: int, m: int, n: int)
    requires
        -m <= a <= m,
        -n <= b <= n,
    ensures
        -(m * n) <= a * b <= m * n,
{
    assert(-(m * n) <= a * b && a * b <= m * n) by (nonlinear_arith)
        requires -m <= a <= m, -n <= b <= n;
}

/// Floor division by a positive `d` keeps a quotient within `bnd` whenever
/// the dividend lies within `bnd * d`.
pub proof fn lemma_div_range(x: int, d: int, bnd: int)
    requires
        d >= 1,
        0 <= bnd,
        -(bnd * d) <= x <= bnd * d,
    ensures
        -bnd <= x / d <= bnd,
{
    lemma_div_is_ordered(x, bnd * d, d);
    lemma_div_is_ordered(-(bnd * d), x, d);
    lemma_div_multiples_vanish(bnd, d);
    lemma_div_multiples_vanish(-bnd, d);
    assert(d * bnd == bnd * d) by (nonlinear_arith);
    assert(d * -bnd == -(bnd * d)) by (nonlinear_arith);
}

/// The integer square root of `x`, found by binary search on the root.
pub fn isqrt_u128(x: u128) -> (r: u128)
    requires
        x < 0x4000_0000_0000_0000_0000_0000_0000_0000,
    ensures
        is_sqrt_floor(x as int, r as int),
        r as int == sqrt_floor(x as int),
{
    let mut lo: u128 = 0;
    let mut hi: u128 = 0x8000_0000_0000_0000;
    proof {
        assert(hi * hi == 0x4000_0000_0000_0000_0000_0000_0000_0000) by (nonlinear_arith)
            requires hi == 0x8000_0000_0000_0000u128;
    }
    while lo + 1 < hi
        invariant
            0 <= lo < hi <= 0x8000_0000_0000_0000,
            lo * lo <= x,
            x < hi * hi,
        decreases hi - lo,
    {
        let mid: u128 = lo + (hi - lo) / 2;
        proof {
            lemma_mul_abs_bound(mid as int, mid as int, hi as int, hi as int);
            lemma_mul_abs_bound(hi as int, hi as int,
                0x8000_0000_0000_0000, 0x8000_0000_0000_0000);
            assert(0x8000_0000_0000_0000 * 0x8000_0000_0000_0000
                <= u128::MAX as int) by (nonlinear_arith);
        }
        if mid * mid <= x {
            lo = mid;
        } else {
            hi = mid;
        }
    }
    proof {
        assert((lo + 1) * (lo + 1) >= hi * hi) by (nonlinear_arith)
            requires lo + 1 >= hi, hi >= 1;
        lemma_sqrt_floor_is(x as int, lo as int);
    }
    lo
}

/// Fixed-point multiplication: exact product, floor-divided by `FS`.
pub fn fx_mul(a: i64, b: i64) -> (r: i64)
    requires
        i64::MIN <= fxmul(a as int, b as int) <= i64::MAX,
    ensures
        r as int == fxmul(a as int, b as int),
{
    proof {
        lemma_mul_abs_bound(a as int, b as int,
            0x8000_0000_0000_0000, 0x8000_0000_0000_0000);
        assert(0x8000_0000_0000_0000 * 0x8000_0000_0000_0000 < i128::MAX as int + 1)
            by (nonlinear_arith);
    }
    let p: i128 = (a as i128) * (b as i128);
    proof {
        assert(FS as int == 0x100000);
        assert(0x400_0000_0000_0000_0000_0000_0000 * 0x100000int
            == 0x4000_0000_0000_0000_0000_0000_0000_0000int) by (nonlinear_arith);
        lemma_div_range(p as int, FS as int, 0x400_0000_0000_0000_0000_0000_0000);
    }
    let q: i128 = match p.checked_div_euclid(FS as i128) {
        Some(q) => q,
        None => 0,
    };
    q as i64
}

/// Fixed-point division by a positive scalar: `a` scaled up by `FS`,
/// floor-divided by `b`.
pub fn fx_div(a: i64, b: i64) -> (r: i64)
    requires
        b > 0,
        i64::MIN <= fxdiv(a as int, b as int) <= i64::MAX,
    ensures
        r as int == fxdiv(a as int, b as int),
{
    proof {
        lemma_mul_abs_bound(a as int, FS as int, 0x8000_0000_0000_0000, FS as int);
        assert(0x8000_0000_0000_0000 * (FS as int) < i128::MAX as int + 1) by (nonlinear_arith);
    }
    let p: i128 = (a as i128) * (FS as i128);
    proof {
        assert(FS as int == 0x100000);
        assert(p as int <= 0x8000_0000_0000_0000_0000_0000 * b as int
            && -(0x8000_0000_0000_0000_0000_0000 * b as int) <= p as int)
        by (nonlinear_arith)
            requires
                1 <= b as int <= 0x8000_0000_0000_0000,
                -(0x8000_0000_0000_0000 * 0x100000) <= p as int <= 0x8000_0000_0000_0000 * 0x100000;
        lemma_div_range(p as int, b as int, 0x8000_0000_0000_0000_0000_0000);
    }
    let q: i128 = match p.checked_div_euclid(b as i128) {
        Some(q) => q,
        None => 0,
    };
    q as i64
}

/// Fixed-point square root of a nonnegative scalar: `sqrt(x/FS)*FS`,
/// computed as the integer root of `x * FS`.
pub fn fx_sqrt(x: i64) -> (r: i64)
    requires
        x >= 0,
    ensures
        r as int == sqrt_floor(x as int * FS as int),
        is_sqrt_floor(x as int * FS as int, r as int),
        0 <= r <= 0x400_0000_0000,
{
    proof {
        lemma_mul_abs_bound(x as int, FS as int, 0x8000_0000_0000_0000, FS as int);
        assert(0x8000_0000_0000_0000 * (FS as int)
            < 0x4000_0000_0000_0000_0000_0000_0000_0000) by (nonlinear_arith);
    }
    let p: u128 = (x as u128) * (FS as u128);
    let r: u128 = isqrt_u128(p);
    proof {
        assert(FS as int == 0x100000);
        assert(r as int <= 0x400_0000_0000) by (nonlinear_arith)
            requires
                0 <= r as int,
                (r as int) * (r as int) <= p as int,
                p as int <= 0x8000_0000_0000_0000 * 0x100000;
    }
    r as i64
}

} // verus!
