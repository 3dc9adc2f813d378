//! The explicit randomness source threaded through every stochastic
//! operation, and rejection sampling of the unit ball.
//!
//! All randomness comes from the `rand` crate behind two trusted items;
//! everything stated of a random value holds for every outcome.

use vstd::prelude::*;
use crate::fixed::{FS, lemma_mul_abs_bound};
use crate::vec3::{Vec3, dot3, bounded};

verus! {

#[verifier::external_type_specification]
#[verifier::external_body]
pub struct ExStdRng(rand::rngs::StdRng);

/// An explicit, seedable random source. Threading it through the calls
/// keeps sampling reproducible under a fixed seed and free of global
/// state.
pub struct RandomSource {
    rng: rand::rngs::StdRng,
}

/// Relies on rand's `SeedableRng::seed_from_u64` for `StdRng`: builds a
/// deterministic generator from the seed.
#[verifier::external_body]
pub fn seed_source(seed: u64) -> (r: RandomSource)
{
    RandomSource { rng: rand::SeedableRng::seed_from_u64(seed) }
}

/// Relies on rand's `Rng::gen_range` on an inclusive range: the sample
/// lies between the bounds. Nothing more is claimed of it.
#[verifier::external_body]
pub fn gen_in(src: &mut RandomSource, lo: i64, hi: i64) -> (r: i64)
    requires
        lo <= hi,
    ensures
        lo <= r <= hi,
{
    rand::Rng::gen_range(&mut src.rng, lo..=hi)
}

/// One uniform sample of the unit interval, as a fixed-point scalar
/// in `[0, 1)`.
pub fn random_unit(src: &mut RandomSource) -> (r: i64)
    ensures
        0 <= r < FS,
{
    gen_in(src, 0, FS - 1)
}

/// A point strictly inside the unit ball, by bounded rejection sampling
/// of the cube `[-1, 1]^3`; after the retry budget a fixed interior
/// point is returned so the bound holds on every path.
pub fn random_in_unit_sphere(src: &mut RandomSource) -> (p: Vec3)
    ensures
        bounded(p, FS as int),
        dot3(p, p) < (FS as int) * (FS as int),
{
    let mut tries: u32 = 0;
    while tries < 64
        invariant
            tries <= 64,
        decreases 64 - tries,
    {
        let x = gen_in(src, -FS, FS);
        let y = gen_in(src, -FS, FS);
        let z = gen_in(src, -FS, FS);
        let q = Vec3 { v1: x, v2: y, v3: z };
        proof {
            lemma_cube_dot_fits(q);
        }
        let s: i64 = x * x + y * y + z * z;
        if s < FS * FS {
            return q;
        }
        tries = tries + 1;
    }
    proof {
        lemma_cube_dot_fits(Vec3 { v1: 0x80000, v2: 0, v3: 0 });
        assert(0x80000int * 0x80000int < 0x100000int * 0x100000int)
            by (nonlinear_arith);
        assert(FS as int == 0x100000);
    }
    Vec3 { v1: 0x80000, v2: 0, v3: 0 }
}

/// A point strictly inside the unit disk of the lens plane, by the same
/// bounded rejection sampling.
pub fn random_in_unit_disk(src: &mut RandomSource) -> (p: Vec3)
    ensures
        bounded(p, FS as int),
        p.v3 == 0,
        dot3(p, p) < (FS as int) * (FS as int),
{
    let mut tries: u32 = 0;
    while tries < 64
        invariant
            tries <= 64,
        decreases 64 - tries,
    {
        let x = gen_in(src, -FS, FS);
        let y = gen_in(src, -FS, FS);
        let q = Vec3 { v1: x, v2: y, v3: 0 };
        proof {
            lemma_cube_dot_fits(q);
        }
        let s: i64 = x * x + y * y;
        if s < FS * FS {
            return q;
        }
        tries = tries + 1;
    }
    proof {
        lemma_cube_dot_fits(Vec3 { v1: 0x80000, v2: 0, v3: 0 });
        assert(0x80000int * 0x80000int < 0x100000int * 0x100000int)
            by (nonlinear_arith);
        assert(FS as int == 0x100000);
    }
    Vec3 { v1: 0x80000, v2: 0, v3: 0 }
}

/// Squared coordinates of a unit-cube sample fit comfortably in 64 bits.
proof fn lemma_cube_dot_fits(q: Vec3)
    requires
        bounded(q, FS as int),
    ensures
        0 <= q.v1 * q.v1 <= 0x100_0000_0000,
        0 <= q.v2 * q.v2 <= 0x100_0000_0000,
        0 <= q.v3 * q.v3 <= 0x100_0000_0000,
{
    assert(FS as int == 0x100000);
    lemma_mul_abs_bound(q.v1 as int, q.v1 as int, 0x100000, 0x100000);
    lemma_mul_abs_bound(q.v2 as int, q.v2 as int, 0x100000, 0x100000);
    lemma_mul_abs_bound(q.v3 as int, q.v3 as int, 0x100000, 0x100000);
    crate::vec3::lemma_sq_nonneg(q.v1 as int);
    crate::vec3::lemma_sq_nonneg(q.v2 as int);
    crate::vec3::lemma_sq_nonneg(q.v3 as int);
    assert(0x100000 * 0x100000int == 0x100_0000_0000) by (nonlinear_arith);
}

} // verus!
