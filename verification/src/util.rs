//! Scalar clamping and the random sample source.
//!
//! The sampler is an explicit linear-congruential generator whose state is
//! passed by value to each rendering worker and seeded deterministically from
//! a top-level seed plus the pixel position, so a render is reproducible and
//! independent of how rows are scheduled across workers.

use vstd::prelude::*;
use vstd::arithmetic::div_mod::*;
use crate::fixed::UNIT;

verus! {

/// Clamps `x` into `[min, max]`.
pub fn clamp(x: i64, min: i64, max: i64) -> (r: i64)
    requires
        min <= max,
    ensures
        x < min ==> r == min,
        x > max ==> r == max,
        min <= x <= max ==> r == x,
{
    if x < min {
        min
    } else if x > max {
        max
    } else {
        x
    }
}

/// The multiplier of the linear-congruential step.
pub const STEP_MUL: u64 = 6364136223846793005;

/// The increment of the linear-congruential step.
pub const STEP_INC: u64 = 1442695040888963407;

/// The state reached from `s` by one linear-congruential step, modulo `2^64`.
#[verifier::opaque]
pub open spec fn next_state_spec(s: u64) -> u64 {
    ((STEP_MUL * s + STEP_INC) % 0x1_0000_0000_0000_0000) as u64
}

/// The fixed-point sample in `[0, UNIT)` drawn from state `s`: the top 32 bits
/// of the state, mapped affinely onto one unit.
#[verifier::opaque]
pub open spec fn unit_sample_spec(s: u64) -> int {
    ((s / 0x1_0000_0000) * (UNIT as int)) / 0x1_0000_0000
}

/// The sample drawn from any state lies in `[0, UNIT)`.
pub proof fn lemma_unit_sample_range(s: u64)
    ensures
        0 <= unit_sample_spec(s) < UNIT,
{
    reveal(unit_sample_spec);
    let hi = s as int / 0x1_0000_0000;
    lemma_div_pos_is_pos(s as int, 0x1_0000_0000);
    assert(0x1_0000_0000int * 0x1_0000_0000int == 0x1_0000_0000_0000_0000int)
        by (nonlinear_arith);
    lemma_multiply_divide_lt(s as int, 0x1_0000_0000, 0x1_0000_0000);
    assert(hi * (UNIT as int) < 0x1_0000_0000 * (UNIT as int)) by (nonlinear_arith)
        requires 0 <= hi < 0x1_0000_0000;
    assert(0x1_0000_0000int * (UNIT as int) == 0x1_0000_0000int * 1_000_000int);
    lemma_multiply_divide_lt(hi * (UNIT as int), 0x1_0000_0000, UNIT as int);
    lemma_div_pos_is_pos(hi * (UNIT as int), 0x1_0000_0000);
    vstd::arithmetic::mul::lemma_mul_nonnegative(hi, UNIT as int);
}

/// The state reached from `s` after `n` linear-congruential steps.
pub open spec fn state_after(s: u64, n: nat) -> u64
    decreases n,
{
    if n == 0 {
        s
    } else {
        next_state_spec(state_after(s, (n - 1) as nat))
    }
}

/// The starting state of one pixel's sample stream: the top-level seed mixed
/// with the pixel position, modulo `2^64`.
#[verifier::opaque]
pub open spec fn pixel_seed_spec(seed: u64, i: u64, j: u64) -> u64 {
    ((seed + i * 0x9E3779B97F4A7C15 + j * 0xC2B2AE3D27D4EB4F) % 0x1_0000_0000_0000_0000) as u64
}

/// An explicit, deterministically seeded pseudo-random source.
pub struct Rng {
    /// The current generator state.
    pub state: u64,
}

impl Rng {
    /// A generator started at `seed`.
    pub fn new(seed: u64) -> (r: Rng)
        ensures
            r.state == seed,
    {
        Rng { state: seed }
    }

    /// The generator for one pixel: the top-level seed mixed with the pixel
    /// position, so that each pixel's sample stream is fixed by `(seed, i, j)`
    /// alone, whatever worker renders it.
    pub fn for_pixel(seed: u64, i: u64, j: u64) -> (r: Rng)
        requires
            i <= 0xFFFF_FFFF,
            j <= 0xFFFF_FFFF,
        ensures
            r.state == pixel_seed_spec(seed, i, j),
    {
        proof {
            reveal(pixel_seed_spec);
        }
        let mix: u128 = (seed as u128) + (i as u128) * 0x9E3779B97F4A7C15
            + (j as u128) * 0xC2B2AE3D27D4EB4F;
        let folded: u128 = mix % 0x1_0000_0000_0000_0000;
        proof {
            lemma_mod_bound(mix as int, 0x1_0000_0000_0000_0000);
        }
        Rng { state: folded as u64 }
    }

    /// Advances the state by one step and returns a fixed-point sample
    /// uniform over `[0, UNIT)`.
    pub fn next_unit(&mut self) -> (r: i64)
        ensures
            final(self).state == next_state_spec(old(self).state),
            r == unit_sample_spec(final(self).state),
            0 <= r < UNIT,
    {
        proof {
            reveal(next_state_spec);
            reveal(unit_sample_spec);
            vstd::arithmetic::mul::lemma_mul_inequality(self.state as int, 0xFFFF_FFFF_FFFF_FFFF,
                STEP_MUL as int);
            vstd::arithmetic::mul::lemma_mul_is_commutative(self.state as int, STEP_MUL as int);
        }
        let wide: u128 = (STEP_MUL as u128) * (self.state as u128) + (STEP_INC as u128);
        let folded: u128 = wide % 0x1_0000_0000_0000_0000;
        proof {
            lemma_mod_bound(wide as int, 0x1_0000_0000_0000_0000);
        }
        self.state = folded as u64;
        proof {
            lemma_unit_sample_range(self.state);
        }
        let hi: u64 = self.state / 0x1_0000_0000;
        let scaled: u64 = (hi * (UNIT as u64)) / 0x1_0000_0000;
        proof {
            reveal(unit_sample_spec);
            lemma_div_bound(self.state as int, 0x1_0000_0000);
            vstd::arithmetic::mul::lemma_mul_strict_inequality(hi as int, 0x1_0000_0000,
                UNIT as int);
            lemma_multiply_divide_lt(hi as int * (UNIT as int), 0x1_0000_0000, UNIT as int);
            lemma_div_pos_is_pos(hi as int * (UNIT as int), 0x1_0000_0000);
        }
        scaled as i64
    }
}

/// A positive dividend divided by a positive divisor stays under the dividend's
/// bound over that divisor.
proof fn lemma_div_bound(x: int, d: int)
    requires
        0 <= x,
        1 <= d,
    ensures
        0 <= x / d <= x,
{
    lemma_div_pos_is_pos(x, d);
    lemma_div_nonincreasing(x, d);
}

} // verus!
