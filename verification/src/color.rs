//! Color accumulation and the quantized output encoding.
//!
//! A pixel accumulates one color per sample; the encoder divides by the
//! sample count, gamma-corrects with a square root, clamps, and quantizes
//! each channel to `0..=255`. Writing the text itself is the caller's
//! business; this module computes the exact triplet.

use vstd::prelude::*;
use crate::fixed::{UNIT, tdiv, sqrt_floor, fx_sqrt, lemma_tdiv_shrinks, lemma_tdiv_mono,
    lemma_tdiv_exact, lemma_sqrt_floor_bounds};
use crate::vec3::Vec3;
use crate::util::clamp;

verus! {

/// A color, its channels fixed-point values conventionally in `[0, UNIT]`.
pub type Color = Vec3;

/// The clamp ceiling before quantization: just under one, so that the
/// quantized channel never reaches 256.
pub const CHANNEL_CEIL: i64 = 999_000;

/// What one encoded channel is: the accumulated value averaged over the
/// samples, clamped into `[0, CHANNEL_CEIL]`, square-rooted at fixed point,
/// and scaled to `0..=255`.
pub open spec fn channel_spec(c: int, samples: int) -> int {
    let avg = tdiv(c, samples);
    let clamped = if avg < 0 {
        0
    } else if avg > CHANNEL_CEIL {
        CHANNEL_CEIL as int
    } else {
        avg
    };
    tdiv(256 * (sqrt_floor((clamped * UNIT) as nat) as int), UNIT as int)
}

/// Encodes an accumulated pixel color into one quantized `R G B` triplet.
pub fn write_color(color: Color, samples_per_pixel: i64) -> (rgb: (i32, i32, i32))
    requires
        samples_per_pixel >= 1,
    ensures
        rgb.0 == channel_spec(color.x as int, samples_per_pixel as int),
        rgb.1 == channel_spec(color.y as int, samples_per_pixel as int),
        rgb.2 == channel_spec(color.z as int, samples_per_pixel as int),
        0 <= rgb.0 <= 255,
        0 <= rgb.1 <= 255,
        0 <= rgb.2 <= 255,
{
    let r = encode_channel(color.x(), samples_per_pixel);
    let g = encode_channel(color.y(), samples_per_pixel);
    let b = encode_channel(color.z(), samples_per_pixel);
    (r, g, b)
}

/// Encodes one channel.
fn encode_channel(c: i64, samples: i64) -> (r: i32)
    requires
        samples >= 1,
    ensures
        r == channel_spec(c as int, samples as int),
        0 <= r <= 255,
{
    proof {
        lemma_tdiv_shrinks(c as int, samples as int);
    }
    let avg: i64 = c / samples;
    let clamped: i64 = clamp(avg, 0, CHANNEL_CEIL);
    let root: i64 = fx_sqrt(clamped);
    proof {
        lemma_sqrt_floor_bounds((clamped as int * UNIT) as nat);
        // Anything at or past 999500 squares beyond the clamped maximum.
        assert(999_500int * 999_500int > 999_000int * 1_000_000int) by (nonlinear_arith);
        if root as int >= 999_500 {
            assert(root as int * root as int >= 999_500int * 999_500int) by (nonlinear_arith)
                requires root as int >= 999_500;
            assert(clamped as int * UNIT <= 999_000int * 1_000_000int) by (nonlinear_arith)
                requires clamped <= 999_000, UNIT == 1_000_000i64;
        }
        assert(root < 999_500);
        lemma_tdiv_mono(0, 256 * root as int, UNIT as int);
        lemma_tdiv_mono(256 * (root as int), 256int * 999_499int, UNIT as int);
        lemma_tdiv_shrinks(256 * (root as int), UNIT as int);
    }
    let scaled: i64 = (256 * root) / UNIT;
    scaled as i32
}

} // verus!
