//! Fixed-point scalar arithmetic.
//!
//! A scalar is an `i64` holding a real value scaled by `UNIT`: the integer
//! `s` stands for the real number `s / UNIT`. Multiplication and division
//! truncate toward zero, which `tdiv` captures exactly; square roots round
//! down, which `sqrt_floor` captures exactly.

use vstd::prelude::*;
use vstd::arithmetic::div_mod::*;
use vstd::arithmetic::mul::*;

verus! {

/// One whole unit: the scale factor between reals and their fixed-point form.
pub const UNIT: i64 = 1_000_000;

/// Half a unit, the diffuse albedo used by the integrator.
pub const HALF_UNIT: i64 = 500_000;

/// Truncating division (toward zero), the semantics of `/` on machine
/// integers, stated for a positive divisor. The library divides only by
/// positive quantities — lengths, radii, sample counts, positive scalars —
/// so its contracts and the supporting lemmas are stated over positive
/// divisors throughout; a negative divisor has no caller to serve.
pub open spec fn tdiv(a: int, b: int) -> int {
    if a >= 0 {
        a / b
    } else {
        -((-a) / b)
    }
}

/// Whether a mathematical integer fits in an `i64`.
pub open spec fn fits_i64(a: int) -> bool {
    i64::MIN <= a <= i64::MAX
}

/// The integer square root, rounded down.
pub open spec fn sqrt_floor(n: nat) -> nat
    decreases n,
{
    if n == 0 {
        0
    } else {
        let p = sqrt_floor((n - 1) as nat);
        if (p + 1) * (p + 1) <= n {
            (p + 1) as nat
        } else {
            p
        }
    }
}

/// `sqrt_floor(n)` is the greatest integer whose square does not exceed `n`.
pub proof fn lemma_sqrt_floor_bounds(n: nat)
    ensures
        sqrt_floor(n) * sqrt_floor(n) <= n,
        n < (sqrt_floor(n) + 1) * (sqrt_floor(n) + 1),
    decreases n,
{
    if n == 0 {
        assert(sqrt_floor(0) == 0);
        assert(sqrt_floor(n) * sqrt_floor(n) <= n);
        assert(n < (sqrt_floor(n) + 1) * (sqrt_floor(n) + 1)) by (nonlinear_arith)
            requires n == 0, sqrt_floor(n) == 0;
    } else {
        lemma_sqrt_floor_bounds((n - 1) as nat);
        let p = sqrt_floor((n - 1) as nat);
        assert(sqrt_floor(n) == if (p + 1) * (p + 1) <= n {
            (p + 1) as nat
        } else {
            p
        });
        if (p + 1) * (p + 1) <= n {
            assert(n - 1 < (p + 1) * (p + 1));
            assert(n == (p + 1) * (p + 1));
            assert(((p + 1) + 1) * ((p + 1) + 1) > (p + 1) * (p + 1)) by (nonlinear_arith);
            assert(sqrt_floor(n) * sqrt_floor(n) <= n);
            assert(n < (sqrt_floor(n) + 1) * (sqrt_floor(n) + 1));
        } else {
            assert(sqrt_floor(n) * sqrt_floor(n) <= n);
            assert(n < (sqrt_floor(n) + 1) * (sqrt_floor(n) + 1));
        }
    }
}

/// Any integer squeezed between two consecutive squares is the square root.
pub proof fn lemma_sqrt_floor_unique(n: nat, r: nat)
    requires
        r * r <= n,
        n < (r + 1) * (r + 1),
    ensures
        sqrt_floor(n) == r,
{
    lemma_sqrt_floor_bounds(n);
    let s = sqrt_floor(n);
    if s < r {
        assert((s + 1) * (s + 1) <= r * r) by (nonlinear_arith)
            requires s + 1 <= r;
    }
    if r < s {
        assert((r + 1) * (r + 1) <= s * s) by (nonlinear_arith)
            requires r + 1 <= s;
    }
}

/// The square root grows with its argument.
pub proof fn lemma_sqrt_floor_mono(a: nat, b: nat)
    requires
        a <= b,
    ensures
        sqrt_floor(a) <= sqrt_floor(b),
{
    lemma_sqrt_floor_bounds(a);
    lemma_sqrt_floor_bounds(b);
    let sa = sqrt_floor(a);
    let sb = sqrt_floor(b);
    if sb < sa {
        assert((sb + 1) * (sb + 1) <= sa * sa) by (nonlinear_arith)
            requires sb + 1 <= sa;
    }
}

/// A square bound transfers to the square root.
pub proof fn lemma_sqrt_floor_le(n: nat, m: nat)
    requires
        n <= m * m,
    ensures
        sqrt_floor(n) <= m,
{
    lemma_sqrt_floor_bounds(n);
    let s = sqrt_floor(n);
    if m < s {
        assert(s * s <= m * m);
        assert(false) by (nonlinear_arith)
            requires m < s, s * s <= m * m, 0 <= m;
    }
}

/// Truncating division never grows the magnitude, for a divisor of at least one.
pub proof fn lemma_tdiv_shrinks(a: int, b: int)
    requires
        b >= 1,
    ensures
        a >= 0 ==> 0 <= tdiv(a, b) <= a,
        a < 0 ==> a <= tdiv(a, b) <= 0,
{
    if a >= 0 {
        lemma_div_pos_is_pos(a, b);
        lemma_div_nonincreasing(a, b);
    } else {
        lemma_div_pos_is_pos(-a, b);
        lemma_div_nonincreasing(-a, b);
    }
}

/// Truncating division is monotone in the dividend, for a positive divisor.
pub proof fn lemma_tdiv_mono(a: int, b: int, d: int)
    requires
        a <= b,
        d >= 1,
    ensures
        tdiv(a, d) <= tdiv(b, d),
{
    if a >= 0 {
        lemma_div_is_ordered(a, b, d);
    } else if b < 0 {
        lemma_div_is_ordered(-b, -a, d);
    } else {
        lemma_div_pos_is_pos(-a, d);
        lemma_div_pos_is_pos(b, d);
    }
}

/// Truncating division sandwiches the dividend between consecutive multiples
/// of the divisor, on the dividend's side of zero.
pub proof fn lemma_tdiv_sandwich(x: int, d: int)
    requires
        d >= 1,
    ensures
        x >= 0 ==> tdiv(x, d) * d <= x < (tdiv(x, d) + 1) * d,
        x < 0 ==> (tdiv(x, d) - 1) * d < x <= tdiv(x, d) * d,
{
    if x >= 0 {
        lemma_fundamental_div_mod(x, d);
        lemma_mod_bound(x, d);
        assert((x / d + 1) * d == (x / d) * d + d) by (nonlinear_arith);
        assert(d * (x / d) == (x / d) * d) by (nonlinear_arith);
    } else {
        lemma_fundamental_div_mod(-x, d);
        lemma_mod_bound(-x, d);
        assert(d * ((-x) / d) == ((-x) / d) * d) by (nonlinear_arith);
        assert((-((-x) / d) - 1) * d == -(((-x) / d) * d) - d) by (nonlinear_arith);
        assert(-((-x) / d) * d == -(((-x) / d) * d)) by (nonlinear_arith);
    }
}
pub proof fn lemma_tdiv_exact(k: int, b: int)
    requires
        b >= 1,
    ensures
        tdiv(k * b, b) == k,
{
    if k >= 0 {
        lemma_div_by_multiple(k, b);
    } else {
        lemma_div_by_multiple(-k, b);
        assert(-(k * b) == (-k) * b) by (nonlinear_arith);
    }
}

/// A product of bounded factors is bounded.
pub proof fn lemma_mul_bounds_both(x: int, y: int, bx: int, by: int)
    requires
        -bx <= x <= bx,
        -by <= y <= by,
        0 <= bx,
        0 <= by,
    ensures
        -(bx * by) <= x * y <= bx * by,
{
    assert(-(bx * by) <= x * y <= bx * by) by (nonlinear_arith)
        requires -bx <= x <= bx, -by <= y <= by, 0 <= bx, 0 <= by;
}

/// The product of two 64-bit values always fits a 128-bit value.
pub proof fn lemma_i64_product_fits(a: int, b: int)
    requires
        i64::MIN <= a <= i64::MAX,
        i64::MIN <= b <= i64::MAX,
    ensures
        i128::MIN <= a * b <= i128::MAX,
{
    lemma_mul_bounds_both(a, b, 0x8000_0000_0000_0000, 0x8000_0000_0000_0000);
    assert((0x8000_0000_0000_0000int) * (0x8000_0000_0000_0000int) <= i128::MAX)
        by (nonlinear_arith);
}

/// Truncating division on 128-bit values, with its exact contract.
pub fn tdiv_i128(a: i128, b: i128) -> (r: i128)
    requires
        b >= 1,
    ensures
        r as int == tdiv(a as int, b as int),
{
    proof {
        lemma_tdiv_shrinks(a as int, b as int);
    }
    a / b
}

/// Fixed-point multiplication: the scaled product, truncated toward zero.
/// Exact contract: the result is `tdiv(a * b, UNIT)`.
pub fn fx_mul(a: i64, b: i64) -> (r: i64)
    requires
        fits_i64(tdiv(a as int * b as int, UNIT as int)),
    ensures
        r as int == tdiv(a as int * b as int, UNIT as int),
{
    let p: i128 = (a as i128) * (b as i128);
    let q: i128 = p / (UNIT as i128);
    q as i64
}

/// Fixed-point division: `a / b` as reals, truncated toward zero.
/// Exact contract: the result is `tdiv(a * UNIT, b)`. Positive divisors
/// only: every division in the library is by a length, a radius or a
/// positive scalar (see `tdiv`).
pub fn fx_div(a: i64, b: i64) -> (r: i64)
    requires
        b >= 1,
        fits_i64(tdiv(a as int * UNIT as int, b as int)),
    ensures
        r as int == tdiv(a as int * UNIT as int, b as int),
{
    let p: i128 = (a as i128) * (UNIT as i128);
    let q: i128 = p / (b as i128);
    q as i64
}

/// The integer square root of an unsigned 128-bit value, rounded down.
pub fn isqrt(n: u128) -> (r: u64)
    ensures
        r as nat == sqrt_floor(n as nat),
        (r as int) * (r as int) <= n as int,
        (n as int) < ((r as int + 1) * (r as int + 1)),
{
    let mut lo: u128 = 0;
    let mut hi: u128 = 0x1_0000_0000_0000_0000;
    proof {
        assert((0x1_0000_0000_0000_0000int) * (0x1_0000_0000_0000_0000int) > u128::MAX as int)
            by (nonlinear_arith);
    }
    while hi - lo > 1
        invariant
            0 <= lo < hi <= 0x1_0000_0000_0000_0000,
            (lo as int) * (lo as int) <= n as int,
            (n as int) < (hi as int) * (hi as int),
        decreases hi - lo,
    {
        let mid: u128 = lo + (hi - lo) / 2;
        proof {
            lemma_mul_bounds_both(mid as int, mid as int, 0xFFFF_FFFF_FFFF_FFFF,
                0xFFFF_FFFF_FFFF_FFFF);
            assert((0xFFFF_FFFF_FFFF_FFFFint) * (0xFFFF_FFFF_FFFF_FFFFint) <= u128::MAX as int)
                by (nonlinear_arith);
        }
        if mid * mid <= n {
            lo = mid;
        } else {
            hi = mid;
        }
    }
    proof {
        lemma_sqrt_floor_unique(n as nat, lo as nat);
    }
    lo as u64
}

/// The fixed-point square root: `sqrt(a / UNIT)` scaled back by `UNIT`,
/// rounded down; exactly `sqrt_floor(a * UNIT)`.
pub fn fx_sqrt(a: i64) -> (r: i64)
    requires
        a >= 0,
    ensures
        r as nat == sqrt_floor((a * UNIT) as nat),
        r >= 0,
{
    proof {
        assert(a as int * 1_000_000 <= u128::MAX as int) by (nonlinear_arith)
            requires 0 <= a <= i64::MAX;
    }
    let n: u128 = (a as u128) * (UNIT as u128);
    let r: u64 = isqrt(n);
    proof {
        assert((0x4_0000_0000_0000int) * (0x4_0000_0000_0000int) >= (i64::MAX as int) * 1_000_000)
            by (nonlinear_arith);
        assert(n as int <= (i64::MAX as int) * 1_000_000) by (nonlinear_arith)
            requires 0 <= a <= i64::MAX, n == a * 1_000_000;
        lemma_sqrt_floor_le(n as nat, 0x4_0000_0000_0000nat);
    }
    r as i64
}

} // verus!
