//! Three-component vectors over fixed-point scalars.
//!
//! Every operation carries an exact integer contract: sums and differences
//! are exact, products and quotients truncate toward zero at scale `UNIT`,
//! and lengths round down, all captured by the spec functions below.

use vstd::prelude::*;
use crate::fixed::{UNIT, tdiv, fits_i64, sqrt_floor, fx_mul, fx_div, fx_sqrt};
use crate::fixed::{lemma_tdiv_shrinks, lemma_tdiv_mono, lemma_tdiv_exact, lemma_sqrt_floor_bounds,
    lemma_sqrt_floor_unique, lemma_sqrt_floor_mono};
use crate::util::{Rng, state_after, unit_sample_spec};

verus! {

/// A vector of three fixed-point scalars.
#[derive(Clone, Copy, PartialEq, Eq, Structural)]
pub struct Vec3 {
    /// The first component, scaled by `UNIT`.
    pub x: i64,
    /// The second component, scaled by `UNIT`.
    pub y: i64,
    /// The third component, scaled by `UNIT`.
    pub z: i64,
}

/// A point in space, held as a vector from the world origin.
pub type Point3 = Vec3;

/// The fixed-point dot product: each pairwise product truncated at scale
/// `UNIT`, then summed.
pub open spec fn dot_spec(a: Vec3, b: Vec3) -> int {
    tdiv(a.x * b.x, UNIT as int) + tdiv(a.y * b.y, UNIT as int) + tdiv(a.z * b.z, UNIT as int)
}

/// The fixed-point squared length.
pub open spec fn lsq_spec(v: Vec3) -> int {
    dot_spec(v, v)
}

/// The fixed-point length: the square root of `lsq * UNIT`, rounded down,
/// which is `sqrt(lsq / UNIT)` scaled back by `UNIT`.
pub open spec fn len_spec(v: Vec3) -> int {
    sqrt_floor((lsq_spec(v) * UNIT) as nat) as int
}

/// The first component of the fixed-point cross product.
pub open spec fn cross_x_spec(a: Vec3, b: Vec3) -> int {
    tdiv(a.y * b.z, UNIT as int) - tdiv(a.z * b.y, UNIT as int)
}

/// The second component of the fixed-point cross product.
pub open spec fn cross_y_spec(a: Vec3, b: Vec3) -> int {
    tdiv(a.z * b.x, UNIT as int) - tdiv(a.x * b.z, UNIT as int)
}

/// The third component of the fixed-point cross product.
pub open spec fn cross_z_spec(a: Vec3, b: Vec3) -> int {
    tdiv(a.x * b.y, UNIT as int) - tdiv(a.y * b.x, UNIT as int)
}

/// One component of the normalized vector: the component scaled by `UNIT`
/// and divided by the vector's length.
pub open spec fn unit_comp_spec(c: int, v: Vec3) -> int {
    tdiv(c * UNIT, len_spec(v))
}

/// The normalized vector, componentwise.
pub open spec fn unit_vec3_spec(v: Vec3) -> Vec3 {
    Vec3 {
        x: unit_comp_spec(v.x as int, v) as i64,
        y: unit_comp_spec(v.y as int, v) as i64,
        z: unit_comp_spec(v.z as int, v) as i64,
    }
}

/// The `k`-th of the three samples drawn from state `s` for a range
/// `[min, max)`.
pub open spec fn range_sample_spec(s: u64, min: int, max: int, k: nat) -> int {
    min + tdiv((max - min) * unit_sample_spec(state_after(s, k)), UNIT as int)
}

/// The vector drawn from state `s` with components uniform over `[min, max)`:
/// three successive samples.
pub open spec fn range_triple_spec(s: u64, min: int, max: int) -> Vec3 {
    Vec3 {
        x: range_sample_spec(s, min, max, 1) as i64,
        y: range_sample_spec(s, min, max, 2) as i64,
        z: range_sample_spec(s, min, max, 3) as i64,
    }
}

/// How many draws the rejection sampler makes before falling back to a fixed
/// interior vector; each draw is accepted with probability about one half, so
/// the bound is unreachable in practice.
pub const SAMPLE_ATTEMPTS: u32 = 10_000;

/// The rejection sampler's result and final state, drawing from state `s`
/// with `fuel` attempts left: the first triple drawn over `[-UNIT, UNIT)`
/// whose fixed-point squared length lies in `[1, UNIT)`; the fixed interior
/// vector `(1/2, 0, 0)` if the fuel runs out.
pub open spec fn in_sphere_from_spec(s: u64, fuel: nat) -> (Vec3, u64)
    decreases fuel,
{
    if fuel == 0 {
        (Vec3 { x: crate::fixed::HALF_UNIT, y: 0i64, z: 0i64 }, s)
    } else {
        let p = range_triple_spec(s, -(UNIT as int), UNIT as int);
        let s3 = state_after(s, 3);
        if 1 <= lsq_spec(p) < UNIT {
            (p, s3)
        } else {
            in_sphere_from_spec(s3, (fuel - 1) as nat)
        }
    }
}

/// What `random_in_unit_sphere` returns and leaves behind, from the starting
/// state alone.
pub open spec fn in_sphere_spec(s: u64) -> (Vec3, u64) {
    in_sphere_from_spec(s, SAMPLE_ATTEMPTS as nat)
}

/// What `random_unit_vector` returns and leaves behind: the normalized
/// accepted in-sphere sample.
pub open spec fn unit_sample_vec_spec(s: u64) -> (Vec3, u64) {
    (unit_vec3_spec(in_sphere_spec(s).0), in_sphere_spec(s).1)
}

/// Each summand of the squared length is nonnegative, so the whole is.
pub proof fn lemma_lsq_nonneg(v: Vec3)
    ensures
        lsq_spec(v) >= 0,
        tdiv(v.x * v.x, UNIT as int) <= lsq_spec(v),
        tdiv(v.y * v.y, UNIT as int) <= lsq_spec(v),
        tdiv(v.z * v.z, UNIT as int) <= lsq_spec(v),
{
    assert(v.x * v.x >= 0) by (nonlinear_arith);
    assert(v.y * v.y >= 0) by (nonlinear_arith);
    assert(v.z * v.z >= 0) by (nonlinear_arith);
    lemma_tdiv_shrinks(v.x * v.x, UNIT as int);
    lemma_tdiv_shrinks(v.y * v.y, UNIT as int);
    lemma_tdiv_shrinks(v.z * v.z, UNIT as int);
}

/// A vector of squared length at least one unit of measure has a length of
/// at least a thousandth of a unit.
pub proof fn lemma_len_lower(v: Vec3)
    requires
        lsq_spec(v) >= 1,
    ensures
        len_spec(v) >= 1000,
{
    assert(1001int * 1001int > 1_000_000int) by (nonlinear_arith);
    assert(1000int * 1000int <= 1_000_000int) by (nonlinear_arith);
    lemma_sqrt_floor_unique(1_000_000nat, 1000nat);
    assert(lsq_spec(v) * UNIT >= 1_000_000) by (nonlinear_arith)
        requires lsq_spec(v) >= 1, UNIT == 1_000_000i64;
    lemma_sqrt_floor_mono(1_000_000nat, (lsq_spec(v) * UNIT) as nat);
}

/// A component of a normalized vector is at most two units in magnitude,
/// provided the vector's fixed-point squared length is at least one.
pub proof fn lemma_unit_comp_bounded(c: int, v: Vec3)
    requires
        lsq_spec(v) >= 1,
        tdiv(c * c, UNIT as int) <= lsq_spec(v),
    ensures
        -2 * (UNIT as int) <= unit_comp_spec(c, v) <= 2 * (UNIT as int),
{
    let u = UNIT as int;
    let q = lsq_spec(v);
    let l = len_spec(v);
    lemma_lsq_nonneg(v);
    lemma_len_lower(v);
    lemma_sqrt_floor_bounds((q * u) as nat);
    // The truncated square recovers a bound on the square itself.
    assert(c * c < (tdiv(c * c, u) + 1) * u) by {
        assert(c * c >= 0) by (nonlinear_arith);
        let d = (c * c) / u;
        vstd::arithmetic::div_mod::lemma_fundamental_div_mod(c * c, u);
        vstd::arithmetic::div_mod::lemma_mod_bound(c * c, u);
        assert((d + 1) * u == d * u + u) by (nonlinear_arith);
    }
    assert(c * c < (q + 1) * u) by (nonlinear_arith)
        requires c * c < (tdiv(c * c, u) + 1) * u, tdiv(c * c, u) <= q, u > 0;
    // From the sqrt bounds, q * u < (l + 1) * (l + 1).
    assert(c * c < (l + 1) * (l + 1) + u) by (nonlinear_arith)
        requires c * c < (q + 1) * u, q * u < (l + 1) * (l + 1), u > 0;
    // With l >= 1000 and u == 10^6, anything beyond 2l would square too large.
    assert(-(2 * l) <= c <= 2 * l) by (nonlinear_arith)
        requires
            c * c < (l + 1) * (l + 1) + u,
            l >= 1000,
            u == 1_000_000,
    ;
    // Monotone truncating division turns the component bound into the result bound.
    assert(c * u <= 2 * l * u && -(2 * l * u) <= c * u) by (nonlinear_arith)
        requires -(2 * l) <= c <= 2 * l, u > 0;
    lemma_tdiv_mono(c * u, 2 * l * u, l);
    lemma_tdiv_mono(-(2 * l * u), c * u, l);
    lemma_tdiv_exact(2 * u, l);
    lemma_tdiv_exact(-(2 * u), l);
    assert(2 * u * l == 2 * l * u) by (nonlinear_arith);
    assert(-(2 * u) * l == -(2 * l * u)) by (nonlinear_arith);
}

/// The dot product is symmetric.
pub proof fn lemma_dot_symmetric(a: Vec3, b: Vec3)
    ensures
        dot_spec(a, b) == dot_spec(b, a),
{
    assert(a.x * b.x == b.x * a.x) by (nonlinear_arith);
    assert(a.y * b.y == b.y * a.y) by (nonlinear_arith);
    assert(a.z * b.z == b.z * a.z) by (nonlinear_arith);
}

/// The cross product is antisymmetric: swapping the arguments negates
/// every component.
pub proof fn lemma_cross_antisymmetric(a: Vec3, b: Vec3)
    ensures
        cross_x_spec(a, b) == -cross_x_spec(b, a),
        cross_y_spec(a, b) == -cross_y_spec(b, a),
        cross_z_spec(a, b) == -cross_z_spec(b, a),
{
    assert(a.y * b.z == b.z * a.y) by (nonlinear_arith);
    assert(a.z * b.y == b.y * a.z) by (nonlinear_arith);
    assert(a.z * b.x == b.x * a.z) by (nonlinear_arith);
    assert(a.x * b.z == b.z * a.x) by (nonlinear_arith);
    assert(a.x * b.y == b.y * a.x) by (nonlinear_arith);
    assert(a.y * b.x == b.x * a.y) by (nonlinear_arith);
}

/// Every component of a normalized vector lies within two units, whenever
/// the vector's fixed-point squared length is positive.
pub proof fn lemma_unit_vector_bounded(v: Vec3)
    requires
        lsq_spec(v) >= 1,
    ensures
        -2 * (UNIT as int) <= unit_comp_spec(v.x as int, v) <= 2 * (UNIT as int),
        -2 * (UNIT as int) <= unit_comp_spec(v.y as int, v) <= 2 * (UNIT as int),
        -2 * (UNIT as int) <= unit_comp_spec(v.z as int, v) <= 2 * (UNIT as int),
{
    lemma_lsq_nonneg(v);
    lemma_unit_comp_bounded(v.x as int, v);
    lemma_unit_comp_bounded(v.y as int, v);
    lemma_unit_comp_bounded(v.z as int, v);
}

/// Truncating division shrinks squares: the quotient times the divisor,
/// squared, never exceeds the dividend squared.
proof fn lemma_tdiv_sq_ratio(x: int, d: int)
    requires
        d >= 1,
    ensures
        tdiv(x, d) * tdiv(x, d) * (d * d) <= x * x,
{
    let t = tdiv(x, d);
    crate::fixed::lemma_tdiv_sandwich(x, d);
    lemma_tdiv_shrinks(x, d);
    if x >= 0 {
        assert(0 <= t * d) by (nonlinear_arith)
            requires t >= 0, d >= 1;
    } else {
        assert(t * d <= 0) by (nonlinear_arith)
            requires t <= 0, d >= 1;
    }
    assert(t * d * (t * d) <= x * x) by (nonlinear_arith)
        requires
            x >= 0 ==> 0 <= t * d <= x,
            x < 0 ==> x <= t * d <= 0,
    ;
    assert(t * t * (d * d) == t * d * (t * d)) by (nonlinear_arith);
}

/// Truncating division loses less than one divisor: the quotient times the
/// divisor, squared, stays within twice the dividend's magnitude times the
/// divisor of the dividend squared.
proof fn lemma_tdiv_sq_lower(x: int, d: int)
    requires
        d >= 1,
    ensures
        tdiv(x, d) * tdiv(x, d) * (d * d) >= x * x - 2 * (if x >= 0 { x } else { -x }) * d,
{
    let t = tdiv(x, d);
    let a = if x >= 0 { x } else { -x };
    crate::fixed::lemma_tdiv_sandwich(x, d);
    lemma_tdiv_shrinks(x, d);
    if x >= 0 {
        assert(t * d * (t * d) >= x * x - 2 * a * d) by (nonlinear_arith)
            requires
                a == x,
                0 <= t,
                t * d <= x,
                x < (t + 1) * d,
                d >= 1,
        ;
    } else {
        assert(t * d * (t * d) >= x * x - 2 * a * d) by (nonlinear_arith)
            requires
                a == -x,
                t <= 0,
                x <= t * d,
                (t - 1) * d < x,
                d >= 1,
        ;
    }
    assert(t * t * (d * d) == t * d * (t * d)) by (nonlinear_arith);
}

/// The law behind normalization: a vector at least one unit long normalizes
/// to a vector whose fixed-point squared length lies within ten millionths
/// below and six millionths above one unit — unit length up to truncation.
/// (A much shorter vector can normalize far from unit length: its fixed-point
/// squared length carries too little information.)
pub proof fn lemma_unit_vector_near_unit(v: Vec3)
    requires
        lsq_spec(v) >= UNIT,
    ensures
        UNIT - 10 <= lsq_spec(unit_vec3_spec(v)) <= UNIT + 6,
{
    lemma_unit_vector_sq_upper(v);
    lemma_unit_vector_sq_lower(v);
}

/// The upper half of the normalization law: truncation only ever shortens
/// the result.
proof fn lemma_unit_vector_sq_upper(v: Vec3)
    requires
        lsq_spec(v) >= UNIT,
    ensures
        0 <= lsq_spec(unit_vec3_spec(v)) <= UNIT + 6,
{
    let u = UNIT as int;
    let q = lsq_spec(v);
    let l = len_spec(v);
    let cx = v.x as int;
    let cy = v.y as int;
    let cz = v.z as int;
    lemma_lsq_nonneg(v);
    lemma_sqrt_floor_bounds((q * u) as nat);
    // The length is at least one unit and at most the squared length.
    assert(1_000_000int * 1_000_000int <= q * u) by (nonlinear_arith)
        requires q >= 1_000_000, u == 1_000_000;
    assert(1_000_001int * 1_000_001int > 1_000_000int * 1_000_000int) by (nonlinear_arith);
    lemma_sqrt_floor_unique((1_000_000int * 1_000_000int) as nat, 1_000_000nat);
    lemma_sqrt_floor_mono((1_000_000int * 1_000_000int) as nat, (q * u) as nat);
    assert(l >= u);
    assert(q * u <= q * q) by (nonlinear_arith)
        requires q >= u, u >= 1;
    assert(l <= q) by (nonlinear_arith)
        requires l * l <= q * q, 0 <= l, 0 <= q;
    // The normalized components are in range, so the casts are exact.
    lemma_unit_comp_bounded(cx, v);
    lemma_unit_comp_bounded(cy, v);
    lemma_unit_comp_bounded(cz, v);
    let ux = unit_comp_spec(cx, v);
    let uy = unit_comp_spec(cy, v);
    let uz = unit_comp_spec(cz, v);
    let w = unit_vec3_spec(v);
    assert(w.x as int == ux && w.y as int == uy && w.z as int == uz);
    // Componentwise, scaling by the length stays under the scaled component.
    lemma_tdiv_sq_ratio(cx * u, l);
    lemma_tdiv_sq_ratio(cy * u, l);
    lemma_tdiv_sq_ratio(cz * u, l);
    assert(cx * u * (cx * u) == cx * cx * (u * u)) by (nonlinear_arith);
    assert(cy * u * (cy * u) == cy * cy * (u * u)) by (nonlinear_arith);
    assert(cz * u * (cz * u) == cz * cz * (u * u)) by (nonlinear_arith);
    let s = ux * ux + uy * uy + uz * uz;
    assert(s * (l * l) <= (cx * cx + cy * cy + cz * cz) * (u * u)) by (nonlinear_arith)
        requires
            ux * ux * (l * l) <= cx * cx * (u * u),
            uy * uy * (l * l) <= cy * cy * (u * u),
            uz * uz * (l * l) <= cz * cz * (u * u),
            s == ux * ux + uy * uy + uz * uz,
    ;
    // The raw squared components exceed the fixed-point squared length by
    // less than one unit each.
    crate::fixed::lemma_tdiv_sandwich(cx * cx, u);
    crate::fixed::lemma_tdiv_sandwich(cy * cy, u);
    crate::fixed::lemma_tdiv_sandwich(cz * cz, u);
    assert(cx * cx >= 0) by (nonlinear_arith);
    assert(cy * cy >= 0) by (nonlinear_arith);
    assert(cz * cz >= 0) by (nonlinear_arith);
    assert(cx * cx + cy * cy + cz * cz <= q * u + 3 * u) by (nonlinear_arith)
        requires
            cx * cx < (tdiv(cx * cx, u) + 1) * u,
            cy * cy < (tdiv(cy * cy, u) + 1) * u,
            cz * cz < (tdiv(cz * cz, u) + 1) * u,
            q == tdiv(cx * cx, u) + tdiv(cy * cy, u) + tdiv(cz * cz, u),
    ;
    assert((cx * cx + cy * cy + cz * cz) * (u * u) <= (q * u + 3 * u) * (u * u))
        by (nonlinear_arith)
        requires cx * cx + cy * cy + cz * cz <= q * u + 3 * u, u >= 1;
    // The final chain: the loose factors still leave the bound with room.
    assert(l * l > q * u - 2 * l - 1) by (nonlinear_arith)
        requires (q * u) < ((l + 1) * (l + 1));
    assert((q * u + 3 * u) * (u * u) <= (u + 6) * u * (l * l)) by (nonlinear_arith)
        requires
            l * l > q * u - 2 * l - 1,
            l >= u,
            l <= q,
            q >= u,
            u == 1_000_000,
    ;
    assert(s <= (u + 6) * u) by (nonlinear_arith)
        requires
            s * (l * l) <= (u + 6) * u * (l * l),
            l >= 1,
    ;
    // The fixed-point squared length of the result sits under the raw sum.
    crate::fixed::lemma_tdiv_sandwich(ux * ux, u);
    crate::fixed::lemma_tdiv_sandwich(uy * uy, u);
    crate::fixed::lemma_tdiv_sandwich(uz * uz, u);
    assert(ux * ux >= 0) by (nonlinear_arith);
    assert(uy * uy >= 0) by (nonlinear_arith);
    assert(uz * uz >= 0) by (nonlinear_arith);
    lemma_lsq_nonneg(w);
    assert(lsq_spec(w) == tdiv(ux * ux, u) + tdiv(uy * uy, u) + tdiv(uz * uz, u));
    assert(lsq_spec(w) * u <= s) by (nonlinear_arith)
        requires
            tdiv(ux * ux, u) * u <= ux * ux,
            tdiv(uy * uy, u) * u <= uy * uy,
            tdiv(uz * uz, u) * u <= uz * uz,
            lsq_spec(w) == tdiv(ux * ux, u) + tdiv(uy * uy, u) + tdiv(uz * uz, u),
            s == ux * ux + uy * uy + uz * uz,
    ;
    assert(lsq_spec(w) <= u + 6) by (nonlinear_arith)
        requires
            lsq_spec(w) * u <= s,
            s <= (u + 6) * u,
            u >= 1,
    ;
}

/// The lower half of the normalization law: each truncation loses less than
/// one part in the length, and the length is at least one unit.
proof fn lemma_unit_vector_sq_lower(v: Vec3)
    requires
        lsq_spec(v) >= UNIT,
    ensures
        lsq_spec(unit_vec3_spec(v)) >= UNIT - 10,
{
    let u = UNIT as int;
    let q = lsq_spec(v);
    let l = len_spec(v);
    let cx = v.x as int;
    let cy = v.y as int;
    let cz = v.z as int;
    lemma_lsq_nonneg(v);
    lemma_sqrt_floor_bounds((q * u) as nat);
    assert(1_000_000int * 1_000_000int <= q * u) by (nonlinear_arith)
        requires q >= 1_000_000, u == 1_000_000;
    assert(1_000_001int * 1_000_001int > 1_000_000int * 1_000_000int) by (nonlinear_arith);
    lemma_sqrt_floor_unique((1_000_000int * 1_000_000int) as nat, 1_000_000nat);
    lemma_sqrt_floor_mono((1_000_000int * 1_000_000int) as nat, (q * u) as nat);
    assert(l >= u);
    lemma_unit_comp_bounded(cx, v);
    lemma_unit_comp_bounded(cy, v);
    lemma_unit_comp_bounded(cz, v);
    let ux = unit_comp_spec(cx, v);
    let uy = unit_comp_spec(cy, v);
    let uz = unit_comp_spec(cz, v);
    let w = unit_vec3_spec(v);
    assert(w.x as int == ux && w.y as int == uy && w.z as int == uz);
    let mx = if cx >= 0 { cx } else { -cx };
    let my = if cy >= 0 { cy } else { -cy };
    let mz = if cz >= 0 { cz } else { -cz };
    lemma_tdiv_sq_lower(cx * u, l);
    lemma_tdiv_sq_lower(cy * u, l);
    lemma_tdiv_sq_lower(cz * u, l);
    assert(ux * ux * (l * l) >= cx * cx * (u * u) - 2 * (mx * (u * l))) by (nonlinear_arith)
        requires
            ux * ux * (l * l) >= (cx * u) * (cx * u)
                - 2 * (if cx * u >= 0 { cx * u } else { -(cx * u) }) * l,
            mx == (if cx >= 0 { cx } else { -cx }),
            u >= 1,
            l >= 1,
    ;
    assert(uy * uy * (l * l) >= cy * cy * (u * u) - 2 * (my * (u * l))) by (nonlinear_arith)
        requires
            uy * uy * (l * l) >= (cy * u) * (cy * u)
                - 2 * (if cy * u >= 0 { cy * u } else { -(cy * u) }) * l,
            my == (if cy >= 0 { cy } else { -cy }),
            u >= 1,
            l >= 1,
    ;
    assert(uz * uz * (l * l) >= cz * cz * (u * u) - 2 * (mz * (u * l))) by (nonlinear_arith)
        requires
            uz * uz * (l * l) >= (cz * u) * (cz * u)
                - 2 * (if cz * u >= 0 { cz * u } else { -(cz * u) }) * l,
            mz == (if cz >= 0 { cz } else { -cz }),
            u >= 1,
            l >= 1,
    ;
    // Each component stays within roughly one length of magnitude.
    crate::fixed::lemma_tdiv_sandwich(cx * cx, u);
    crate::fixed::lemma_tdiv_sandwich(cy * cy, u);
    crate::fixed::lemma_tdiv_sandwich(cz * cz, u);
    assert(cx * cx >= 0) by (nonlinear_arith);
    assert(cy * cy >= 0) by (nonlinear_arith);
    assert(cz * cz >= 0) by (nonlinear_arith);
    assert((l + 1001) * (l + 1001) > (q + 1) * u) by (nonlinear_arith)
        requires (q * u) < ((l + 1) * (l + 1)), u == 1_000_000, l >= 0;
    lemma_abs_under_sq_bound(cx, mx, (q + 1) * u, l + 1001, tdiv(cx * cx, u), q, u);
    lemma_abs_under_sq_bound(cy, my, (q + 1) * u, l + 1001, tdiv(cy * cy, u), q, u);
    lemma_abs_under_sq_bound(cz, mz, (q + 1) * u, l + 1001, tdiv(cz * cz, u), q, u);
    let s = ux * ux + uy * uy + uz * uz;
    let t = cx * cx + cy * cy + cz * cz;
    let m = mx + my + mz;
    assert(s * (l * l) == ux * ux * (l * l) + uy * uy * (l * l) + uz * uz * (l * l))
        by (nonlinear_arith)
        requires s == ux * ux + uy * uy + uz * uz;
    assert(t * (u * u) == cx * cx * (u * u) + cy * cy * (u * u) + cz * cz * (u * u))
        by (nonlinear_arith)
        requires t == cx * cx + cy * cy + cz * cz;
    assert(m * (u * l) == mx * (u * l) + my * (u * l) + mz * (u * l)) by (nonlinear_arith)
        requires m == mx + my + mz;
    assert(s * (l * l) >= t * (u * u) - 2 * (m * (u * l)));
    assert(t >= q * u) by (nonlinear_arith)
        requires
            tdiv(cx * cx, u) * u <= cx * cx,
            tdiv(cy * cy, u) * u <= cy * cy,
            tdiv(cz * cz, u) * u <= cz * cz,
            q == tdiv(cx * cx, u) + tdiv(cy * cy, u) + tdiv(cz * cz, u),
            t == cx * cx + cy * cy + cz * cz,
    ;
    assert(t * (u * u) >= (q * u) * (u * u)) by (nonlinear_arith)
        requires t >= q * u, u >= 1;
    assert((q * u) * (u * u) >= (l * l) * (u * u)) by (nonlinear_arith)
        requires l * l <= q * u, u >= 1;
    assert(2 * (m * (u * l)) <= 2 * ((3 * l + 3003) * (u * l))) by (nonlinear_arith)
        requires m <= 3 * l + 3003, u >= 1, l >= 1;
    assert(2 * ((3 * l + 3003) * (u * l)) <= 7 * u * (l * l)) by (nonlinear_arith)
        requires l >= u, u == 1_000_000;
    assert((l * l) * (u * u) - 7 * u * (l * l) == (u * u - 7 * u) * (l * l))
        by (nonlinear_arith);
    assert(s * (l * l) >= (u * u - 7 * u) * (l * l));
    assert(s >= u * u - 7 * u) by (nonlinear_arith)
        requires s * (l * l) >= (u * u - 7 * u) * (l * l), l >= 1;
    crate::fixed::lemma_tdiv_sandwich(ux * ux, u);
    crate::fixed::lemma_tdiv_sandwich(uy * uy, u);
    crate::fixed::lemma_tdiv_sandwich(uz * uz, u);
    assert(ux * ux >= 0) by (nonlinear_arith);
    assert(uy * uy >= 0) by (nonlinear_arith);
    assert(uz * uz >= 0) by (nonlinear_arith);
    assert(lsq_spec(w) == tdiv(ux * ux, u) + tdiv(uy * uy, u) + tdiv(uz * uz, u));
    assert(lsq_spec(w) * u > s - 3 * u) by (nonlinear_arith)
        requires
            ux * ux < (tdiv(ux * ux, u) + 1) * u,
            uy * uy < (tdiv(uy * uy, u) + 1) * u,
            uz * uz < (tdiv(uz * uz, u) + 1) * u,
            lsq_spec(w) == tdiv(ux * ux, u) + tdiv(uy * uy, u) + tdiv(uz * uz, u),
            s == ux * ux + uy * uy + uz * uz,
    ;
    assert(lsq_spec(w) >= u - 10) by (nonlinear_arith)
        requires
            lsq_spec(w) * u > s - 3 * u,
            s >= u * u - 7 * u,
            u == 1_000_000,
    ;
}

/// A value whose square sits under a bound that a larger square exceeds is
/// itself under that larger value.
proof fn lemma_abs_under_sq_bound(c: int, m: int, cap: int, bound: int, t: int, q: int, u: int)
    requires
        m == (if c >= 0 { c } else { -c }),
        c * c < (t + 1) * u,
        t <= q,
        u >= 1,
        cap == (q + 1) * u,
        bound * bound > cap,
        bound >= 0,
    ensures
        m <= bound,
{
    assert(c * c <= (q + 1) * u - 1) by (nonlinear_arith)
        requires c * c < (t + 1) * u, t <= q, u >= 1;
    assert(m * m == c * c) by (nonlinear_arith)
        requires m == (if c >= 0 { c } else { -c });
    if m > bound {
        assert(m * m >= bound * bound + 1) by (nonlinear_arith)
            requires m >= bound + 1, bound >= 0;
    }
}

impl Vec3 {
    /// The vector with the given fixed-point components.
    pub fn new(x: i64, y: i64, z: i64) -> (v: Vec3)
        ensures
            v.x == x,
            v.y == y,
            v.z == z,
    {
        Vec3 { x, y, z }
    }

    /// The first component.
    pub fn x(&self) -> (r: i64)
        ensures
            r == self.x,
    {
        self.x
    }

    /// The second component.
    pub fn y(&self) -> (r: i64)
        ensures
            r == self.y,
    {
        self.y
    }

    /// The third component.
    pub fn z(&self) -> (r: i64)
        ensures
            r == self.z,
    {
        self.z
    }

    /// Componentwise sum.
    pub fn add(self, rhs: Vec3) -> (v: Vec3)
        requires
            fits_i64(self.x + rhs.x),
            fits_i64(self.y + rhs.y),
            fits_i64(self.z + rhs.z),
        ensures
            v.x == self.x + rhs.x,
            v.y == self.y + rhs.y,
            v.z == self.z + rhs.z,
    {
        Vec3 { x: self.x + rhs.x, y: self.y + rhs.y, z: self.z + rhs.z }
    }

    /// Componentwise difference.
    pub fn sub(self, rhs: Vec3) -> (v: Vec3)
        requires
            fits_i64(self.x - rhs.x),
            fits_i64(self.y - rhs.y),
            fits_i64(self.z - rhs.z),
        ensures
            v.x == self.x - rhs.x,
            v.y == self.y - rhs.y,
            v.z == self.z - rhs.z,
    {
        Vec3 { x: self.x - rhs.x, y: self.y - rhs.y, z: self.z - rhs.z }
    }

    /// Componentwise negation.
    pub fn neg(self) -> (v: Vec3)
        requires
            self.x > i64::MIN,
            self.y > i64::MIN,
            self.z > i64::MIN,
        ensures
            v.x == -self.x,
            v.y == -self.y,
            v.z == -self.z,
    {
        Vec3 { x: -self.x, y: -self.y, z: -self.z }
    }

    /// Adds `rhs` into this vector in place.
    pub fn add_assign(&mut self, rhs: Vec3)
        requires
            fits_i64(old(self).x + rhs.x),
            fits_i64(old(self).y + rhs.y),
            fits_i64(old(self).z + rhs.z),
        ensures
            final(self).x == old(self).x + rhs.x,
            final(self).y == old(self).y + rhs.y,
            final(self).z == old(self).z + rhs.z,
    {
        *self = self.add(rhs);
    }

    /// Subtracts `rhs` from this vector in place.
    pub fn sub_assign(&mut self, rhs: Vec3)
        requires
            fits_i64(old(self).x - rhs.x),
            fits_i64(old(self).y - rhs.y),
            fits_i64(old(self).z - rhs.z),
        ensures
            final(self).x == old(self).x - rhs.x,
            final(self).y == old(self).y - rhs.y,
            final(self).z == old(self).z - rhs.z,
    {
        *self = self.sub(rhs);
    }

    /// Scales this vector by a fixed-point factor in place.
    pub fn mul_assign(&mut self, rhs: i64)
        requires
            fits_i64(tdiv(old(self).x * rhs, UNIT as int)),
            fits_i64(tdiv(old(self).y * rhs, UNIT as int)),
            fits_i64(tdiv(old(self).z * rhs, UNIT as int)),
        ensures
            final(self).x == tdiv(old(self).x * rhs, UNIT as int),
            final(self).y == tdiv(old(self).y * rhs, UNIT as int),
            final(self).z == tdiv(old(self).z * rhs, UNIT as int),
    {
        *self = self.mul(rhs);
    }

    /// Divides this vector by a positive fixed-point scalar in place.
    pub fn div_assign(&mut self, rhs: i64)
        requires
            rhs >= 1,
            fits_i64(tdiv(old(self).x * UNIT, rhs as int)),
            fits_i64(tdiv(old(self).y * UNIT, rhs as int)),
            fits_i64(tdiv(old(self).z * UNIT, rhs as int)),
        ensures
            final(self).x == tdiv(old(self).x * UNIT, rhs as int),
            final(self).y == tdiv(old(self).y * UNIT, rhs as int),
            final(self).z == tdiv(old(self).z * UNIT, rhs as int),
    {
        *self = self.div(rhs);
    }

    /// The vector scaled by a fixed-point factor, each product truncated.
    pub fn mul(self, rhs: i64) -> (v: Vec3)
        requires
            fits_i64(tdiv(self.x * rhs, UNIT as int)),
            fits_i64(tdiv(self.y * rhs, UNIT as int)),
            fits_i64(tdiv(self.z * rhs, UNIT as int)),
        ensures
            v.x == tdiv(self.x * rhs, UNIT as int),
            v.y == tdiv(self.y * rhs, UNIT as int),
            v.z == tdiv(self.z * rhs, UNIT as int),
    {
        Vec3 { x: fx_mul(self.x, rhs), y: fx_mul(self.y, rhs), z: fx_mul(self.z, rhs) }
    }

    /// The componentwise product of two vectors, each product truncated.
    pub fn mul_vec3(self, rhs: Vec3) -> (v: Vec3)
        requires
            fits_i64(tdiv(self.x * rhs.x, UNIT as int)),
            fits_i64(tdiv(self.y * rhs.y, UNIT as int)),
            fits_i64(tdiv(self.z * rhs.z, UNIT as int)),
        ensures
            v.x == tdiv(self.x * rhs.x, UNIT as int),
            v.y == tdiv(self.y * rhs.y, UNIT as int),
            v.z == tdiv(self.z * rhs.z, UNIT as int),
    {
        Vec3 { x: fx_mul(self.x, rhs.x), y: fx_mul(self.y, rhs.y), z: fx_mul(self.z, rhs.z) }
    }

    /// The vector divided by a positive fixed-point scalar, truncated.
    /// Positive divisors only: the renderer divides vectors solely by
    /// lengths and positive constants (see `fixed::tdiv`).
    pub fn div(self, rhs: i64) -> (v: Vec3)
        requires
            rhs >= 1,
            fits_i64(tdiv(self.x * UNIT, rhs as int)),
            fits_i64(tdiv(self.y * UNIT, rhs as int)),
            fits_i64(tdiv(self.z * UNIT, rhs as int)),
        ensures
            v.x == tdiv(self.x * UNIT, rhs as int),
            v.y == tdiv(self.y * UNIT, rhs as int),
            v.z == tdiv(self.z * UNIT, rhs as int),
    {
        Vec3 { x: fx_div(self.x, rhs), y: fx_div(self.y, rhs), z: fx_div(self.z, rhs) }
    }

    /// The fixed-point dot product.
    pub fn dot(&self, rhs: Vec3) -> (r: i64)
        requires
            fits_i64(dot_spec(*self, rhs)),
        ensures
            r == dot_spec(*self, rhs),
    {
        proof {
            crate::fixed::lemma_i64_product_fits(self.x as int, rhs.x as int);
            crate::fixed::lemma_i64_product_fits(self.y as int, rhs.y as int);
            crate::fixed::lemma_i64_product_fits(self.z as int, rhs.z as int);
        }
        let px: i128 = ((self.x as i128) * (rhs.x as i128)) / (UNIT as i128);
        let py: i128 = ((self.y as i128) * (rhs.y as i128)) / (UNIT as i128);
        let pz: i128 = ((self.z as i128) * (rhs.z as i128)) / (UNIT as i128);
        proof {
            lemma_tdiv_shrinks(self.x as int * rhs.x as int, UNIT as int);
            lemma_tdiv_shrinks(self.y as int * rhs.y as int, UNIT as int);
            lemma_tdiv_shrinks(self.z as int * rhs.z as int, UNIT as int);
        }
        (px + py + pz) as i64
    }

    /// The fixed-point cross product.
    pub fn cross(&self, rhs: Vec3) -> (v: Vec3)
        requires
            fits_i64(cross_x_spec(*self, rhs)),
            fits_i64(cross_y_spec(*self, rhs)),
            fits_i64(cross_z_spec(*self, rhs)),
        ensures
            v.x == cross_x_spec(*self, rhs),
            v.y == cross_y_spec(*self, rhs),
            v.z == cross_z_spec(*self, rhs),
    {
        proof {
            crate::fixed::lemma_i64_product_fits(self.y as int, rhs.z as int);
            crate::fixed::lemma_i64_product_fits(self.z as int, rhs.y as int);
            crate::fixed::lemma_i64_product_fits(self.z as int, rhs.x as int);
            crate::fixed::lemma_i64_product_fits(self.x as int, rhs.z as int);
            crate::fixed::lemma_i64_product_fits(self.x as int, rhs.y as int);
            crate::fixed::lemma_i64_product_fits(self.y as int, rhs.x as int);
        }
        let xyz: i128 = ((self.y as i128) * (rhs.z as i128)) / (UNIT as i128);
        let xzy: i128 = ((self.z as i128) * (rhs.y as i128)) / (UNIT as i128);
        let yzx: i128 = ((self.z as i128) * (rhs.x as i128)) / (UNIT as i128);
        let yxz: i128 = ((self.x as i128) * (rhs.z as i128)) / (UNIT as i128);
        let zxy: i128 = ((self.x as i128) * (rhs.y as i128)) / (UNIT as i128);
        let zyx: i128 = ((self.y as i128) * (rhs.x as i128)) / (UNIT as i128);
        proof {
            lemma_tdiv_shrinks(self.y as int * rhs.z as int, UNIT as int);
            lemma_tdiv_shrinks(self.z as int * rhs.y as int, UNIT as int);
            lemma_tdiv_shrinks(self.z as int * rhs.x as int, UNIT as int);
            lemma_tdiv_shrinks(self.x as int * rhs.z as int, UNIT as int);
            lemma_tdiv_shrinks(self.x as int * rhs.y as int, UNIT as int);
            lemma_tdiv_shrinks(self.y as int * rhs.x as int, UNIT as int);
        }
        Vec3 { x: (xyz - xzy) as i64, y: (yzx - yxz) as i64, z: (zxy - zyx) as i64 }
    }

    /// The fixed-point squared length.
    pub fn length_squared(&self) -> (r: i64)
        requires
            fits_i64(lsq_spec(*self)),
        ensures
            r == lsq_spec(*self),
            r >= 0,
    {
        proof {
            lemma_lsq_nonneg(*self);
        }
        let c = *self;
        self.dot(c)
    }

    /// The fixed-point length, rounded down.
    pub fn length(&self) -> (r: i64)
        requires
            fits_i64(lsq_spec(*self)),
        ensures
            r == len_spec(*self),
            r >= 0,
    {
        let q = self.length_squared();
        fx_sqrt(q)
    }

    /// The vector scaled to unit length, each component truncated.
    pub fn unit_vector(&self) -> (v: Vec3)
        requires
            fits_i64(lsq_spec(*self)),
            len_spec(*self) >= 1,
            fits_i64(unit_comp_spec(self.x as int, *self)),
            fits_i64(unit_comp_spec(self.y as int, *self)),
            fits_i64(unit_comp_spec(self.z as int, *self)),
        ensures
            v == unit_vec3_spec(*self),
            v.x == unit_comp_spec(self.x as int, *self),
            v.y == unit_comp_spec(self.y as int, *self),
            v.z == unit_comp_spec(self.z as int, *self),
    {
        let l = self.length();
        self.div(l)
    }

    /// A vector whose components are three successive samples uniform
    /// over `[0, UNIT)`.
    pub fn random(rng: &mut Rng) -> (v: Vec3)
        ensures
            final(rng).state == state_after(old(rng).state, 3),
            v.x == unit_sample_spec(state_after(old(rng).state, 1)),
            v.y == unit_sample_spec(state_after(old(rng).state, 2)),
            v.z == unit_sample_spec(state_after(old(rng).state, 3)),
            0 <= v.x < UNIT,
            0 <= v.y < UNIT,
            0 <= v.z < UNIT,
    {
        proof {
            lemma_state_after_unfold(old(rng).state);
        }
        let x = rng.next_unit();
        let y = rng.next_unit();
        let z = rng.next_unit();
        proof {
            lemma_state_after_unfold(state_after(old(rng).state, 1));
            lemma_state_after_unfold(state_after(old(rng).state, 2));
        }
        Vec3 { x, y, z }
    }

    /// A vector whose components are three successive samples uniform
    /// over `[min, max)`.
    #[verifier::rlimit(100)]
    pub fn random_range(rng: &mut Rng, min: i64, max: i64) -> (v: Vec3)
        requires
            min < max,
            max - min <= i64::MAX,
        ensures
            final(rng).state == state_after(old(rng).state, 3),
            v == range_triple_spec(old(rng).state, min as int, max as int),
            min <= v.x < max,
            min <= v.y < max,
            min <= v.z < max,
            v.x == min + tdiv((max - min) * unit_sample_spec(state_after(old(rng).state, 1)),
                UNIT as int),
            v.y == min + tdiv((max - min) * unit_sample_spec(state_after(old(rng).state, 2)),
                UNIT as int),
            v.z == min + tdiv((max - min) * unit_sample_spec(state_after(old(rng).state, 3)),
                UNIT as int),
    {
        proof {
            lemma_state_after_unfold(old(rng).state);
        }
        let span: i64 = max - min;
        let x = min + Self::scaled_sample(rng, span);
        let y = min + Self::scaled_sample(rng, span);
        let z = min + Self::scaled_sample(rng, span);
        proof {
            lemma_state_after_unfold(state_after(old(rng).state, 1));
            lemma_state_after_unfold(state_after(old(rng).state, 2));
        }
        Vec3 { x, y, z }
    }

    /// One sample uniform over `[0, span)`: a unit sample scaled by `span`.
    #[verifier::rlimit(100)]
    fn scaled_sample(rng: &mut Rng, span: i64) -> (r: i64)
        requires
            span >= 1,
        ensures
            final(rng).state == state_after(old(rng).state, 1),
            r == tdiv(span * unit_sample_spec(final(rng).state), UNIT as int),
            0 <= r < span,
    {
        let t = rng.next_unit();
        proof {
            assert(state_after(old(rng).state, 0) == old(rng).state);
            assert(state_after(old(rng).state, 1)
                == crate::util::next_state_spec(state_after(old(rng).state, 0)));
            let s = span as int;
            let u = UNIT as int;
            assert(0 <= s * t <= s * (u - 1)) by (nonlinear_arith)
                requires 0 <= t < u, s >= 1;
            assert(s * (u - 1) < u * s) by (nonlinear_arith)
                requires s >= 1, u >= 2;
            lemma_tdiv_shrinks(s * t, u);
            lemma_tdiv_mono(s * t, s * (u - 1), u);
            vstd::arithmetic::div_mod::lemma_multiply_divide_lt(s * (u - 1), u, s);
        }
        fx_mul(span, t)
    }

    /// Rejection-samples a vector inside the unit ball: components uniform
    /// over `[-UNIT, UNIT)`, accepted once the fixed-point squared length
    /// falls strictly between zero and one unit. Each draw is accepted with
    /// probability about one half, so the attempt bound — which the
    /// termination checker demands in place of an unbounded loop — is beyond
    /// astronomically unlikely to be reached; if it ever were, a fixed
    /// interior vector stands in.
    pub fn random_in_unit_sphere(rng: &mut Rng) -> (v: Vec3)
        ensures
            v == in_sphere_spec(old(rng).state).0,
            final(rng).state == in_sphere_spec(old(rng).state).1,
            -UNIT <= v.x < UNIT,
            -UNIT <= v.y < UNIT,
            -UNIT <= v.z < UNIT,
            1 <= lsq_spec(v) < UNIT,
    {
        let mut attempts: u32 = 0;
        while attempts < SAMPLE_ATTEMPTS
            invariant
                0 <= attempts <= SAMPLE_ATTEMPTS,
                in_sphere_spec(old(rng).state) == in_sphere_from_spec(rng.state,
                    (SAMPLE_ATTEMPTS - attempts) as nat),
            decreases SAMPLE_ATTEMPTS - attempts,
        {
            let ghost fuel = (SAMPLE_ATTEMPTS - attempts) as nat;
            let ghost s_here = rng.state;
            let p = Self::random_range(rng, -UNIT, UNIT);
            proof {
                lemma_sq_term_small(p.x as int);
                lemma_sq_term_small(p.y as int);
                lemma_sq_term_small(p.z as int);
            }
            let q = p.length_squared();
            proof {
                assert(in_sphere_from_spec(s_here, fuel) == if 1 <= lsq_spec(p) < UNIT {
                    (p, state_after(s_here, 3))
                } else {
                    in_sphere_from_spec(state_after(s_here, 3), (fuel - 1) as nat)
                });
            }
            if 1 <= q && q < UNIT {
                return p;
            }
            attempts = attempts + 1;
        }
        let fallback = Vec3 { x: crate::fixed::HALF_UNIT, y: 0, z: 0 };
        proof {
            lemma_tdiv_exact(0, UNIT as int);
            lemma_tdiv_exact(250_000int, UNIT as int);
            assert(500_000int * 500_000int == 250_000int * 1_000_000int) by (nonlinear_arith);
        }
        fallback
    }

    /// A vector of roughly unit length with a rejection-sampled direction:
    /// the normalized accepted in-sphere sample.
    pub fn random_unit_vector(rng: &mut Rng) -> (v: Vec3)
        ensures
            v == unit_sample_vec_spec(old(rng).state).0,
            final(rng).state == unit_sample_vec_spec(old(rng).state).1,
            -2 * (UNIT as int) <= v.x <= 2 * (UNIT as int),
            -2 * (UNIT as int) <= v.y <= 2 * (UNIT as int),
            -2 * (UNIT as int) <= v.z <= 2 * (UNIT as int),
    {
        let p = Self::random_in_unit_sphere(rng);
        proof {
            lemma_len_lower(p);
            lemma_unit_vector_bounded(p);
            lemma_sq_term_small(p.x as int);
            lemma_sq_term_small(p.y as int);
            lemma_sq_term_small(p.z as int);
            lemma_tdiv_shrinks(p.x as int * UNIT, len_spec(p));
            lemma_tdiv_shrinks(p.y as int * UNIT, len_spec(p));
            lemma_tdiv_shrinks(p.z as int * UNIT, len_spec(p));
        }
        p.unit_vector()
    }
}

/// The first three steps of the sample stream, written out.
proof fn lemma_state_after_unfold(s: u64)
    ensures
        state_after(s, 1) == crate::util::next_state_spec(s),
        state_after(s, 2) == crate::util::next_state_spec(state_after(s, 1)),
        state_after(s, 3) == crate::util::next_state_spec(state_after(s, 2)),
{
    assert(state_after(s, 0) == s);
    assert(state_after(s, 1) == crate::util::next_state_spec(state_after(s, 0)));
    assert(state_after(s, 2) == crate::util::next_state_spec(state_after(s, 1)));
    assert(state_after(s, 3) == crate::util::next_state_spec(state_after(s, 2)));
}

/// A component within one unit contributes at most one unit to the squared
/// length.
proof fn lemma_sq_term_small(c: int)
    requires
        -1_000_000 <= c <= 1_000_000,
    ensures
        0 <= tdiv(c * c, UNIT as int) <= UNIT as int,
{
    assert(0 <= c * c <= 1_000_000 * 1_000_000) by (nonlinear_arith)
        requires -1_000_000 <= c <= 1_000_000;
    lemma_tdiv_shrinks(c * c, UNIT as int);
    lemma_tdiv_mono(c * c, 1_000_000int * 1_000_000int, UNIT as int);
    lemma_tdiv_exact(1_000_000int, UNIT as int);
}

} // verus!
