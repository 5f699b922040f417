//! Geometric value types: 3-component vectors over Q47.16 scalars, and the
//! single supported rotation (about the vertical axis, given by the angle's
//! cosine/sine pair).

use vstd::prelude::*;
use crate::fixed::{FX_ONE, fx_mul, fx_mul_e, mag, div_trunc};
use vstd::arithmetic::div_mod::lemma_div_is_ordered;
use vstd::arithmetic::mul::lemma_mul_upper_bound;

verus! {

/// An ordered triple of fixed-point scalars.
#[derive(Clone, Copy, Debug, PartialEq, Eq, Structural)]
pub struct Vec3 {
    pub x: i64,
    pub y: i64,
    pub z: i64,
}

/// A screen-space point: fixed-point canvas coordinates, origin at the canvas
/// center, y growing upward.
#[derive(Clone, Copy, Debug, PartialEq, Eq, Structural)]
pub struct Vec2 {
    pub x: i64,
    pub y: i64,
}

/// All three components within `m` in magnitude.
pub open spec fn bounded3(v: Vec3, m: int) -> bool {
    mag(v.x as int) <= m && mag(v.y as int) <= m && mag(v.z as int) <= m
}

/// The magnitude of a fixed-point product is at most the product of the
/// factor bounds, scaled back down.
pub proof fn lemma_fx_mul_bound(a: int, b: int, am: int, bm: int)
    requires
        mag(a) <= am,
        mag(b) <= bm,
    ensures
        mag(fx_mul(a, b)) <= (am * bm) / (FX_ONE as int),
{
    assert(mag(a * b) == mag(a) * mag(b)) by (nonlinear_arith);
    assert(mag(a) * mag(b) <= am * bm) by {
        lemma_mul_upper_bound(mag(a), am, mag(b), bm);
    }
    assert(mag(div_trunc(a * b, FX_ONE as int)) == mag(a * b) / (FX_ONE as int));
    lemma_div_is_ordered(mag(a * b), am * bm, FX_ONE as int);
}

/// x-component of a point rotated about the y axis: `x*cos + z*sin`.
pub open spec fn rot_y_x(x: int, z: int, c: int, s: int) -> int {
    fx_mul(x, c) + fx_mul(z, s)
}

/// z-component of a point rotated about the y axis: `z*cos - x*sin`.
pub open spec fn rot_y_z(x: int, z: int, c: int, s: int) -> int {
    fx_mul(z, c) - fx_mul(x, s)
}

/// Rotate `v` about the vertical (y) axis by the angle whose cosine is `c`
/// and sine is `s` (both fixed-point).
pub fn rotate_y(v: Vec3, c: i64, s: i64) -> (r: Vec3)
    requires
        bounded3(v, 0x40_0000_0000_0000),
        mag(c as int) <= 2 * FX_ONE,
        mag(s as int) <= 2 * FX_ONE,
    ensures
        r.x == rot_y_x(v.x as int, v.z as int, c as int, s as int),
        r.y == v.y,
        r.z == rot_y_z(v.x as int, v.z as int, c as int, s as int),
        mag(r.x as int) <= 4 * mag(v.x as int) + 4 * mag(v.z as int),
        mag(r.z as int) <= 4 * mag(v.x as int) + 4 * mag(v.z as int),
{
    proof {
        lemma_fx_mul_bound(v.x as int, c as int, mag(v.x as int), 2 * FX_ONE as int);
        lemma_fx_mul_bound(v.z as int, s as int, mag(v.z as int), 2 * FX_ONE as int);
        lemma_fx_mul_bound(v.z as int, c as int, mag(v.z as int), 2 * FX_ONE as int);
        lemma_fx_mul_bound(v.x as int, s as int, mag(v.x as int), 2 * FX_ONE as int);
        assert((mag(v.x as int) * (2 * FX_ONE as int)) / (FX_ONE as int) == 2 * mag(v.x as int))
            by (nonlinear_arith)
            requires
                FX_ONE == 65536,
        ;
        assert((mag(v.z as int) * (2 * FX_ONE as int)) / (FX_ONE as int) == 2 * mag(v.z as int))
            by (nonlinear_arith)
            requires
                FX_ONE == 65536,
        ;
    }
    let xc = fx_mul_e(v.x, c);
    let zs = fx_mul_e(v.z, s);
    let zc = fx_mul_e(v.z, c);
    let xs = fx_mul_e(v.x, s);
    Vec3 { x: xc + zs, y: v.y, z: zc - xs }
}

/// Componentwise vector sum.
pub fn vec3_add(a: Vec3, b: Vec3) -> (r: Vec3)
    requires
        i64::MIN <= a.x + b.x <= i64::MAX,
        i64::MIN <= a.y + b.y <= i64::MAX,
        i64::MIN <= a.z + b.z <= i64::MAX,
    ensures
        r.x == a.x + b.x,
        r.y == a.y + b.y,
        r.z == a.z + b.z,
{
    Vec3 { x: a.x + b.x, y: a.y + b.y, z: a.z + b.z }
}

/// Exact squared distance between two vectors, in squared raw units.
pub open spec fn dist2(a: Vec3, b: Vec3) -> int {
    (a.x - b.x) * (a.x - b.x) + (a.y - b.y) * (a.y - b.y) + (a.z - b.z) * (a.z - b.z)
}

} // verus!
