//! Q47.16 fixed-point scalars.
//!
//! A scalar value `v` is represented by the `i64` integer `v * 65536`,
//! truncated toward zero. All renderer arithmetic is stated over the raw
//! integer representation, so contracts elsewhere speak of raw units: a raw
//! difference of `FX_ONE` is one geometric unit.

use vstd::prelude::*;
use vstd::arithmetic::div_mod::{
    lemma_fundamental_div_mod, lemma_div_nonincreasing, lemma_div_pos_is_pos,
    lemma_div_is_ordered,
};
use vstd::arithmetic::mul::lemma_mul_is_commutative;

verus! {

/// The fixed-point scale: the representation of the scalar one.
pub const FX_ONE: i64 = 65536;

/// Magnitude of a mathematical integer.
pub open spec fn mag(a: int) -> int {
    if a >= 0 {
        a
    } else {
        -a
    }
}

/// Division rounding toward zero, total (division by zero gives zero).
/// This is the rounding that the executable scalar operations perform.
pub open spec fn div_trunc(a: int, b: int) -> int {
    if b == 0 {
        0
    } else if (a >= 0) == (b >= 0) {
        mag(a) / mag(b)
    } else {
        -(mag(a) / mag(b))
    }
}

/// Product of two scalars, in raw units.
pub open spec fn fx_mul(a: int, b: int) -> int {
    div_trunc(a * b, FX_ONE as int)
}

/// Quotient of two scalars, in raw units.
pub open spec fn fx_div(a: int, b: int) -> int {
    div_trunc(a * FX_ONE, b)
}

/// The integer part of a scalar (truncation toward zero).
pub open spec fn fx_trunc(a: int) -> int {
    div_trunc(a, FX_ONE as int)
}

/// The scalar representing the integer `n`.
pub open spec fn fx_of_int(n: int) -> int {
    n * FX_ONE
}

/// The division identity for truncating division: the quotient times the
/// divisor differs from the dividend by a remainder smaller than the divisor,
/// and the quotient's magnitude never exceeds the dividend's.
pub proof fn lemma_div_trunc_fundamental(a: int, b: int)
    requires
        b != 0,
    ensures
        mag(div_trunc(a, b)) * mag(b) <= mag(a),
        mag(a - div_trunc(a, b) * b) < mag(b),
        mag(div_trunc(a, b)) <= mag(a),
        a >= 0 ==> div_trunc(a, b) * b >= 0 && a - div_trunc(a, b) * b >= 0,
        a <= 0 ==> div_trunc(a, b) * b <= 0 && a - div_trunc(a, b) * b <= 0,
{
    let am = mag(a);
    let bm = mag(b);
    let qm = am / bm;
    lemma_fundamental_div_mod(am, bm);
    assert(am == bm * qm + am % bm);
    lemma_div_pos_is_pos(am, bm);
    lemma_div_nonincreasing(am, bm);
    assert(qm * bm <= am) by {
        lemma_mul_is_commutative(qm, bm);
    }
    let q = div_trunc(a, b);
    assert(mag(q) == qm);
    assert(mag(q) * mag(b) == qm * bm);
    if a >= 0 {
        if b >= 0 {
            assert(q * b == qm * bm) by {
                lemma_mul_is_commutative(qm, bm);
            }
        } else {
            assert(q * b == qm * bm) by (nonlinear_arith)
                requires
                    q == -qm,
                    b == -bm,
            ;
        }
        assert(a - q * b == am - qm * bm);
        assert(am - qm * bm == am % bm) by {
            lemma_mul_is_commutative(qm, bm);
        }
    } else {
        if b >= 0 {
            assert(q * b == -(qm * bm)) by (nonlinear_arith)
                requires
                    q == -qm,
                    b == bm,
            ;
        } else {
            assert(q * b == -(qm * bm)) by (nonlinear_arith)
                requires
                    q == qm,
                    b == -bm,
            ;
        }
        assert(a - q * b == -(am - qm * bm));
        assert(am - qm * bm == am % bm) by {
            lemma_mul_is_commutative(qm, bm);
        }
    }
}

/// Truncating division is invariant under scaling numerator and denominator
/// by the same positive factor.
pub proof fn lemma_div_trunc_scale(a: int, b: int, c: int)
    requires
        b != 0,
        c > 0,
    ensures
        div_trunc(c * a, c * b) == div_trunc(a, b),
{
    let am = mag(a);
    let bm = mag(b);
    assert(c * b != 0) by (nonlinear_arith)
        requires
            c > 0,
            b != 0,
    ;
    assert(mag(c * a) == c * am && mag(c * b) == c * bm) by (nonlinear_arith)
        requires
            c > 0,
            am == mag(a),
            bm == mag(b),
    ;
    assert((c * am) / (c * bm) == am / bm) by {
        lemma_fundamental_div_mod(am, bm);
        let q = am / bm;
        let r = am % bm;
        assert(c * am == (c * bm) * q + c * r) by (nonlinear_arith)
            requires
                am == bm * q + r,
        ;
        assert(0 <= c * r < c * bm) by (nonlinear_arith)
            requires
                c > 0,
                0 <= r < bm,
        ;
        vstd::arithmetic::div_mod::lemma_fundamental_div_mod_converse_div(c * am, c * bm, q, c * r);
    }
    assert(((c * a) >= 0) == (a >= 0) && ((c * b) >= 0) == (b >= 0)) by (nonlinear_arith)
        requires
            c > 0,
    ;
}

/// Truncation toward zero is monotone.
pub proof fn lemma_fx_trunc_monotone(a: int, b: int)
    requires
        a <= b,
    ensures
        fx_trunc(a) <= fx_trunc(b),
{
    let o = FX_ONE as int;
    if a >= 0 {
        lemma_div_is_ordered(a, b, o);
    } else if b < 0 {
        lemma_div_is_ordered(-b, -a, o);
    } else {
        lemma_div_pos_is_pos(-a, o);
        lemma_div_pos_is_pos(b, o);
    }
}

/// Truncating division of `i128` values, the executable core of the scalar
/// operations.
pub fn div_trunc_i128(a: i128, b: i128) -> (q: i128)
    requires
        b != 0,
        a != i128::MIN,
        b != i128::MIN,
    ensures
        q == div_trunc(a as int, b as int),
{
    let am: u128 = if a < 0 {
        (-a) as u128
    } else {
        a as u128
    };
    let bm: u128 = if b < 0 {
        (-b) as u128
    } else {
        b as u128
    };
    let qm: u128 = am / bm;
    proof {
        assert(am == mag(a as int));
        assert(bm == mag(b as int));
        lemma_div_nonincreasing(am as int, bm as int);
        lemma_div_pos_is_pos(am as int, bm as int);
    }
    if (a < 0) != (b < 0) {
        -(qm as i128)
    } else {
        qm as i128
    }
}

/// Scalar product: `(a * b) / FX_ONE`, truncated toward zero.
pub fn fx_mul_e(a: i64, b: i64) -> (r: i64)
    requires
        i64::MIN < fx_mul(a as int, b as int) <= i64::MAX,
    ensures
        r == fx_mul(a as int, b as int),
{
    proof {
        assert(i128::MIN < (a as int) * (b as int) < i128::MAX) by (nonlinear_arith)
            requires
                i64::MIN <= a <= i64::MAX,
                i64::MIN <= b <= i64::MAX,
        ;
    }
    let p: i128 = (a as i128) * (b as i128);
    let q: i128 = div_trunc_i128(p, FX_ONE as i128);
    q as i64
}

/// Scalar quotient: `(a * FX_ONE) / b`, truncated toward zero.
pub fn fx_div_e(a: i64, b: i64) -> (r: i64)
    requires
        b != 0,
        i64::MIN < fx_div(a as int, b as int) <= i64::MAX,
    ensures
        r == fx_div(a as int, b as int),
{
    let p: i128 = (a as i128) * (FX_ONE as i128);
    let q: i128 = div_trunc_i128(p, b as i128);
    q as i64
}

/// The integer part of a scalar, truncated toward zero.
pub fn fx_trunc_e(a: i64) -> (r: i64)
    ensures
        r == fx_trunc(a as int),
        mag(r as int) <= mag(a as int),
        mag(r as int) <= mag(a as int) / (FX_ONE as int),
{
    proof {
        lemma_div_trunc_fundamental(a as int, FX_ONE as int);
    }
    let q: i128 = div_trunc_i128(a as i128, FX_ONE as i128);
    q as i64
}

/// The scalar representing the integer `n`.
pub fn fx_of_int_e(n: i64) -> (r: i64)
    requires
        i64::MIN <= n * FX_ONE <= i64::MAX,
    ensures
        r == fx_of_int(n as int),
{
    n * FX_ONE
}

} // verus!
