//! Interpolation strategies on fixed-point scalars.
//!
//! A fixed-point scalar is an `i64` counting 1/1_000_000ths of a unit.
//! Linear interpolation is computed exactly (rounded toward negative
//! infinity); spherical interpolation is split into a verified planning
//! step (shorter-arc choice, near-parallel fallback, clamping) and the
//! trigonometric evaluation, which callers perform on the plan.

use vstd::arithmetic::div_mod::{
    lemma_div_is_ordered, lemma_div_of0, lemma_fundamental_div_mod,
    lemma_fundamental_div_mod_converse_div,
};
use vstd::prelude::*;

verus! {

/// One whole unit of the fixed-point encoding.
pub const FIXED_ONE: i64 = 1_000_000;

/// Normalized dot products above this value are treated as near-parallel:
/// the spherical formula is numerically unstable there, so interpolation
/// falls back to linear. This is 0.9995 in fixed-point units.
pub const SLERP_DOT_THRESHOLD: i64 = 999_500;

/// Exact result of linear interpolation `a*(1 - u) + b*u` at the rational
/// parameter `u = num/den`, rounded toward negative infinity.
pub open spec fn lerp_int(a: int, b: int, num: int, den: int) -> int {
    a + ((b - a) * num) / den
}

/// Linear interpolation is exact at the endpoints: parameter 0 yields `a`
/// and parameter 1 (that is, `num == den`) yields `b`.
pub proof fn lemma_lerp_endpoints(a: int, b: int, den: int)
    requires
        0 < den,
    ensures
        lerp_int(a, b, 0, den) == a,
        lerp_int(a, b, den, den) == b,
{
    assert((b - a) * 0 == 0) by (nonlinear_arith);
    lemma_div_of0(den);
    lemma_fundamental_div_mod_converse_div((b - a) * den, den, b - a, 0);
}

/// The interpolated value always lies between `a` and `b` (inclusive)
/// when the parameter lies in the unit interval, i.e. `0 <= num <= den`.
pub proof fn lemma_lerp_bounds(a: int, b: int, num: int, den: int)
    requires
        0 < den,
        0 <= num <= den,
    ensures
        a <= b ==> a <= lerp_int(a, b, num, den) <= b,
        b <= a ==> b <= lerp_int(a, b, num, den) <= a,
{
    let d = b - a;
    lemma_div_of0(den);
    if d >= 0 {
        assert(0 <= d * num <= d * den) by (nonlinear_arith)
            requires 0 <= d && 0 <= num <= den;
        lemma_div_is_ordered(0, d * num, den);
        lemma_div_is_ordered(d * num, d * den, den);
        lemma_fundamental_div_mod_converse_div(d * den, den, d, 0);
    } else {
        assert(d * den <= d * num <= 0) by (nonlinear_arith)
            requires d < 0 && 0 <= num <= den;
        lemma_div_is_ordered(d * den, d * num, den);
        lemma_div_is_ordered(d * num, 0, den);
        lemma_fundamental_div_mod_converse_div(d * den, den, d, 0);
    }
}

/// Flooring division of a negative dividend, written with the ceiling
/// division of its magnitude: `(-m) / den == -((m - 1) / den + 1)`.
proof fn lemma_neg_div_ceil(m: int, den: int)
    requires
        0 < m,
        0 < den,
    ensures
        (-m) / den == -((m - 1) / den + 1),
{
    let q = m / den;
    let r = m % den;
    lemma_fundamental_div_mod(m, den);
    if r == 0 {
        assert(q >= 1) by {
            if q <= 0 {
                assert(den * q <= 0) by (nonlinear_arith)
                    requires den > 0 && q <= 0;
            }
        }
        assert(-m == (-q) * den + 0) by (nonlinear_arith)
            requires m == den * q;
        lemma_fundamental_div_mod_converse_div(-m, den, -q, 0);
        assert(m - 1 == (q - 1) * den + (den - 1)) by (nonlinear_arith)
            requires m == den * q;
        lemma_fundamental_div_mod_converse_div(m - 1, den, q - 1, den - 1);
    } else {
        assert(-m == (-(q + 1)) * den + (den - r)) by (nonlinear_arith)
            requires m == den * q + r;
        lemma_fundamental_div_mod_converse_div(-m, den, -(q + 1), den - r);
        assert(m - 1 == q * den + (r - 1)) by (nonlinear_arith)
            requires m == den * q + r;
        lemma_fundamental_div_mod_converse_div(m - 1, den, q, r - 1);
    }
}

/// Linear interpolation of fixed-point scalars: returns exactly
/// `lerp_int(a, b, time - t0, t1 - t0)`, the value of `a*(1-u) + b*u`
/// at `u = (time - t0)/(t1 - t0)`, rounded toward negative infinity.
/// `time` may lie outside `[t0, t1]`: extrapolation is allowed and not
/// special-cased; the one machine limit is that the exact result fits
/// an i64 (inside the segment it always does, see `lemma_lerp_bounds`).
pub fn lerp_fixed(a: i64, b: i64, time: i64, t0: i64, t1: i64) -> (r: i64)
    requires
        t0 < t1,
        i64::MIN <= lerp_int(a as int, b as int, time - t0, t1 - t0) <= i64::MAX,
    ensures
        r as int == lerp_int(a as int, b as int, time - t0, t1 - t0),
{
    let ghost result = lerp_int(a as int, b as int, time - t0, t1 - t0);
    let num_i: i128 = time as i128 - t0 as i128;
    let d_i: i128 = b as i128 - a as i128;
    let den: u128 = (t1 as i128 - t0 as i128) as u128;
    let mag_num: u128 = if num_i >= 0 {
        num_i as u128
    } else {
        (-num_i) as u128
    };
    let mag_d: u128 = if d_i >= 0 {
        d_i as u128
    } else {
        (-d_i) as u128
    };
    proof {
        assert(mag_d * mag_num < 0x10000000000000000 * 0x10000000000000000) by (nonlinear_arith)
            requires mag_d < 0x10000000000000000 && mag_num < 0x10000000000000000;
    }
    let m: u128 = mag_d * mag_num;
    let negative = (d_i < 0) != (num_i < 0);
    if !negative || m == 0 {
        proof {
            assert((d_i as int) * (num_i as int) == m) by (nonlinear_arith)
                requires
                    m == mag_d * mag_num,
                    (mag_d == d_i || mag_d == -d_i) && (mag_num == num_i || mag_num == -num_i),
                    (d_i >= 0 && num_i >= 0) || (d_i < 0 && num_i < 0) || mag_d * mag_num == 0;
        }
        let q: u128 = m / den;
        proof {
            assert(q == ((d_i as int) * (num_i as int)) / (den as int));
            assert(a + q == result);
        }
        (a as i128 + q as i128) as i64
    } else {
        proof {
            assert((d_i as int) * (num_i as int) == -(m as int)) by (nonlinear_arith)
                requires
                    m == mag_d * mag_num,
                    (mag_d == d_i || mag_d == -d_i) && (mag_num == num_i || mag_num == -num_i),
                    (d_i < 0) != (num_i < 0);
        }
        let q: u128 = (m - 1) / den + 1;
        proof {
            lemma_neg_div_ceil(m as int, den as int);
            // (m - 1) / den stays below m, so adding 1 cannot overflow.
            assert((m - 1) as int / (den as int) <= (m - 1) as int) by {
                lemma_fundamental_div_mod((m - 1) as int, den as int);
                let qq = (m - 1) as int / (den as int);
                lemma_div_is_ordered(0, (m - 1) as int, den as int);
                lemma_div_of0(den as int);
                assert(qq <= (den as int) * qq) by (nonlinear_arith)
                    requires den as int >= 1 && qq >= 0;
            }
            assert((-(m as int)) / (den as int) == -(q as int));
            assert(a - q == result);
        }
        (a as i128 - q as i128) as i64
    }
}

/// How a spherical interpolation is to be evaluated, after the verified
/// branch decisions have been made. `negate_b` set means the second
/// operand must be negated before blending (the shorter-arc choice).
#[derive(Clone, Copy, Debug, PartialEq, Eq, Structural)]
pub enum SlerpPlan {
    /// The operands are near parallel: blend linearly.
    Linear { negate_b: bool },
    /// Blend spherically with the angle `acos(dot_clamped / FIXED_ONE)`.
    Spherical { negate_b: bool, dot_clamped: i64 },
}

/// Clamp a fixed-point scalar to the unit interval `[-FIXED_ONE, FIXED_ONE]`.
pub open spec fn clamp_unit(d: int) -> int {
    if d < -(FIXED_ONE as int) {
        -(FIXED_ONE as int)
    } else if d > FIXED_ONE as int {
        FIXED_ONE as int
    } else {
        d
    }
}

/// The plan spherical interpolation follows for a given normalized dot
/// product of its operands (in fixed-point units): if the dot is negative
/// the second operand is negated and the dot's sign flipped (shorter arc);
/// if the magnitude then exceeds `SLERP_DOT_THRESHOLD` the blend falls
/// back to linear; otherwise the dot is clamped to the unit interval and
/// used spherically.
pub open spec fn slerp_plan_spec(dot: int) -> SlerpPlan {
    let negate_b = dot < 0;
    let d = if dot < 0 { -dot } else { dot };
    if d > SLERP_DOT_THRESHOLD as int {
        SlerpPlan::Linear { negate_b }
    } else {
        SlerpPlan::Spherical { negate_b, dot_clamped: clamp_unit(d) as i64 }
    }
}

/// Decide how to evaluate a spherical interpolation whose operands have
/// the given normalized dot product.
pub fn slerp_plan(dot: i64) -> (p: SlerpPlan)
    requires
        dot != i64::MIN,
    ensures
        p == slerp_plan_spec(dot as int),
{
    let (negate_b, d) = if dot < 0 { (true, -dot) } else { (false, dot) };
    if d > SLERP_DOT_THRESHOLD {
        SlerpPlan::Linear { negate_b }
    } else {
        let dot_clamped = if d < -FIXED_ONE {
            -FIXED_ONE
        } else if d > FIXED_ONE {
            FIXED_ONE
        } else {
            d
        };
        SlerpPlan::Spherical { negate_b, dot_clamped }
    }
}

/// Shorter-arc law: for a negative dot product the plan is exactly the
/// plan for the negated (positive) dot product, with the second operand
/// marked for negation — spherical interpolation of `a` and `b` with
/// `dot < 0` proceeds as interpolation of `a` and `-b`.
pub proof fn lemma_slerp_shorter_arc(dot: int)
    requires
        -(i64::MAX as int) <= dot < 0,
    ensures
        slerp_plan_spec(dot) matches SlerpPlan::Linear { negate_b } ==> negate_b
            && slerp_plan_spec(-dot) == (SlerpPlan::Linear { negate_b: false }),
        slerp_plan_spec(dot) matches SlerpPlan::Spherical { negate_b, dot_clamped } ==> negate_b
            && slerp_plan_spec(-dot) == (SlerpPlan::Spherical {
                negate_b: false,
                dot_clamped,
            }),
{
}

} // verus!

