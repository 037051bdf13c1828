//! Parameterized response curves: an easing equation over a clamped input
//! range, linearly interpolated into an output range and scaled by a factor.
//! The aspiration, ratio and reward curves of the influence model are all
//! instances of this shape.

use crate::fixed::{fix_mul, mul_scaled, FIX_MAX, SCALE};
use vstd::arithmetic::div_mod::{
    lemma_div_is_ordered, lemma_div_multiples_vanish, lemma_mul_hoist_inequality,
};
use vstd::prelude::*;

verus! {

/// Largest magnitude admitted for curve output limits and factors; keeps a
/// curve's result within `FIX_MAX` so results can feed further arithmetic.
pub const CURVE_MAX: i64 = 200_000_000;

/// The easing equations a curve can use.
#[derive(Debug, Clone, Copy, PartialEq, Eq, Structural)]
pub enum Equation {
    Linear,
    Smooth,
    EaseIn,
    EaseOut,
    Sqrt,
}

/// Clamp `v` into `[lo, hi]`.
pub open spec fn clamp_spec(v: int, lo: int, hi: int) -> int {
    if v < lo {
        lo
    } else if v > hi {
        hi
    } else {
        v
    }
}

/// Normalized position of `v` inside `[min, max]`, in micro units.
pub open spec fn curve_t(v: int, min: int, max: int) -> int {
    (clamp_spec(v, min, max) - min) * (SCALE as int) / (max - min)
}

/// The eased, normalized curve value for input `v` over `[min, max]`.
pub open spec fn eq_eval_spec(eq: Equation, v: int, min: int, max: int) -> int {
    let t = curve_t(v, min, max);
    match eq {
        Equation::Linear => t,
        Equation::Smooth => mul_scaled(mul_scaled(t, t), 3 * (SCALE as int) - 2 * t),
        Equation::EaseIn => (SCALE as int) - mul_scaled((SCALE as int) - t, (SCALE as int) - t),
        Equation::EaseOut => mul_scaled(t, t),
        Equation::Sqrt => crate::fixed::sqrt_floor(t * (SCALE as int)),
    }
}

/// A scaled square stays below its (nonnegative, at most one unit) base.
proof fn lemma_sq_scaled_le(a: int)
    requires
        0 <= a <= SCALE as int,
    ensures
        0 <= mul_scaled(a, a) <= a,
{
    assert(a * a <= a * (SCALE as int)) by (nonlinear_arith)
        requires
            0 <= a <= SCALE as int,
    ;
    lemma_div_is_ordered(a * a, a * (SCALE as int), SCALE as int);
    lemma_div_multiples_vanish(a, SCALE as int);
    assert(a * (SCALE as int) == (SCALE as int) * a) by (nonlinear_arith);
    assert(a * a >= 0) by (nonlinear_arith)
        requires
            a >= 0,
    ;
}

impl Equation {
    /// Decode an equation index; anything beyond the four variants is
    /// rejected.
    pub fn from_u8(val: u8) -> (r: Option<Equation>)
        ensures
            r == (match val {
                0u8 => Some(Equation::Linear),
                1u8 => Some(Equation::Smooth),
                2u8 => Some(Equation::EaseIn),
                3u8 => Some(Equation::EaseOut),
                4u8 => Some(Equation::Sqrt),
                _ => None::<Equation>,
            }),
    {
        match val {
            0 => Some(Self::Linear),
            1 => Some(Self::Smooth),
            2 => Some(Self::EaseIn),
            3 => Some(Self::EaseOut),
            4 => Some(Self::Sqrt),
            _ => None,
        }
    }

    /// The eased, normalized value of `val` over `[min, max]`, in micro
    /// units, always within one unit.
    pub fn eval(&self, val: i64, min: i64, max: i64) -> (r: i64)
        requires
            -FIX_MAX <= val <= FIX_MAX,
            -FIX_MAX <= min < max <= FIX_MAX,
        ensures
            r == eq_eval_spec(*self, val as int, min as int, max as int),
            0 <= r <= SCALE,
    {
        let c: i64 = if val < min {
            min
        } else if val > max {
            max
        } else {
            val
        };
        let num: u128 = ((c - min) as u128) * 1_000_000u128;
        let den: u128 = (max - min) as u128;
        let t: i64 = (num / den) as i64;
        proof {
            assert(num as int <= den as int * 1_000_000) by (nonlinear_arith)
                requires
                    num as int == (c - min) as int * 1_000_000,
                    den as int == (max - min) as int,
                    0 <= (c - min) as int <= den as int,
            ;
            lemma_div_is_ordered(num as int, den as int * 1_000_000, den as int);
            lemma_div_multiples_vanish(1_000_000, den as int);
            assert(t == curve_t(val as int, min as int, max as int));
            assert(0 <= t <= SCALE);
        }
        match self {
            Equation::Linear => t,
            Equation::Smooth => {
                let u = fix_mul(t, t);
                proof {
                    lemma_sq_scaled_le(t as int);
                }
                let w: i64 = 3 * SCALE - 2 * t;
                let r = fix_mul(u, w);
                proof {
                    let s = SCALE as int;
                    assert(t * t * (3 * s - 2 * t) <= s * s * s) by (nonlinear_arith)
                        requires
                            0 <= t <= s,
                            s == 1_000_000,
                    ;
                    assert(u as int <= (t * t) / s);
                    lemma_mul_hoist_inequality(3 * s - 2 * t, t * t, s);
                    assert((3 * s - 2 * t) * ((t * t) / s) <= ((3 * s - 2 * t) * (t * t)) / s);
                    assert(u as int * (3 * s - 2 * t) <= (3 * s - 2 * t) * ((t * t) / s))
                        by (nonlinear_arith)
                        requires
                            0 <= u as int <= (t * t) / s,
                            0 <= 3 * s - 2 * t,
                    ;
                    assert(((3 * s - 2 * t) * (t * t)) == (t * t * (3 * s - 2 * t)))
                        by (nonlinear_arith);
                    lemma_div_is_ordered(t * t * (3 * s - 2 * t), s * s * s, s);
                    lemma_div_multiples_vanish(s * s, s);
                    assert((s * (s * s)) == s * s * s) by (nonlinear_arith);
                    assert(u as int * (3 * s - 2 * t) <= s * s);
                    assert(mul_scaled(u as int, w as int) == (u as int * (3 * s - 2 * t)) / s);
                    lemma_div_is_ordered(u as int * (3 * s - 2 * t), s * s, s);
                    lemma_div_multiples_vanish(s, s);
                    assert(r <= SCALE);
                    assert(u as int * (3 * s - 2 * t) >= 0) by (nonlinear_arith)
                        requires
                            u as int >= 0,
                            3 * s - 2 * t >= 0,
                    ;
                }
                r
            },
            Equation::EaseIn => {
                let u = fix_mul(SCALE - t, SCALE - t);
                proof {
                    lemma_sq_scaled_le((SCALE - t) as int);
                }
                SCALE - u
            },
            Equation::EaseOut => {
                let r = fix_mul(t, t);
                proof {
                    lemma_sq_scaled_le(t as int);
                }
                r
            },
            Equation::Sqrt => {
                let r = crate::fixed::fix_sqrt(t);
                proof {
                    crate::fixed::lemma_sqrt_floor(t as int * (SCALE as int));
                    if r > SCALE {
                        assert((r as int) * (r as int) > (SCALE as int) * (SCALE as int))
                            by (nonlinear_arith)
                            requires
                                r as int > SCALE as int,
                        ;
                        assert(t as int * (SCALE as int) <= (SCALE as int) * (SCALE as int))
                            by (nonlinear_arith)
                            requires
                                t as int <= SCALE as int,
                        ;
                    }
                }
                r
            },
        }
    }
}

/// A response curve: input limits, output limits, a factor and an easing
/// equation.
#[derive(Debug, Clone, Copy)]
pub struct LerpStruct {
    in_lo: i64,
    in_hi: i64,
    out_a: i64,
    out_b: i64,
    factor: i64,
    equation: Equation,
}

/// A curve's value: ease the input into `[0, 1]`, interpolate between the
/// output limits and scale by the factor.
pub open spec fn lerp_eval_spec(
    eq: Equation,
    x1: int,
    x2: int,
    y1: int,
    y2: int,
    factor: int,
    input: int,
) -> int {
    let t = eq_eval_spec(eq, input, x1, x2);
    mul_scaled(y1 + mul_scaled(y2 - y1, t), factor)
}

impl LerpStruct {
    /// Input limits ordered and in range, output limits and factor small
    /// enough that every curve value stays within `FIX_MAX`.
    pub closed spec fn wf(&self) -> bool {
        &&& -FIX_MAX <= self.in_lo < self.in_hi <= FIX_MAX
        &&& -CURVE_MAX <= self.out_a <= CURVE_MAX
        &&& -CURVE_MAX <= self.out_b <= CURVE_MAX
        &&& -CURVE_MAX <= self.factor <= CURVE_MAX
    }

    pub closed spec fn spec_eval(&self, input: int) -> int {
        lerp_eval_spec(
            self.equation,
            self.in_lo as int,
            self.in_hi as int,
            self.out_a as int,
            self.out_b as int,
            self.factor as int,
            input,
        )
    }

    /// Build a curve; the input limits are sorted into order.
    pub fn new(x1: i64, x2: i64, y1: i64, y2: i64, factor: i64, equation: Equation) -> (r:
        LerpStruct)
        requires
            -FIX_MAX <= x1 <= FIX_MAX,
            -FIX_MAX <= x2 <= FIX_MAX,
            x1 != x2,
            -CURVE_MAX <= y1 <= CURVE_MAX,
            -CURVE_MAX <= y2 <= CURVE_MAX,
            -CURVE_MAX <= factor <= CURVE_MAX,
        ensures
            r.wf(),
            forall|input: int| #[trigger]
                r.spec_eval(input) == lerp_eval_spec(
                    equation,
                    if x1 < x2 {
                        x1 as int
                    } else {
                        x2 as int
                    },
                    if x1 < x2 {
                        x2 as int
                    } else {
                        x1 as int
                    },
                    y1 as int,
                    y2 as int,
                    factor as int,
                    input,
                ),
    {
        let lo = if x1 < x2 {
            x1
        } else {
            x2
        };
        let hi = if x1 < x2 {
            x2
        } else {
            x1
        };
        LerpStruct { in_lo: lo, in_hi: hi, out_a: y1, out_b: y2, factor, equation }
    }

    /// The curve's value at `input`, in micro units.
    pub fn eval(&self, input: i64) -> (r: i64)
        requires
            self.wf(),
            -FIX_MAX <= input <= FIX_MAX,
        ensures
            r == self.spec_eval(input as int),
            -200_000_000_000 <= r <= 200_000_000_000,
    {
        let t = self.equation.eval(input, self.in_lo, self.in_hi);
        let d = fix_mul(self.out_b - self.out_a, t);
        proof {
            let dd = self.out_b as int - self.out_a as int;
            assert(abs_le(d as int, 2 * CURVE_MAX as int)) by {
                assert(abs_i(dd) * (t as int) <= abs_i(dd) * (SCALE as int)) by (nonlinear_arith)
                    requires
                        0 <= t as int <= SCALE as int,
                        abs_i(dd) >= 0,
                ;
                lemma_div_is_ordered(abs_i(dd) * (t as int), abs_i(dd) * (SCALE as int), SCALE as int);
                lemma_div_multiples_vanish(abs_i(dd), SCALE as int);
                assert(abs_i(dd) * (SCALE as int) == (SCALE as int) * abs_i(dd)) by (nonlinear_arith);
            }
        }
        let base = self.out_a + d;
        let r = fix_mul(base, self.factor);
        proof {
            let s = SCALE as int;
            assert(abs_i(base as int) <= 3 * CURVE_MAX as int);
            assert(abs_i(base as int) * abs_i(self.factor as int) <= 3 * CURVE_MAX as int * (
            CURVE_MAX as int)) by (nonlinear_arith)
                requires
                    abs_i(base as int) <= 3 * CURVE_MAX as int,
                    0 <= abs_i(self.factor as int) <= CURVE_MAX as int,
            ;
            lemma_div_is_ordered(
                abs_i(base as int) * abs_i(self.factor as int),
                120_000_000_000_000_000,
                s,
            );
        }
        r
    }
}

pub open spec fn abs_i(a: int) -> int {
    if a < 0 {
        -a
    } else {
        a
    }
}

pub open spec fn abs_le(a: int, b: int) -> bool {
    -b <= a <= b
}

} // verus!
