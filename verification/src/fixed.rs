//! Fixed-point arithmetic over `i64` "micro" values: a value `v` stands for
//! the real number `v / 1_000_000`. All operations truncate toward zero and
//! carry exact contracts over mathematical integers.

use vstd::arithmetic::div_mod::{
    lemma_div_is_ordered, lemma_div_multiples_vanish, lemma_multiply_divide_lt,
};
use vstd::prelude::*;

verus! {

/// The fixed-point scale: one whole unit in micro steps.
pub const SCALE: i64 = 1_000_000;

/// Largest magnitude admitted by the arithmetic helpers; keeps every
/// intermediate product inside `i128`/`u128` and every result inside `i64`.
pub const FIX_MAX: i64 = 3_000_000_000_000;

/// Product of two fixed-point values, scaled back down, truncated toward
/// zero; the sign is handled outside the (Euclidean) integer division so the
/// spec matches the unsigned machine division used by the body.
pub open spec fn mul_scaled(a: int, b: int) -> int {
    let m = (abs_int(a) * abs_int(b)) / (SCALE as int);
    if (a < 0) != (b < 0) {
        -m
    } else {
        m
    }
}

/// Quotient of two fixed-point values, scaled back up, truncated toward zero.
pub open spec fn div_scaled(a: int, b: int) -> int {
    let m = (abs_int(a) * (SCALE as int)) / abs_int(b);
    if (a < 0) != (b < 0) {
        -m
    } else {
        m
    }
}

pub open spec fn abs_int(a: int) -> int {
    if a < 0 {
        -a
    } else {
        a
    }
}

/// Fixed-point multiplication: `r` is `a * b` in micro units, truncated
/// toward zero.
pub fn fix_mul(a: i64, b: i64) -> (r: i64)
    requires
        -FIX_MAX <= a <= FIX_MAX,
        -FIX_MAX <= b <= FIX_MAX,
    ensures
        r == mul_scaled(a as int, b as int),
        abs_int(r as int) <= abs_int(a as int) * abs_int(b as int) / (SCALE as int),
{
    let neg: bool = (a < 0) != (b < 0);
    let ma: u128 = if a < 0 {
        (-(a as i128)) as u128
    } else {
        a as u128
    };
    let mb: u128 = if b < 0 {
        (-(b as i128)) as u128
    } else {
        b as u128
    };
    assert(ma * mb <= 9_000_000_000_000_000_000_000_000u128) by (nonlinear_arith)
        requires
            ma <= 3_000_000_000_000u128,
            mb <= 3_000_000_000_000u128,
    ;
    let m: u128 = (ma * mb) / (SCALE as u128);
    assert(m <= 9_000_000_000_000_000_000u128) by (nonlinear_arith)
        requires
            ma <= 3_000_000_000_000u128,
            mb <= 3_000_000_000_000u128,
            m == (ma as int * mb as int) / 1_000_000,
    ;
    if neg {
        -(m as i64)
    } else {
        m as i64
    }
}

/// Truncated-toward-zero division of a fixed value by a plain count.
pub open spec fn div_int_spec(a: int, n: int) -> int {
    if a < 0 {
        -((-a) / n)
    } else {
        a / n
    }
}

/// Divide a fixed-point value by a count, truncating toward zero.
pub fn div_by_count(a: i64, n: u64) -> (r: i64)
    requires
        1 <= n,
        -1_000_000_000_000_000_000 <= a <= 1_000_000_000_000_000_000,
    ensures
        r == div_int_spec(a as int, n as int),
        abs_int(r as int) <= abs_int(a as int),
{
    let neg: bool = a < 0;
    let ma: u64 = if a < 0 {
        (-a) as u64
    } else {
        a as u64
    };
    let m: u64 = ma / n;
    proof {
        lemma_div_is_ordered(ma as int, 1_000_000_000_000_000_000, n as int);
        assert(m <= ma) by {
            vstd::arithmetic::div_mod::lemma_div_nonincreasing(ma as int, n as int);
        }
    }
    if neg {
        -(m as i64)
    } else {
        m as i64
    }
}

/// A scaled product of a nonnegative value with a factor of at most one unit
/// never exceeds the value.
pub proof fn lemma_mul_scaled_le(a: int, b: int)
    requires
        0 <= a,
        0 <= b <= SCALE as int,
    ensures
        0 <= mul_scaled(a, b) <= a,
{
    assert(a * b <= a * (SCALE as int)) by (nonlinear_arith)
        requires
            0 <= a,
            0 <= b <= SCALE as int,
    ;
    assert(a * b >= 0) by (nonlinear_arith)
        requires
            0 <= a,
            0 <= b,
    ;
    lemma_div_is_ordered(a * b, a * (SCALE as int), SCALE as int);
    lemma_div_multiples_vanish(a, SCALE as int);
    assert(a * (SCALE as int) == (SCALE as int) * a) by (nonlinear_arith);
}

/// A product of bounded factors is bounded after scaling.
pub proof fn lemma_mul_scaled_abs(a: int, b: int, ca: int, cb: int)
    requires
        abs_int(a) <= ca,
        abs_int(b) <= cb,
        0 <= ca,
        0 <= cb,
    ensures
        abs_int(mul_scaled(a, b)) <= ca * cb / (SCALE as int),
{
    let aa = abs_int(a);
    let ab = abs_int(b);
    assert(aa * ab <= ca * cb) by (nonlinear_arith)
        requires
            0 <= aa <= ca,
            0 <= ab <= cb,
    ;
    assert(aa * ab >= 0) by (nonlinear_arith)
        requires
            aa >= 0,
            ab >= 0,
    ;
    lemma_div_is_ordered(aa * ab, ca * cb, SCALE as int);
    vstd::arithmetic::div_mod::lemma_div_pos_is_pos(aa * ab, SCALE as int);
}

/// Division spreads over a sum of nonnegative parts, possibly losing some
/// remainder: the parts' quotients never overshoot the whole's.
pub proof fn lemma_div_superadd(a: int, b: int, d: int)
    requires
        0 <= a,
        0 <= b,
        0 < d,
    ensures
        a / d + b / d <= (a + b) / d,
{
    vstd::arithmetic::div_mod::lemma_fundamental_div_mod(a, d);
    vstd::arithmetic::div_mod::lemma_fundamental_div_mod(b, d);
    vstd::arithmetic::div_mod::lemma_mod_division_less_than_divisor(a, d);
    vstd::arithmetic::div_mod::lemma_mod_division_less_than_divisor(b, d);
    vstd::arithmetic::div_mod::lemma_div_pos_is_pos(a, d);
    vstd::arithmetic::div_mod::lemma_div_pos_is_pos(b, d);
    let q = a / d + b / d;
    assert(a + b >= d * q) by (nonlinear_arith)
        requires
            a == d * (a / d) + a % d,
            b == d * (b / d) + b % d,
            a % d >= 0,
            b % d >= 0,
            q == a / d + b / d,
    ;
    lemma_div_is_ordered(d * q, a + b, d);
    lemma_div_multiples_vanish(q, d);
}

/// The integer square root, rounded down: the unique `r >= 0` with
/// `r * r <= n < (r + 1) * (r + 1)`.
pub open spec fn sqrt_floor(n: int) -> int
    decreases n,
{
    if n < 1 {
        0
    } else {
        let r = sqrt_floor(n - 1);
        if (r + 1) * (r + 1) <= n {
            r + 1
        } else {
            r
        }
    }
}

pub proof fn lemma_sqrt_floor(n: int)
    requires
        n >= 0,
    ensures
        0 <= sqrt_floor(n),
        sqrt_floor(n) * sqrt_floor(n) <= n,
        n < (sqrt_floor(n) + 1) * (sqrt_floor(n) + 1),
    decreases n,
{
    if n >= 1 {
        lemma_sqrt_floor(n - 1);
        let p = sqrt_floor(n - 1);
        if (p + 1) * (p + 1) <= n {
            assert((p + 1) * (p + 1) < (p + 2) * (p + 2)) by (nonlinear_arith)
                requires
                    p >= 0,
            ;
        }
    }
}

pub proof fn lemma_sqrt_floor_unique(n: int, r: int)
    requires
        n >= 0,
        r >= 0,
        r * r <= n,
        n < (r + 1) * (r + 1),
    ensures
        r == sqrt_floor(n),
{
    lemma_sqrt_floor(n);
    let s = sqrt_floor(n);
    if r < s {
        assert((r + 1) * (r + 1) <= s * s) by (nonlinear_arith)
            requires
                0 <= r,
                r < s,
        ;
    }
    if s < r {
        assert((s + 1) * (s + 1) <= r * r) by (nonlinear_arith)
            requires
                0 <= s,
                s < r,
        ;
    }
}

/// Integer square root of a `u64`, by binary search.
pub fn isqrt(n: u64) -> (r: u64)
    ensures
        r == sqrt_floor(n as int),
{
    let mut lo: u64 = 0;
    let mut hi: u64 = 4_294_967_296;
    assert((hi as int) * (hi as int) > n as int) by (nonlinear_arith)
        requires
            hi == 4_294_967_296u64,
            n <= 18_446_744_073_709_551_615u64,
    ;
    while hi - lo > 1
        invariant
            0 <= lo < hi <= 4_294_967_296,
            (lo as int) * (lo as int) <= n as int,
            (n as int) < (hi as int) * (hi as int),
        decreases hi - lo,
    {
        let mid: u64 = lo + (hi - lo) / 2;
        assert((mid as u128) * (mid as u128) <= 0x1_0000_0000_0000_0000u128) by (nonlinear_arith)
            requires
                mid <= 4_294_967_296u64,
        ;
        if (mid as u128) * (mid as u128) <= n as u128 {
            lo = mid;
        } else {
            hi = mid;
        }
    }
    proof {
        lemma_sqrt_floor_unique(n as int, lo as int);
    }
    lo
}

/// Square root of a nonnegative fixed-point value, in micro units, rounded
/// down.
pub fn fix_sqrt(x: i64) -> (r: i64)
    requires
        0 <= x <= FIX_MAX,
    ensures
        r == sqrt_floor(x as int * (SCALE as int)),
        0 <= r <= 2_000_000_000,
{
    let n: u64 = (x as u64) * 1_000_000u64;
    assert(n as int == x as int * (SCALE as int));
    let r = isqrt(n);
    proof {
        lemma_sqrt_floor(n as int);
        if r > 2_000_000_000 {
            assert((r as int) * (r as int) > 3_000_000_000_000_000_000) by (nonlinear_arith)
                requires
                    r as int > 2_000_000_000,
            ;
        }
    }
    r as i64
}

/// One unit's worth of exponential growth, truncated: `e` in micro units.
pub const E1_MICRO: i64 = 2_718_281;

/// The exponential saturates beyond this argument; the weight formula damps
/// its argument with a square root, so the cap is only reached on extreme
/// configurations.
pub const EXP_ARG_CAP: i64 = 14_000_000;

/// Cap on the integer-power chain; above the value the chain can actually
/// reach for capped arguments, so it never binds.
pub const EXP_INT_CAP: i64 = 1_250_000_000_000;

/// `e^k` in micro units for whole `k`, by a truncating (and, defensively,
/// capped) product chain.
pub open spec fn exp_int_part(k: int) -> int
    decreases k,
{
    if k <= 0 {
        SCALE as int
    } else {
        let m = mul_scaled(exp_int_part(k - 1), E1_MICRO as int);
        if m > EXP_INT_CAP as int {
            EXP_INT_CAP as int
        } else {
            m
        }
    }
}

pub proof fn lemma_exp_int_part_bounds(k: int)
    requires
        k >= 0,
    ensures
        SCALE as int <= exp_int_part(k) <= EXP_INT_CAP as int,
    decreases k,
{
    if k > 0 {
        lemma_exp_int_part_bounds(k - 1);
        let p = exp_int_part(k - 1);
        assert((p * 2_718_281) / 1_000_000 >= 1_000_000) by (nonlinear_arith)
            requires
                p >= 1_000_000,
        ;
    }
}

/// `e^f` for a fractional micro argument `0 <= f < SCALE`, by a truncated
/// power series.
pub open spec fn exp_frac(f: int) -> int {
    (SCALE as int) + f + (f * f) / (2 * (SCALE as int)) + (f * f * f) / (
    6 * (SCALE as int) * (SCALE as int))
}

/// The library's exponential on nonnegative arguments: split the (capped)
/// argument into whole and fractional micro parts and combine the two.
pub open spec fn exp_pos_spec(x: int) -> int {
    let c = if x > EXP_ARG_CAP as int {
        EXP_ARG_CAP as int
    } else {
        x
    };
    let k = c / (SCALE as int);
    let f = c % (SCALE as int);
    mul_scaled(exp_int_part(k), exp_frac(f))
}

/// The library's exponential: reciprocal on negative arguments, never below
/// one micro.
pub open spec fn fix_exp_spec(x: int) -> int {
    if x >= 0 {
        exp_pos_spec(x)
    } else {
        let q = ((SCALE as int) * (SCALE as int)) / exp_pos_spec(-x);
        if q < 1 {
            1
        } else {
            q
        }
    }
}

fn exp_frac_val(f: u64) -> (r: i64)
    requires
        f < 1_000_000,
    ensures
        r == exp_frac(f as int),
        1_000_000 <= r <= 2_800_000,
{
    assert(f * f < 1_000_000_000_000) by (nonlinear_arith)
        requires
            f < 1_000_000,
    ;
    let f2: u64 = f * f;
    let t2: u64 = f2 / 2_000_000;
    assert(f2 * f < 1_000_000_000_000_000_000) by (nonlinear_arith)
        requires
            f < 1_000_000,
            f2 < 1_000_000_000_000,
    ;
    let f3: u64 = f2 * f;
    let t3: u64 = f3 / 6_000_000_000_000;
    proof {
        lemma_div_is_ordered(f2 as int, 1_000_000_000_000, 2_000_000);
        lemma_div_is_ordered(f3 as int, 1_000_000_000_000_000_000, 6_000_000_000_000);
    }
    (1_000_000 + f + t2 + t3) as i64
}

fn exp_pos(x: i64) -> (r: i64)
    requires
        0 <= x <= FIX_MAX,
    ensures
        r == exp_pos_spec(x as int),
        SCALE <= r <= 3_500_000_000_000,
{
    let c: u64 = if x > EXP_ARG_CAP {
        EXP_ARG_CAP as u64
    } else {
        x as u64
    };
    let k: u64 = c / 1_000_000;
    let f: u64 = c % 1_000_000;
    let fr = exp_frac_val(f);
    let mut acc: i64 = SCALE;
    let mut i: u64 = 0;
    proof {
        lemma_exp_int_part_bounds(0);
    }
    while i < k
        invariant
            0 <= i <= k <= 14,
            acc == exp_int_part(i as int),
            SCALE <= acc <= EXP_INT_CAP,
        decreases k - i,
    {
        let m = fix_mul(acc, E1_MICRO);
        assert((acc as int * 2_718_281) / 1_000_000 >= 1_000_000) by (nonlinear_arith)
            requires
                acc as int >= 1_000_000,
        ;
        acc = if m > EXP_INT_CAP {
            EXP_INT_CAP
        } else {
            m
        };
        i = i + 1;
    }
    let r = fix_mul(acc, fr);
    assert((acc as int * fr as int) / 1_000_000 >= 1_000_000) by (nonlinear_arith)
        requires
            acc as int >= 1_000_000,
            fr as int >= 1_000_000,
    ;
    assert((acc as int * fr as int) / 1_000_000 <= 3_500_000_000_000) by (nonlinear_arith)
        requires
            0 <= acc as int <= 1_250_000_000_000,
            0 <= fr as int <= 2_800_000,
    ;
    r
}

/// The library's exponential in micro units; saturates at `EXP_ARG_CAP` in
/// magnitude and never returns less than one micro.
pub fn fix_exp(x: i64) -> (r: i64)
    requires
        -FIX_MAX <= x <= FIX_MAX,
    ensures
        r == fix_exp_spec(x as int),
        1 <= r <= 3_500_000_000_000,
{
    if x >= 0 {
        exp_pos(x)
    } else {
        let p = exp_pos(-x);
        let q: u64 = 1_000_000_000_000u64 / (p as u64);
        let q: i64 = q as i64;
        if q < 1 {
            1
        } else {
            q
        }
    }
}

/// `ln 2` in micro units, truncated.
pub const LN2_MICRO: i64 = 693_147;

pub open spec fn pow2(k: int) -> int
    decreases k,
{
    if k <= 0 {
        1
    } else {
        2 * pow2(k - 1)
    }
}

pub open spec fn log2_floor(m: int) -> int
    decreases m,
{
    if m < 2 {
        0
    } else {
        1 + log2_floor(m / 2)
    }
}

pub proof fn lemma_log2_floor_unique(m: int, k: int)
    requires
        m >= 1,
        k >= 0,
        pow2(k) <= m,
        m < pow2(k + 1),
    ensures
        k == log2_floor(m),
    decreases k,
{
    if k == 0 {
        assert(pow2(1) == 2);
    } else {
        assert(pow2(k) == 2 * pow2(k - 1));
        assert(pow2(k + 1) == 2 * pow2(k));
        lemma_log2_floor_unique(m / 2, k - 1);
    }
}

/// `ln` of a normalized mantissa `SCALE <= f < 2 * SCALE`, in micro units,
/// by a truncated artanh series.
pub open spec fn ln_frac(f: int) -> int {
    let z = ((f - SCALE as int) * (SCALE as int)) / (f + SCALE as int);
    2 * (z + (z * z * z) / (3 * (SCALE as int) * (SCALE as int)) + (z * z * z * z * z) / (5 * (
    SCALE as int) * (SCALE as int) * (SCALE as int) * (SCALE as int)))
}

/// The library's `ln(1 + n)` for a cell count `n`, in micro units: split
/// `n + 1` into a power of two and a mantissa.
pub open spec fn ln1p_spec(n: int) -> int {
    let m = n + 1;
    let k = log2_floor(m);
    let f = (m * (SCALE as int)) / pow2(k);
    k * (LN2_MICRO as int) + ln_frac(f)
}

/// `ln(1 + n)` in micro units, rounded down by truncating arithmetic.
pub fn fix_ln1p(n: u64) -> (r: i64)
    requires
        n <= 2_000_000,
    ensures
        r == ln1p_spec(n as int),
        0 <= r <= 16_000_000,
{
    let m: u64 = n + 1;
    let mut k: u64 = 0;
    let mut p: u64 = 1;
    while 2 * p <= m
        invariant
            1 <= p <= m,
            m <= 2_000_001,
            0 <= k <= 21,
            p == pow2(k as int),
        decreases m - p,
    {
        proof {
            if k >= 21 {
                assert(pow2(21) == 2097152) by {
                    assert(pow2(0) == 1);
                    assert(pow2(1) == 2);
                    assert(pow2(2) == 4);
                    assert(pow2(3) == 8);
                    assert(pow2(4) == 16);
                    assert(pow2(5) == 32);
                    assert(pow2(6) == 64);
                    assert(pow2(7) == 128);
                    assert(pow2(8) == 256);
                    assert(pow2(9) == 512);
                    assert(pow2(10) == 1024);
                    assert(pow2(11) == 2048);
                    assert(pow2(12) == 4096);
                    assert(pow2(13) == 8192);
                    assert(pow2(14) == 16384);
                    assert(pow2(15) == 32768);
                    assert(pow2(16) == 65536);
                    assert(pow2(17) == 131072);
                    assert(pow2(18) == 262144);
                    assert(pow2(19) == 524288);
                    assert(pow2(20) == 1048576);
                    assert(pow2(21) == 2097152);
                }
            }
        }
        p = 2 * p;
        k = k + 1;
    }
    proof {
        lemma_log2_floor_unique(m as int, k as int);
    }
    let f: u64 = (m * 1_000_000) / p;
    proof {
        assert(m as int * 1_000_000 >= p as int * 1_000_000);
        lemma_div_is_ordered(p as int * 1_000_000, m as int * 1_000_000, p as int);
        lemma_div_multiples_vanish(1_000_000, p as int);
        assert((f as int) >= 1_000_000);
        assert(m as int * 1_000_000 < (p as int) * 2_000_000) by (nonlinear_arith)
            requires
                (m as int) < 2 * (p as int),
                p >= 1,
        ;
        lemma_multiply_divide_lt(m as int * 1_000_000, p as int, 2_000_000);
        assert((f as int) < 2_000_000);
    }
    let zn: u64 = (f - 1_000_000) * 1_000_000;
    let zd: u64 = f + 1_000_000;
    let z: u64 = zn / zd;
    proof {
        assert((zn as int) < (zd as int) * 500_000) by (nonlinear_arith)
            requires
                zn as int == (f as int - 1_000_000) * 1_000_000,
                zd as int == f as int + 1_000_000,
                1_000_000 <= f as int, (f as int) < 2_000_000,
        ;
        lemma_multiply_divide_lt(zn as int, zd as int, 500_000);
        assert((z as int) < 500_000);
    }
    assert(z * z < 250_000_000_000 && z * z * z < 125_000_000_000_000_000) by (nonlinear_arith)
        requires
            z < 500_000,
    ;
    let t3: u64 = (z * z * z) / 3_000_000_000_000;
    assert((z as u128) * (z as u128) < 250_000_000_000u128 && (z as u128) * (z as u128) * (
    z as u128) < 125_000_000_000_000_000u128 && (z as u128) * (z as u128) * (z as u128) * (
    z as u128) < 62_500_000_000_000_000_000_000u128 && (z as u128) * (z as u128) * (z as u128) * (
    z as u128) * (z as u128) < 31_250_000_000_000_000_000_000_000_000u128) by (nonlinear_arith)
        requires
            z < 500_000,
    ;
    let t5u: u128 = ((z as u128) * (z as u128) * (z as u128) * (z as u128) * (z as u128))
        / 5_000_000_000_000_000_000_000_000u128;
    let t5: u64 = t5u as u64;
    proof {
        lemma_div_is_ordered(
            (z as int) * (z as int) * (z as int),
            125_000_000_000_000_000,
            3_000_000_000_000,
        );
        assert(t5u < 6_250) by {
            lemma_div_is_ordered(
                ((z as int) * (z as int) * (z as int) * (z as int) * (z as int)),
                31_250_000_000_000_000_000_000_000_000,
                5_000_000_000_000_000_000_000_000,
            );
        }
    }
    let r: u64 = k * 693_147 + 2 * (z + t3 + t5);
    r as i64
}

} // verus!
