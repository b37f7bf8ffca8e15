//! Integer arithmetic shared by the simulation: square roots, saturation and
//! rounded division.
use vstd::prelude::*;

verus! {

/// Largest magnitude a position component may take; results beyond it saturate.
pub const POSITION_LIMIT: i64 = 1_000_000_000_000;

/// Largest magnitude a velocity component may take; results beyond it saturate.
pub const VELOCITY_LIMIT: i64 = 1_000_000_000_000;

/// Lengths are measured in thousandths of a pixel.
pub const UNITS_PER_PIXEL: i64 = 1000;

/// Ratios (bounce, resistance) are given in millionths.
pub const RATIO_ONE: i64 = 1_000_000;

/// Inputs of the square roots stay below this bound.
pub const SQRT_INPUT_LIMIT: u128 = 0x100_0000_0000_0000_0000_0000_0000_0000;

/// Square roots of admitted inputs stay below this bound.
pub const SQRT_RESULT_LIMIT: u128 = 0x1000_0000_0000_0000;

/// `r` is the integer square root of `n`, rounded down.
pub open spec fn is_floor_sqrt(n: int, r: int) -> bool {
    0 <= r && r * r <= n && n < (r + 1) * (r + 1)
}

/// The integer square root of `n`, rounded down.
pub open spec fn sqrt_floor(n: int) -> int {
    choose|r: int| is_floor_sqrt(n, r)
}

pub proof fn lemma_floor_sqrt_unique(n: int, r1: int, r2: int)
    requires
        is_floor_sqrt(n, r1),
        is_floor_sqrt(n, r2),
    ensures
        r1 == r2,
{
    if r1 < r2 {
        assert((r1 + 1) * (r1 + 1) <= r2 * r2) by (nonlinear_arith)
            requires
                0 <= r1 < r2,
        ;
    } else if r2 < r1 {
        assert((r2 + 1) * (r2 + 1) <= r1 * r1) by (nonlinear_arith)
            requires
                0 <= r2 < r1,
        ;
    }
}

/// Every non-negative integer has an integer square root.
pub proof fn lemma_floor_sqrt_exists(n: int)
    requires
        n >= 0,
    ensures
        is_floor_sqrt(n, sqrt_floor(n)),
    decreases n,
{
    if n == 0 {
        assert(is_floor_sqrt(0, 0));
    } else {
        lemma_floor_sqrt_exists(n - 1);
        let r = sqrt_floor(n - 1);
        if (r + 1) * (r + 1) <= n {
            assert(n < (r + 2) * (r + 2)) by (nonlinear_arith)
                requires
                    n - 1 < (r + 1) * (r + 1),
                    r >= 0,
            ;
            assert(is_floor_sqrt(n, r + 1));
        } else {
            assert(is_floor_sqrt(n, r));
        }
    }
}

/// `r` is the integer square root of `n`, rounded up.
pub open spec fn is_ceil_sqrt(n: int, r: int) -> bool {
    0 <= r && n <= r * r && (r == 0 || (r - 1) * (r - 1) < n)
}

pub open spec fn clamp_spec(x: int, lo: int, hi: int) -> int {
    if x < lo {
        lo
    } else if x > hi {
        hi
    } else {
        x
    }
}

/// A position component pushed to the representable range.
pub open spec fn sat_pos(x: int) -> int {
    clamp_spec(x, -POSITION_LIMIT as int, POSITION_LIMIT as int)
}

/// A velocity component pushed to the representable range.
pub open spec fn sat_vel(x: int) -> int {
    clamp_spec(x, -VELOCITY_LIMIT as int, VELOCITY_LIMIT as int)
}

/// Division rounded toward zero, as the machine divides.
pub open spec fn div_trunc(a: int, b: int) -> int
    recommends
        b > 0,
{
    if a >= 0 {
        a / b
    } else {
        -((-a) / b)
    }
}

/// Division rounded away from zero.
pub open spec fn div_away(a: int, b: int) -> int
    recommends
        b > 0,
{
    if a >= 0 {
        (a + b - 1) / b
    } else {
        -((-a + b - 1) / b)
    }
}

/// Division rounded toward negative infinity.
pub open spec fn div_floor(a: int, b: int) -> int
    recommends
        b > 0,
{
    a / b
}

/// Square root of `n`, rounded down.
pub fn floor_sqrt(n: u128) -> (r: u128)
    requires
        n < SQRT_INPUT_LIMIT,
    ensures
        is_floor_sqrt(n as int, r as int),
        r == sqrt_floor(n as int),
        r < SQRT_RESULT_LIMIT,
{
    let mut lo: u128 = 0;
    let mut hi: u128 = SQRT_RESULT_LIMIT;
    assert(hi * hi > n) by (nonlinear_arith)
        requires
            hi == SQRT_RESULT_LIMIT,
            n < SQRT_INPUT_LIMIT,
    ;
    while lo + 1 < hi
        invariant
            lo < hi <= SQRT_RESULT_LIMIT,
            lo * lo <= n,
            n < hi * hi,
        decreases hi - lo,
    {
        let mid: u128 = lo + (hi - lo) / 2;
        assert(mid * mid <= SQRT_INPUT_LIMIT) by (nonlinear_arith)
            requires
                mid <= SQRT_RESULT_LIMIT,
        ;
        if mid * mid <= n {
            lo = mid;
        } else {
            hi = mid;
        }
    }
    proof {
        lemma_floor_sqrt_unique(n as int, lo as int, sqrt_floor(n as int));
    }
    lo
}

/// The integer square root of `n`, rounded up.
pub open spec fn sqrt_ceil(n: int) -> int {
    choose|r: int| is_ceil_sqrt(n, r)
}

pub proof fn lemma_ceil_sqrt_unique(n: int, r1: int, r2: int)
    requires
        is_ceil_sqrt(n, r1),
        is_ceil_sqrt(n, r2),
    ensures
        r1 == r2,
{
    if r1 < r2 {
        assert(r1 * r1 <= (r2 - 1) * (r2 - 1)) by (nonlinear_arith)
            requires
                0 <= r1 <= r2 - 1,
        ;
    } else if r2 < r1 {
        assert(r2 * r2 <= (r1 - 1) * (r1 - 1)) by (nonlinear_arith)
            requires
                0 <= r2 <= r1 - 1,
        ;
    }
}

/// Square root of `n`, rounded up.
pub fn ceil_sqrt(n: u128) -> (r: u128)
    requires
        n < SQRT_INPUT_LIMIT,
    ensures
        is_ceil_sqrt(n as int, r as int),
        r == sqrt_ceil(n as int),
        r <= SQRT_RESULT_LIMIT,
{
    let f = floor_sqrt(n);
    let r = if f * f == n {
        assert(f == 0 || (f - 1) * (f - 1) < f * f) by (nonlinear_arith);
        f
    } else {
        let r = f + 1;
        assert(f * f < n);
        assert(n < r * r);
        assert((r - 1) * (r - 1) < n);
        r
    };
    proof {
        lemma_ceil_sqrt_unique(n as int, r as int, sqrt_ceil(n as int));
    }
    r
}

/// `x` limited to the range `[lo, hi]`.
pub fn clamp_i64(x: i64, lo: i64, hi: i64) -> (r: i64)
    requires
        lo <= hi,
    ensures
        r == clamp_spec(x as int, lo as int, hi as int),
{
    if x < lo {
        lo
    } else if x > hi {
        hi
    } else {
        x
    }
}

/// `x` limited to the range `[lo, hi]`.
pub fn clamp_i128(x: i128, lo: i128, hi: i128) -> (r: i128)
    requires
        lo <= hi,
    ensures
        r == clamp_spec(x as int, lo as int, hi as int),
{
    if x < lo {
        lo
    } else if x > hi {
        hi
    } else {
        x
    }
}

/// A position component from a wide intermediate, saturated.
pub fn saturate_position(x: i128) -> (r: i64)
    ensures
        r == sat_pos(x as int),
{
    clamp_i128(x, -(POSITION_LIMIT as i128), POSITION_LIMIT as i128) as i64
}

/// A velocity component from a wide intermediate, saturated.
pub fn saturate_velocity(x: i128) -> (r: i64)
    ensures
        r == sat_vel(x as int),
{
    clamp_i128(x, -(VELOCITY_LIMIT as i128), VELOCITY_LIMIT as i128) as i64
}

/// `a / b` rounded toward zero.
pub fn div_trunc_i128(a: i128, b: i128) -> (r: i128)
    requires
        b > 0,
        a > i128::MIN,
    ensures
        r == div_trunc(a as int, b as int),
{
    if a >= 0 {
        a / b
    } else {
        -((-a) / b)
    }
}

/// `a / b` rounded toward negative infinity.
pub fn div_floor_i64(a: i64, b: i64) -> (r: i64)
    requires
        b > 0,
        a > i64::MIN,
    ensures
        r == div_floor(a as int, b as int),
{
    if a >= 0 {
        a / b
    } else {
        let q = (-(a as i128) + b as i128 - 1) / (b as i128);
        assert(0 <= q <= -a) by (nonlinear_arith)
            requires
                q == (-a + b - 1) / (b as int),
                a < 0,
                b > 0,
        ;
        proof {
            lemma_floor_of_negative(a as int, b as int);
        }
        -(q as i64)
    }
}

pub proof fn lemma_floor_of_negative(a: int, b: int)
    requires
        a < 0,
        b > 0,
    ensures
        a / b == -((-a + b - 1) / b),
{
    let q = (-a + b - 1) / b;
    let m = (-a + b - 1) % b;
    vstd::arithmetic::div_mod::lemma_fundamental_div_mod(-a + b - 1, b);
    assert(a == (-q) * b + (b - 1 - m)) by (nonlinear_arith)
        requires
            -a + b - 1 == b * q + m,
    ;
    // -a + b - 1 == b * q + m, 0 <= m < b, so a == b * (-q) + (b - 1 - m)
    vstd::arithmetic::div_mod::lemma_fundamental_div_mod_converse(a, b, -q, b - 1 - m);
}

} // verus!
