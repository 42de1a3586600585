//! Binary fixed-point scalars.
//!
//! A real quantity `v` is carried as the integer `raw`, standing for
//! `v == raw / SCALE` with `SCALE = 2^36`. Every operation clamps its result
//! into the symmetric range `[-BOUND, BOUND]`, so the arithmetic is total and
//! each function's contract states the exact integer its result holds.

use vstd::prelude::*;

verus! {

use vstd::arithmetic::div_mod::{
    lemma_div_nonincreasing,
    lemma_div_is_ordered,
    lemma_div_decreases,
    lemma_fundamental_div_mod,
    lemma_div_pos_is_pos,
};

/// One unit: the raw integer standing for the real value `1` (2^36).
pub const SCALE: i128 = 68719476736;

/// Largest raw magnitude a scalar may carry (2^62).
pub const BOUND: i128 = 4611686018427387904;

/// The series convergence tolerance `1e-8`, quantized to raw units.
pub const TOL_RAW: i128 = 687;

/// The limit offset `0.001` used near integer orders, quantized to raw units.
pub const DELTA_RAW: i128 = 68719477;

/// `pi / 2`, quantized to raw units.
pub const HALF_PI_RAW: i128 = 107944301636;

/// Cap on series iterations; keeps the summation loop well founded.
pub const MAX_STEPS: u64 = 1048576;

/// Magnitude of an integer.
pub open spec fn abs_i(a: int) -> int {
    if a >= 0 {
        a
    } else {
        -a
    }
}

/// Division truncated toward zero, the rounding the executable code uses.
pub open spec fn tdiv(a: int, b: int) -> int
    recommends
        b != 0,
{
    if (a >= 0) == (b >= 0) {
        abs_i(a) / abs_i(b)
    } else {
        -(abs_i(a) / abs_i(b))
    }
}

/// Saturation of an out-of-range value to the representable range.
pub open spec fn clamp(v: int) -> int {
    if v > BOUND {
        BOUND as int
    } else if v < -BOUND {
        -(BOUND as int)
    } else {
        v
    }
}

/// Whether a raw value lies in the representable range.
pub open spec fn in_range(v: int) -> bool {
    -BOUND <= v <= BOUND
}

/// The saturated stand-in used when a divisor vanishes: the largest
/// representable magnitude, carrying the numerator's sign.
pub open spec fn satv(v: int) -> int {
    if v >= 0 {
        BOUND as int
    } else {
        -(BOUND as int)
    }
}

/// Integer square root, rounded down; defined by halving the argument's
/// digits, which is also how the executable code computes it.
pub open spec fn isqrt_spec(n: int) -> int
    recommends
        n >= 0,
    decreases n,
{
    if n <= 0 {
        0
    } else {
        let h = isqrt_spec(n / 4);
        if (2 * h + 1) * (2 * h + 1) <= n {
            2 * h + 1
        } else {
            2 * h
        }
    }
}

/// `isqrt_spec(n)` is the integer square root: its square is at most `n`,
/// and the next square is past `n`.
pub proof fn lemma_isqrt_bounds(n: int)
    requires
        n >= 0,
    ensures
        0 <= isqrt_spec(n),
        isqrt_spec(n) * isqrt_spec(n) <= n,
        n < (isqrt_spec(n) + 1) * (isqrt_spec(n) + 1),
    decreases n,
{
    if n == 0 {
    } else {
        lemma_isqrt_bounds(n / 4);
        let h = isqrt_spec(n / 4);
        lemma_fundamental_div_mod(n, 4);
        assert(4 * (n / 4) <= n && n <= 4 * (n / 4) + 3);
        assert(4 * (h * h) <= 4 * (n / 4)) by (nonlinear_arith)
            requires
                h * h <= n / 4,
        ;
        assert((2 * h) * (2 * h) == 4 * (h * h)) by (nonlinear_arith);
        assert(4 * (n / 4) + 3 < 4 * ((h + 1) * (h + 1))) by (nonlinear_arith)
            requires
                n / 4 < (h + 1) * (h + 1),
        ;
        assert((2 * h + 2) * (2 * h + 2) == 4 * ((h + 1) * (h + 1))) by (nonlinear_arith);
        if (2 * h + 1) * (2 * h + 1) <= n {
            assert(isqrt_spec(n) == 2 * h + 1);
        } else {
            assert(isqrt_spec(n) == 2 * h);
        }
    }
}

/// The integer square root is the only value between the two squares.
pub proof fn lemma_isqrt_unique(n: int, r: int)
    requires
        n >= 0,
        r >= 0,
        r * r <= n,
        n < (r + 1) * (r + 1),
    ensures
        isqrt_spec(n) == r,
{
    let s = isqrt_spec(n);
    lemma_isqrt_bounds(n);
    if s < r {
        assert((s + 1) * (s + 1) <= r * r) by (nonlinear_arith)
            requires
                0 <= s + 1 <= r,
        ;
        assert(false);
    } else if r < s {
        assert((r + 1) * (r + 1) <= s * s) by (nonlinear_arith)
            requires
                0 <= r + 1 <= s,
        ;
        assert(false);
    }
}

/// Truncated division moves a value no further from zero.
pub proof fn lemma_tdiv_bound(a: int, b: int)
    requires
        b != 0,
    ensures
        abs_i(tdiv(a, b)) <= abs_i(a),
        b >= 1 ==> abs_i(tdiv(a, b)) * b <= abs_i(a),
{
    lemma_div_pos_is_pos(abs_i(a), abs_i(b));
    lemma_div_nonincreasing(abs_i(a), abs_i(b));
    if b >= 1 {
        lemma_fundamental_div_mod(abs_i(a), b);
        assert((abs_i(a) / b) * b <= abs_i(a));
    }
}

/// Integer square root, digit-halving method.
pub fn isqrt_u128(n: u128) -> (r: u128)
    ensures
        r as int == isqrt_spec(n as int),
    decreases n,
{
    if n == 0 {
        0
    } else {
        proof {
            lemma_div_decreases(n as int, 4);
        }
        let h = isqrt_u128(n / 4);
        proof {
            lemma_isqrt_bounds(n as int / 4);
            lemma_div_is_ordered(n as int, u128::MAX as int, 4);
            assert(h < 0x8000000000000000u128) by (nonlinear_arith)
                requires
                    (h as int) * (h as int) <= n as int / 4,
                    n as int / 4 < (0x8000000000000000int * 0x8000000000000000int),
                    h >= 0,
            ;
        }
        let c: u128 = 2 * h + 1;
        proof {
            assert((c as int) * (c as int) <= (0xffffffffffffffffint * 0xffffffffffffffffint))
                by (nonlinear_arith)
                requires
                    0 < (c as int) <= 0xffffffffffffffffint,
            ;
        }
        let cc: u128 = c * c;
        if cc <= n {
            c
        } else {
            2 * h
        }
    }
}

/// Division truncated toward zero, computed on magnitudes.
pub fn div_trunc(a: i128, b: i128) -> (q: i128)
    requires
        b != 0,
        a != i128::MIN,
        b != i128::MIN,
    ensures
        q as int == tdiv(a as int, b as int),
{
    let ua: u128 = if a < 0 {
        (-a) as u128
    } else {
        a as u128
    };
    let ub: u128 = if b < 0 {
        (-b) as u128
    } else {
        b as u128
    };
    let uq: u128 = ua / ub;
    proof {
        assert(ua as int == abs_i(a as int));
        assert(ub as int == abs_i(b as int));
        lemma_div_nonincreasing(ua as int, ub as int);
        lemma_div_pos_is_pos(ua as int, ub as int);
    }
    let qi = uq as i128;
    if (a < 0) != (b < 0) {
        -qi
    } else {
        qi
    }
}

/// Saturation into the representable range.
pub fn clamp_i(v: i128) -> (r: i128)
    ensures
        r as int == clamp(v as int),
        in_range(r as int),
{
    if v > BOUND {
        BOUND
    } else if v < -BOUND {
        -BOUND
    } else {
        v
    }
}

/// Saturated stand-in for a division whose divisor vanished.
pub fn sat_i(v: i128) -> (r: i128)
    ensures
        r as int == satv(v as int),
        in_range(r as int),
{
    if v >= 0 {
        BOUND
    } else {
        -BOUND
    }
}

/// Product of two in-range raws; never overflows the carrier.
pub fn mul_in_range(a: i128, b: i128) -> (r: i128)
    requires
        in_range(a as int),
        in_range(b as int),
    ensures
        r as int == (a as int) * (b as int),
        abs_i(r as int) <= (BOUND as int) * (BOUND as int),
{
    proof {
        assert(abs_i((a as int) * (b as int)) <= (BOUND as int) * (BOUND as int))
            by (nonlinear_arith)
            requires
                -BOUND <= (a as int) <= BOUND,
                -BOUND <= (b as int) <= BOUND,
        ;
    }
    a * b
}

/// A fixed-point scalar: the real value `raw / SCALE`.
#[derive(Clone, Copy, PartialEq, Eq, Structural, Debug)]
pub struct Fx {
    pub raw: i128,
}

/// Well-formedness: the raw value lies in the representable range.
pub open spec fn fx_wf(f: Fx) -> bool {
    in_range(f.raw as int)
}

/// Builds a scalar from a raw integer, saturating into range.
pub fn fx_new(raw: i128) -> (r: Fx)
    ensures
        r.raw as int == clamp(raw as int),
        fx_wf(r),
{
    Fx { raw: clamp_i(raw) }
}

/// Negation; exact on well-formed values since the range is symmetric.
pub fn fx_neg(f: Fx) -> (r: Fx)
    requires
        fx_wf(f),
    ensures
        r.raw as int == clamp(-(f.raw as int)),
        fx_wf(r),
{
    Fx { raw: clamp_i(-f.raw) }
}

/// The order shifted by a whole number of units: the raw for `f + k`.
pub fn fx_shift_units(f: Fx, k: u64) -> (r: Fx)
    requires
        fx_wf(f),
        k <= MAX_STEPS,
    ensures
        r.raw as int == clamp(f.raw as int + k as int * SCALE as int),
        fx_wf(r),
{
    Fx { raw: clamp_i(f.raw + (k as i128) * SCALE) }
}

/// The order shifted by the limit offset: the raw for `f + 0.001` or
/// `f - 0.001`.
pub fn fx_shift_delta(f: Fx, up: bool) -> (r: Fx)
    requires
        fx_wf(f),
    ensures
        up ==> r.raw as int == clamp(f.raw as int + DELTA_RAW as int),
        !up ==> r.raw as int == clamp(f.raw as int - DELTA_RAW as int),
        fx_wf(r),
{
    if up {
        Fx { raw: clamp_i(f.raw + DELTA_RAW) }
    } else {
        Fx { raw: clamp_i(f.raw - DELTA_RAW) }
    }
}

/// Scalar quotient in the fixed-point model.
pub open spec fn sfx_div(a: int, b: int) -> int {
    if b == 0 {
        satv(a)
    } else {
        clamp(tdiv(a * SCALE, b))
    }
}

/// Scalar division; a vanished divisor saturates.
pub fn fx_div(a: Fx, b: Fx) -> (r: Fx)
    requires
        fx_wf(a),
        fx_wf(b),
    ensures
        r.raw as int == sfx_div(a.raw as int, b.raw as int),
        fx_wf(r),
{
    if b.raw == 0 {
        Fx { raw: sat_i(a.raw) }
    } else {
        let num = mul_in_range(a.raw, SCALE);
        Fx { raw: clamp_i(div_trunc(num, b.raw)) }
    }
}

/// A scalar holding a whole number of units.
pub fn fx_from_units(p: i32) -> (r: Fx)
    ensures
        r.raw as int == clamp(p as int * SCALE as int),
        fx_wf(r),
{
    Fx { raw: clamp_i((p as i128) * SCALE) }
}

/// Whether the order is a whole number of units.
pub open spec fn s_is_whole(raw: int) -> bool {
    tdiv(raw, SCALE as int) * SCALE == raw
}

/// Tests whether a scalar carries a whole number, and hands back that number.
pub fn fx_whole_part(f: Fx) -> (r: (bool, i32))
    requires
        fx_wf(f),
    ensures
        r.0 == s_is_whole(f.raw as int),
        r.0 ==> r.1 as int == tdiv(f.raw as int, SCALE as int),
        r.0 ==> -67108864 <= r.1 as int <= 67108864,
{
    let q = div_trunc(f.raw, SCALE);
    proof {
        lemma_tdiv_bound(f.raw as int, SCALE as int);
        lemma_div_is_ordered(abs_i(f.raw as int), BOUND as int, SCALE as int);
        assert(abs_i(q as int) <= (BOUND as int) / (SCALE as int));
    }
    let prod = q * SCALE;
    if prod == f.raw {
        (true, q as i32)
    } else {
        (false, 0)
    }
}

} // verus!
