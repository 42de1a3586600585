//! The Bessel function family over fixed-point complex arguments.
//!
//! `j` evaluates the first-kind function at an integer order from its own
//! factorial-seeded series. `jf` extends it to fixed-point orders, falling
//! back on `j` when the order carries a whole number. `i` evaluates the
//! modified first-kind function. `y` and `k` derive the second-kind
//! functions by a trigonometric reflection at fractional orders and by a
//! centered two-point limit at whole orders. `hankel_first` and
//! `hankel_second` combine `jf` and `y`.
//!
//! The quantities that only a transcendental library can produce — the seed
//! term `(x/2)^n / gamma(n+1)` of a series and the factors `cos(n*pi)` and
//! `sin(n*pi)` of the reflection — enter as plain fixed-point inputs,
//! grouped in the support structs. Everything computed from them is exact in
//! the fixed-point model: each function's contract gives the precise raw
//! integers of its result.

use vstd::prelude::*;

verus! {

use crate::fixed::{
    Fx, SCALE, BOUND, DELTA_RAW, HALF_PI_RAW, abs_i, tdiv, clamp, isqrt_spec, fx_wf, s_is_whole,
    sfx_div, fx_neg, fx_from_units, fx_whole_part, fx_shift_delta, fx_div,
};
use crate::complex::{
    Cx, cval, cx_wf, sadd, ssub, sneg, smul, sdiv_int, sdiv_fx, sscale, smuli, smod,
    cx_one, cadd, csub, cneg, cmul, cdiv_int, cdiv_fx, cscale, cmul_i,
};
use crate::series::{sseries, series_sum, lemma_sseries_wf};

/// Model: the seed of the integer-order series, `(x/2)^p / p!`, built by
/// repeatedly multiplying with the half-argument and dividing by the step.
pub open spec fn sjseed(x2: (int, int), p: int) -> (int, int)
    decreases p,
{
    if p <= 0 {
        (SCALE as int, 0int)
    } else {
        sdiv_int(smul(sjseed(x2, p - 1), x2), p)
    }
}

/// Model: the integer-order first-kind function. The series runs at the
/// order's magnitude; a negative odd order flips the sign.
pub open spec fn sj(x: (int, int), n: int) -> (int, int) {
    let p = abs_i(n);
    let x2 = sdiv_int(x, 2);
    let x2sq = smul(x2, x2);
    let total = sseries(x2sq, clamp(p * SCALE), sjseed(x2, p), true);
    if n < 0 && p % 2 == 1 {
        sneg(total)
    } else {
        total
    }
}

/// Model: the real-order first-kind function. A whole order falls back on
/// the integer-order evaluation and ignores the seed.
pub open spec fn sjf(x: (int, int), n_raw: int, seed: (int, int)) -> (int, int) {
    if s_is_whole(n_raw) {
        sj(x, tdiv(n_raw, SCALE as int))
    } else {
        let x2 = sdiv_int(x, 2);
        sseries(smul(x2, x2), n_raw, seed, true)
    }
}

/// Model: the modified first-kind function, the same series without the
/// alternating sign.
pub open spec fn si(x: (int, int), n_raw: int, seed: (int, int)) -> (int, int) {
    let x2 = sdiv_int(x, 2);
    sseries(smul(x2, x2), n_raw, seed, false)
}

/// The externally supplied ingredients of one reflection evaluation of the
/// second-kind function at one order `n`: the factors `cos(n*pi)` and
/// `sin(n*pi)`, and the series seeds for the orders `n` and `-n`.
#[derive(Clone, Copy)]
pub struct ReflectInputs {
    pub cos_npi: Fx,
    pub sin_npi: Fx,
    pub seed_pos: Cx,
    pub seed_neg: Cx,
}

/// Well-formedness of reflection ingredients.
pub open spec fn ri_wf(ri: ReflectInputs) -> bool {
    fx_wf(ri.cos_npi) && fx_wf(ri.sin_npi) && cx_wf(ri.seed_pos) && cx_wf(ri.seed_neg)
}

/// Ingredients for one call of the second-kind function: one reflection set
/// for a fractional order, and the two sets at the offset orders that the
/// centered limit at a whole order evaluates.
#[derive(Clone, Copy)]
pub struct YSupport {
    pub frac: ReflectInputs,
    pub upper: ReflectInputs,
    pub lower: ReflectInputs,
}

/// Well-formedness of the second-kind support.
pub open spec fn ysup_wf(sup: YSupport) -> bool {
    ri_wf(sup.frac) && ri_wf(sup.upper) && ri_wf(sup.lower)
}

/// The externally supplied ingredients of one reflection evaluation of the
/// modified second-kind function at one order `n`: the factor `sin(n*pi)`
/// and the series seeds for the orders `n` and `-n`.
#[derive(Clone, Copy)]
pub struct KInputs {
    pub sin_npi: Fx,
    pub seed_pos: Cx,
    pub seed_neg: Cx,
}

/// Well-formedness of modified-reflection ingredients.
pub open spec fn ki_wf(ki: KInputs) -> bool {
    fx_wf(ki.sin_npi) && cx_wf(ki.seed_pos) && cx_wf(ki.seed_neg)
}

/// Ingredients for one call of the modified second-kind function.
#[derive(Clone, Copy)]
pub struct KSupport {
    pub frac: KInputs,
    pub upper: KInputs,
    pub lower: KInputs,
}

/// Well-formedness of the modified second-kind support.
pub open spec fn ksup_wf(sup: KSupport) -> bool {
    ki_wf(sup.frac) && ki_wf(sup.upper) && ki_wf(sup.lower)
}

/// Ingredients for one Hankel evaluation: the first-kind seed and the full
/// second-kind support.
#[derive(Clone, Copy)]
pub struct HankelSupport {
    pub j_seed: Cx,
    pub y_sup: YSupport,
}

/// Well-formedness of the Hankel support.
pub open spec fn hsup_wf(sup: HankelSupport) -> bool {
    cx_wf(sup.j_seed) && ysup_wf(sup.y_sup)
}

/// Model: the reflection form of the second-kind function,
/// `(cos(n*pi)*J(x,n) - J(x,-n)) / sin(n*pi)`.
pub open spec fn sy_frac(x: (int, int), n_raw: int, ri: ReflectInputs) -> (int, int) {
    let jp = sjf(x, n_raw, cval(ri.seed_pos));
    let jm = sjf(x, clamp(-n_raw), cval(ri.seed_neg));
    sdiv_fx(ssub(sscale(jp, ri.cos_npi.raw as int), jm), ri.sin_npi.raw as int)
}

/// Model: the second-kind function. A whole order averages the reflection
/// at the two offset orders; any other order reflects directly.
pub open spec fn sy(x: (int, int), n_raw: int, sup: YSupport) -> (int, int) {
    if s_is_whole(n_raw) {
        let hi = sy_frac(x, clamp(n_raw + DELTA_RAW), sup.upper);
        let lo = sy_frac(x, clamp(n_raw - DELTA_RAW), sup.lower);
        sdiv_int(sadd(hi, lo), 2)
    } else {
        sy_frac(x, n_raw, sup.frac)
    }
}

/// Model: the reflection form of the modified second-kind function,
/// `(pi/2 / sin(n*pi)) * (I(x,-n) - I(x,n))`.
pub open spec fn sk_frac(x: (int, int), n_raw: int, ki: KInputs) -> (int, int) {
    let ip = si(x, n_raw, cval(ki.seed_pos));
    let im = si(x, clamp(-n_raw), cval(ki.seed_neg));
    sscale(ssub(im, ip), sfx_div(HALF_PI_RAW as int, ki.sin_npi.raw as int))
}

/// Model: the modified second-kind function, whole orders taking the
/// centered limit as in `sy`.
pub open spec fn sk(x: (int, int), n_raw: int, sup: KSupport) -> (int, int) {
    if s_is_whole(n_raw) {
        let hi = sk_frac(x, clamp(n_raw + DELTA_RAW), sup.upper);
        let lo = sk_frac(x, clamp(n_raw - DELTA_RAW), sup.lower);
        sdiv_int(sadd(hi, lo), 2)
    } else {
        sk_frac(x, n_raw, sup.frac)
    }
}

/// Model: the first Hankel function, `J + i*Y`.
pub open spec fn sh_first(x: (int, int), n_raw: int, sup: HankelSupport) -> (int, int) {
    sadd(sjf(x, n_raw, cval(sup.j_seed)), smuli(sy(x, n_raw, sup.y_sup)))
}

/// Model: the second Hankel function, `J - i*Y`.
pub open spec fn sh_second(x: (int, int), n_raw: int, sup: HankelSupport) -> (int, int) {
    ssub(sjf(x, n_raw, cval(sup.j_seed)), smuli(sy(x, n_raw, sup.y_sup)))
}

/// J Bessel function, integer order.
///
/// Sums the series of terms `sign * (x/2)^(p+2k) / (k! * (p+k)!)` for the
/// order magnitude `p` until the newest term is negligible next to the
/// running sum, then flips the sign for a negative odd order.
pub fn j(x: Cx, n: i32) -> (r: Cx)
    requires
        cx_wf(x),
        n > i32::MIN,
    ensures
        cx_wf(r),
        cval(r) == sj(cval(x), n as int),
{
    let p: i32 = if n < 0 {
        -n
    } else {
        n
    };
    let x2 = cdiv_int(x, 2);
    let x2sq = cmul(x2, x2);
    let mut t = cx_one();
    let mut m: i32 = 0;
    while m < p
        invariant
            0 <= m <= p,
            cx_wf(t),
            cx_wf(x2),
            cval(t) == sjseed(cval(x2), m as int),
        decreases p - m,
    {
        m = m + 1;
        t = cdiv_int(cmul(t, x2), m as i128);
    }
    let order = fx_from_units(p);
    let total = series_sum(x2sq, order, t, true);
    if n < 0 && (p as u32) % 2 == 1 {
        cneg(total)
    } else {
        total
    }
}

/// J Bessel function, fixed-point order.
///
/// An order carrying a whole number falls back on the integer-order
/// evaluation (and the seed goes unused); otherwise the supplied seed
/// `(x/2)^n / gamma(n+1)` starts the gamma-based series.
pub fn jf(x: Cx, order: Fx, seed: Cx) -> (r: Cx)
    requires
        cx_wf(x),
        fx_wf(order),
        cx_wf(seed),
    ensures
        cx_wf(r),
        cval(r) == sjf(cval(x), order.raw as int, cval(seed)),
{
    let whole = fx_whole_part(order);
    if whole.0 {
        j(x, whole.1)
    } else {
        let x2 = cdiv_int(x, 2);
        series_sum(cmul(x2, x2), order, seed, true)
    }
}

/// I modified Bessel function.
///
/// The same series as the real-order J, without the alternating sign; the
/// seed `(x/2)^n / gamma(n+1)` is supplied by the caller.
pub fn i(x: Cx, order: Fx, seed: Cx) -> (r: Cx)
    requires
        cx_wf(x),
        fx_wf(order),
        cx_wf(seed),
    ensures
        cx_wf(r),
        cval(r) == si(cval(x), order.raw as int, cval(seed)),
{
    let x2 = cdiv_int(x, 2);
    series_sum(cmul(x2, x2), order, seed, false)
}

/// The reflection form of Y at one order.
fn y_frac(x: Cx, order: Fx, ri: ReflectInputs) -> (r: Cx)
    requires
        cx_wf(x),
        fx_wf(order),
        ri_wf(ri),
    ensures
        cx_wf(r),
        cval(r) == sy_frac(cval(x), order.raw as int, ri),
{
    let jp = jf(x, order, ri.seed_pos);
    let jm = jf(x, fx_neg(order), ri.seed_neg);
    cdiv_fx(csub(cscale(jp, ri.cos_npi), jm), ri.sin_npi)
}

/// Y Bessel function, fixed-point order.
///
/// A fractional order reflects through `jf` directly; a whole order, where
/// the reflection is singular, averages the reflection at the orders offset
/// by the limit distance on either side.
pub fn y(x: Cx, order: Fx, sup: YSupport) -> (r: Cx)
    requires
        cx_wf(x),
        fx_wf(order),
        ysup_wf(sup),
    ensures
        cx_wf(r),
        cval(r) == sy(cval(x), order.raw as int, sup),
{
    let whole = fx_whole_part(order);
    if whole.0 {
        let hi = y_frac(x, fx_shift_delta(order, true), sup.upper);
        let lo = y_frac(x, fx_shift_delta(order, false), sup.lower);
        cdiv_int(cadd(hi, lo), 2)
    } else {
        y_frac(x, order, sup.frac)
    }
}

/// The reflection form of K at one order.
fn k_frac(x: Cx, order: Fx, ki: KInputs) -> (r: Cx)
    requires
        cx_wf(x),
        fx_wf(order),
        ki_wf(ki),
    ensures
        cx_wf(r),
        cval(r) == sk_frac(cval(x), order.raw as int, ki),
{
    let ipos = i(x, order, ki.seed_pos);
    let ineg = i(x, fx_neg(order), ki.seed_neg);
    let factor = fx_div(Fx { raw: HALF_PI_RAW }, ki.sin_npi);
    cscale(csub(ineg, ipos), factor)
}

/// K modified Bessel function, fixed-point order.
///
/// Mirrors `y`, substituting the modified first-kind series for `jf`.
pub fn k(x: Cx, order: Fx, sup: KSupport) -> (r: Cx)
    requires
        cx_wf(x),
        fx_wf(order),
        ksup_wf(sup),
    ensures
        cx_wf(r),
        cval(r) == sk(cval(x), order.raw as int, sup),
{
    let whole = fx_whole_part(order);
    if whole.0 {
        let hi = k_frac(x, fx_shift_delta(order, true), sup.upper);
        let lo = k_frac(x, fx_shift_delta(order, false), sup.lower);
        cdiv_int(cadd(hi, lo), 2)
    } else {
        k_frac(x, order, sup.frac)
    }
}

/// First Hankel function, `J + i*Y`.
pub fn hankel_first(x: Cx, order: Fx, sup: HankelSupport) -> (r: Cx)
    requires
        cx_wf(x),
        fx_wf(order),
        hsup_wf(sup),
    ensures
        cx_wf(r),
        cval(r) == sh_first(cval(x), order.raw as int, sup),
{
    let jv = jf(x, order, sup.j_seed);
    let yv = y(x, order, sup.y_sup);
    cadd(jv, cmul_i(yv))
}

/// Second Hankel function, `J - i*Y`.
pub fn hankel_second(x: Cx, order: Fx, sup: HankelSupport) -> (r: Cx)
    requires
        cx_wf(x),
        fx_wf(order),
        hsup_wf(sup),
    ensures
        cx_wf(r),
        cval(r) == sh_second(cval(x), order.raw as int, sup),
{
    let jv = jf(x, order, sup.j_seed);
    let yv = y(x, order, sup.y_sup);
    csub(jv, cmul_i(yv))
}

/// Law: reflection identity of the integer-order J. For a non-negative
/// order `n`, the value at `-n` is the value at `n` times `(-1)^n`: equal
/// for even `n`, negated for odd `n`. Both signs run the same series, so
/// the identity is exact.
pub proof fn lemma_j_reflection(x: (int, int), n: int)
    requires
        0 <= n,
    ensures
        sj(x, n) == (if n % 2 == 0 {
            sj(x, -n)
        } else {
            sneg(sj(x, -n))
        }),
{
    let p = abs_i(n);
    let x2 = sdiv_int(x, 2);
    let total = sseries(smul(x2, x2), clamp(p * SCALE), sjseed(x2, p), true);
    lemma_sseries_wf(smul(x2, x2), clamp(p * SCALE), sjseed(x2, p), true);
    assert(abs_i(-n) == p);
    assert(sj(x, n) == total);
    if n % 2 == 0 {
        assert(sj(x, -n) == total);
    } else {
        assert(sj(x, -n) == sneg(total));
        assert(sneg(sneg(total)) == total);
    }
}

/// Law: on a whole order the real-order J agrees with the integer-order J
/// exactly, whatever seed is supplied — the two code paths coincide.
pub proof fn lemma_jf_whole_order(x: (int, int), n_raw: int, seed: (int, int))
    requires
        s_is_whole(n_raw),
    ensures
        sjf(x, n_raw, seed) == sj(x, tdiv(n_raw, SCALE as int)),
{
}

/// The seed of the integer-order series vanishes at the origin for every
/// positive order.
proof fn lemma_jseed_origin(p: int)
    requires
        p >= 1,
    ensures
        sjseed((0int, 0int), p) == (0int, 0int),
    decreases p,
{
    if p > 1 {
        lemma_jseed_origin(p - 1);
    }
}

/// Law: degeneracy at the origin. At order zero the series' first term is
/// the unit and every later term vanishes, so `j` returns exactly one; at
/// any other order the first term already vanishes, so `j` returns exactly
/// zero.
pub proof fn lemma_j_origin(n: int)
    ensures
        sj((0int, 0int), 0) == (SCALE as int, 0int),
        n != 0 ==> sj((0int, 0int), n) == (0int, 0int),
{
    let z = (0int, 0int);
    let one = (SCALE as int, 0int);
    assert(sdiv_int(z, 2) == z);
    assert(smul(z, z) == z);
    // Order zero: the seed is the unit and the loop adds it once.
    assert(sjseed(z, 0) == one);
    assert(smod(one) == SCALE as int) by {
        lemma_isqrt_unique_square();
    }
    assert(smod(z) == 0) by {
        assert(isqrt_spec(0) == 0);
    }
    reveal_with_fuel(crate::series::sseries_loop, 3);
    assert(sseries(z, clamp(0 * SCALE), one, true) == one);
    assert(sj(z, 0) == one);
    // Any other order: the seed vanishes, and with it the whole series.
    if n != 0 {
        let p = abs_i(n);
        lemma_jseed_origin(p);
        assert(sseries(z, clamp(p * SCALE), z, true) == z);
        assert(sneg(z) == z);
        assert(sj(z, n) == z);
    }
}

/// The integer square root of the squared unit is the unit itself.
proof fn lemma_isqrt_unique_square()
    ensures
        isqrt_spec((SCALE as int) * (SCALE as int)) == SCALE as int,
{
    crate::fixed::lemma_isqrt_unique((SCALE as int) * (SCALE as int), SCALE as int);
}

/// Whether both components sit within half the representable range, so a
/// doubling cannot saturate.
pub open spec fn in_half(a: (int, int)) -> bool {
    2 * abs_i(a.0) <= BOUND && 2 * abs_i(a.1) <= BOUND
}

/// Law: Hankel decomposition. Whenever neither combination saturates, the
/// two Hankel values recombine exactly: their sum is twice the first-kind
/// value and their difference twice the imaginary-rotated second-kind
/// value — both built from the very same underlying evaluations.
pub proof fn lemma_hankel_decomposition(x: (int, int), n_raw: int, sup: HankelSupport)
    requires
        in_half(sjf(x, n_raw, cval(sup.j_seed))),
        in_half(smuli(sy(x, n_raw, sup.y_sup))),
    ensures
        sadd(sh_first(x, n_raw, sup), sh_second(x, n_raw, sup)) == sadd(
            sjf(x, n_raw, cval(sup.j_seed)),
            sjf(x, n_raw, cval(sup.j_seed)),
        ),
        ssub(sh_first(x, n_raw, sup), sh_second(x, n_raw, sup)) == sadd(
            smuli(sy(x, n_raw, sup.y_sup)),
            smuli(sy(x, n_raw, sup.y_sup)),
        ),
{
    let a = sjf(x, n_raw, cval(sup.j_seed));
    let w = smuli(sy(x, n_raw, sup.y_sup));
    assert(sh_first(x, n_raw, sup) == sadd(a, w));
    assert(sh_second(x, n_raw, sup) == ssub(a, w));
}

} // verus!
