//! Fixed-point complex values and their arithmetic.
//!
//! A complex value carries two fixed-point scalars. Each operation's
//! contract gives the exact raw integers of its result through the
//! corresponding model function over integer pairs.

use vstd::prelude::*;

verus! {

use crate::fixed::{
    Fx, SCALE, BOUND, tdiv, clamp, in_range, satv, isqrt_spec, fx_wf, clamp_i, sat_i,
    div_trunc, mul_in_range, isqrt_u128, lemma_isqrt_bounds,
};
use vstd::arithmetic::div_mod::lemma_div_pos_is_pos;

/// A fixed-point complex value.
#[derive(Clone, Copy, PartialEq, Eq, Structural, Debug)]
pub struct Cx {
    pub re: Fx,
    pub im: Fx,
}

/// The integer pair a complex value carries.
pub open spec fn cval(c: Cx) -> (int, int) {
    (c.re.raw as int, c.im.raw as int)
}

/// Well-formedness: both components lie in the representable range.
pub open spec fn cx_wf(c: Cx) -> bool {
    fx_wf(c.re) && fx_wf(c.im)
}

/// Well-formedness of a model pair.
pub open spec fn swf(a: (int, int)) -> bool {
    in_range(a.0) && in_range(a.1)
}

/// Model: componentwise sum, saturated.
pub open spec fn sadd(a: (int, int), b: (int, int)) -> (int, int) {
    (clamp(a.0 + b.0), clamp(a.1 + b.1))
}

/// Model: componentwise difference, saturated.
pub open spec fn ssub(a: (int, int), b: (int, int)) -> (int, int) {
    (clamp(a.0 - b.0), clamp(a.1 - b.1))
}

/// Model: negation, saturated.
pub open spec fn sneg(a: (int, int)) -> (int, int) {
    (clamp(-a.0), clamp(-a.1))
}

/// Model: complex product, each component rescaled and saturated.
pub open spec fn smul(a: (int, int), b: (int, int)) -> (int, int) {
    (
        clamp(tdiv(a.0 * b.0 - a.1 * b.1, SCALE as int)),
        clamp(tdiv(a.0 * b.1 + a.1 * b.0, SCALE as int)),
    )
}

/// Model: quotient by a positive integer, componentwise.
pub open spec fn sdiv_int(a: (int, int), m: int) -> (int, int)
    recommends
        m >= 1,
{
    (clamp(tdiv(a.0, m)), clamp(tdiv(a.1, m)))
}

/// Model: quotient by a fixed-point scalar; a vanished divisor saturates.
pub open spec fn sdiv_fx(a: (int, int), f: int) -> (int, int) {
    if f == 0 {
        (satv(a.0), satv(a.1))
    } else {
        (clamp(tdiv(a.0 * SCALE, f)), clamp(tdiv(a.1 * SCALE, f)))
    }
}

/// Model: product with a fixed-point scalar, componentwise.
pub open spec fn sscale(a: (int, int), f: int) -> (int, int) {
    (clamp(tdiv(a.0 * f, SCALE as int)), clamp(tdiv(a.1 * f, SCALE as int)))
}

/// Model: product with the imaginary unit.
pub open spec fn smuli(a: (int, int)) -> (int, int) {
    (clamp(-a.1), clamp(a.0))
}

/// Model: complex quotient. The divisor's squared modulus is rescaled
/// first; when it truncates to nothing the quotient saturates.
pub open spec fn sdiv(a: (int, int), b: (int, int)) -> (int, int) {
    let d = tdiv(b.0 * b.0 + b.1 * b.1, SCALE as int);
    let nre = a.0 * b.0 + a.1 * b.1;
    let nim = a.1 * b.0 - a.0 * b.1;
    if d == 0 {
        (satv(nre), satv(nim))
    } else {
        (clamp(tdiv(nre, d)), clamp(tdiv(nim, d)))
    }
}

/// Model: the raw modulus, the integer square root of the summed squares.
pub open spec fn smod(a: (int, int)) -> int {
    isqrt_spec(a.0 * a.0 + a.1 * a.1)
}

/// Builds a complex value from raw components, saturating into range.
pub fn cx_new(re_raw: i128, im_raw: i128) -> (r: Cx)
    ensures
        cx_wf(r),
        cval(r) == (clamp(re_raw as int), clamp(im_raw as int)),
{
    Cx { re: Fx { raw: clamp_i(re_raw) }, im: Fx { raw: clamp_i(im_raw) } }
}

/// The additive identity.
pub fn cx_zero() -> (r: Cx)
    ensures
        cx_wf(r),
        cval(r) == (0int, 0int),
{
    Cx { re: Fx { raw: 0 }, im: Fx { raw: 0 } }
}

/// The multiplicative identity.
pub fn cx_one() -> (r: Cx)
    ensures
        cx_wf(r),
        cval(r) == (SCALE as int, 0int),
{
    Cx { re: Fx { raw: SCALE }, im: Fx { raw: 0 } }
}

/// Sum.
pub fn cadd(a: Cx, b: Cx) -> (r: Cx)
    requires
        cx_wf(a),
        cx_wf(b),
    ensures
        cx_wf(r),
        cval(r) == sadd(cval(a), cval(b)),
{
    Cx {
        re: Fx { raw: clamp_i(a.re.raw + b.re.raw) },
        im: Fx { raw: clamp_i(a.im.raw + b.im.raw) },
    }
}

/// Difference.
pub fn csub(a: Cx, b: Cx) -> (r: Cx)
    requires
        cx_wf(a),
        cx_wf(b),
    ensures
        cx_wf(r),
        cval(r) == ssub(cval(a), cval(b)),
{
    Cx {
        re: Fx { raw: clamp_i(a.re.raw - b.re.raw) },
        im: Fx { raw: clamp_i(a.im.raw - b.im.raw) },
    }
}

/// Negation.
pub fn cneg(a: Cx) -> (r: Cx)
    requires
        cx_wf(a),
    ensures
        cx_wf(r),
        cval(r) == sneg(cval(a)),
{
    Cx { re: Fx { raw: clamp_i(-a.re.raw) }, im: Fx { raw: clamp_i(-a.im.raw) } }
}

/// Complex product.
pub fn cmul(a: Cx, b: Cx) -> (r: Cx)
    requires
        cx_wf(a),
        cx_wf(b),
    ensures
        cx_wf(r),
        cval(r) == smul(cval(a), cval(b)),
{
    let rr = mul_in_range(a.re.raw, b.re.raw);
    let ii = mul_in_range(a.im.raw, b.im.raw);
    let ri = mul_in_range(a.re.raw, b.im.raw);
    let ir = mul_in_range(a.im.raw, b.re.raw);
    Cx {
        re: Fx { raw: clamp_i(div_trunc(rr - ii, SCALE)) },
        im: Fx { raw: clamp_i(div_trunc(ri + ir, SCALE)) },
    }
}

/// Quotient by a positive integer.
pub fn cdiv_int(a: Cx, m: i128) -> (r: Cx)
    requires
        cx_wf(a),
        1 <= m,
    ensures
        cx_wf(r),
        cval(r) == sdiv_int(cval(a), m as int),
{
    Cx {
        re: Fx { raw: clamp_i(div_trunc(a.re.raw, m)) },
        im: Fx { raw: clamp_i(div_trunc(a.im.raw, m)) },
    }
}

/// Quotient by a fixed-point scalar.
pub fn cdiv_fx(a: Cx, f: Fx) -> (r: Cx)
    requires
        cx_wf(a),
        fx_wf(f),
    ensures
        cx_wf(r),
        cval(r) == sdiv_fx(cval(a), f.raw as int),
{
    if f.raw == 0 {
        Cx { re: Fx { raw: sat_i(a.re.raw) }, im: Fx { raw: sat_i(a.im.raw) } }
    } else {
        let nre = mul_in_range(a.re.raw, SCALE);
        let nim = mul_in_range(a.im.raw, SCALE);
        Cx {
            re: Fx { raw: clamp_i(div_trunc(nre, f.raw)) },
            im: Fx { raw: clamp_i(div_trunc(nim, f.raw)) },
        }
    }
}

/// Product with a fixed-point scalar.
pub fn cscale(a: Cx, f: Fx) -> (r: Cx)
    requires
        cx_wf(a),
        fx_wf(f),
    ensures
        cx_wf(r),
        cval(r) == sscale(cval(a), f.raw as int),
{
    let nre = mul_in_range(a.re.raw, f.raw);
    let nim = mul_in_range(a.im.raw, f.raw);
    Cx {
        re: Fx { raw: clamp_i(div_trunc(nre, SCALE)) },
        im: Fx { raw: clamp_i(div_trunc(nim, SCALE)) },
    }
}

/// Product with the imaginary unit.
pub fn cmul_i(a: Cx) -> (r: Cx)
    requires
        cx_wf(a),
    ensures
        cx_wf(r),
        cval(r) == smuli(cval(a)),
{
    Cx { re: Fx { raw: clamp_i(-a.im.raw) }, im: Fx { raw: clamp_i(a.re.raw) } }
}

/// Complex quotient.
pub fn cdiv(a: Cx, b: Cx) -> (r: Cx)
    requires
        cx_wf(a),
        cx_wf(b),
    ensures
        cx_wf(r),
        cval(r) == sdiv(cval(a), cval(b)),
{
    let brr = mul_in_range(b.re.raw, b.re.raw);
    let bii = mul_in_range(b.im.raw, b.im.raw);
    proof {
        assert(brr >= 0 && bii >= 0) by (nonlinear_arith)
            requires
                brr as int == (b.re.raw as int) * (b.re.raw as int),
                bii as int == (b.im.raw as int) * (b.im.raw as int),
        ;
    }
    let d = div_trunc(brr + bii, SCALE);
    let nre = mul_in_range(a.re.raw, b.re.raw) + mul_in_range(a.im.raw, b.im.raw);
    let nim = mul_in_range(a.im.raw, b.re.raw) - mul_in_range(a.re.raw, b.im.raw);
    if d == 0 {
        Cx { re: Fx { raw: sat_i(nre) }, im: Fx { raw: sat_i(nim) } }
    } else {
        proof {
            lemma_div_pos_is_pos((brr + bii) as int, SCALE as int);
        }
        Cx {
            re: Fx { raw: clamp_i(div_trunc(nre, d)) },
            im: Fx { raw: clamp_i(div_trunc(nim, d)) },
        }
    }
}

/// The raw modulus: the integer square root of the summed squared raws.
pub fn modulus_raw(c: Cx) -> (r: i128)
    requires
        cx_wf(c),
    ensures
        r as int == smod(cval(c)),
        0 <= r,
{
    let a = mul_in_range(c.re.raw, c.re.raw);
    let b = mul_in_range(c.im.raw, c.im.raw);
    proof {
        assert(a >= 0 && b >= 0) by (nonlinear_arith)
            requires
                a as int == (c.re.raw as int) * (c.re.raw as int),
                b as int == (c.im.raw as int) * (c.im.raw as int),
        ;
    }
    let s: i128 = a + b;
    let u = isqrt_u128(s as u128);
    proof {
        lemma_isqrt_bounds(s as int);
        assert((u as int) <= 0x8000000000000000int) by (nonlinear_arith)
            requires
                (u as int) * (u as int) <= s as int,
                (s as int) < (0x8000000000000000int * 0x8000000000000000int),
                u >= 0,
        ;
    }
    u as i128
}

} // verus!
