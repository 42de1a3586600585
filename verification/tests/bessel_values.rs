//! Numerical checks of the Bessel engine against tabulated values.
//!
//! The helpers quantize ordinary floating-point inputs into the library's
//! fixed-point carriers, build the transcendental support values (series
//! seeds and trigonometric reflection factors) with `libm`, and read the
//! fixed-point results back as floats.

use bessel::fixed::{DELTA_RAW, SCALE};
use bessel::{Cx, Fx, HankelSupport, KInputs, KSupport, ReflectInputs, YSupport};

const S: f64 = 68719476736.0;
const PI: f64 = std::f64::consts::PI;

fn fx(v: f64) -> Fx {
    Fx { raw: (v * S).round() as i128 }
}

fn c(re: f64, im: f64) -> Cx {
    Cx { re: fx(re), im: fx(im) }
}

fn fv(f: Fx) -> f64 {
    f.raw as f64 / S
}

/// Principal-branch complex power `(re + im*i)^n` for a real exponent.
fn cpow(re: f64, im: f64, n: f64) -> (f64, f64) {
    if re == 0.0 && im == 0.0 {
        if n == 0.0 {
            return (1.0, 0.0);
        }
        return (0.0, 0.0);
    }
    let r = libm::sqrt(re * re + im * im);
    let th = libm::atan2(im, re);
    let m = libm::pow(r, n);
    let a = n * th;
    (m * libm::cos(a), m * libm::sin(a))
}

/// The series seed `(x/2)^n / gamma(n+1)`.
fn seed(re: f64, im: f64, n: f64) -> Cx {
    let (pr, pi) = cpow(re / 2.0, im / 2.0, n);
    let g = libm::tgamma(n + 1.0);
    c(pr / g, pi / g)
}

/// The reflection ingredients of Y at one order.
fn reflect(re: f64, im: f64, n: f64) -> ReflectInputs {
    ReflectInputs {
        cos_npi: fx(libm::cos(n * PI)),
        sin_npi: fx(libm::sin(n * PI)),
        seed_pos: seed(re, im, n),
        seed_neg: seed(re, im, -n),
    }
}

/// The full support of one Y evaluation at the quantized order `nf`.
fn ysup(re: f64, im: f64, nf: Fx) -> YSupport {
    let up = Fx { raw: nf.raw + DELTA_RAW };
    let lo = Fx { raw: nf.raw - DELTA_RAW };
    YSupport {
        frac: reflect(re, im, fv(nf)),
        upper: reflect(re, im, fv(up)),
        lower: reflect(re, im, fv(lo)),
    }
}

/// The reflection ingredients of K at one order.
fn kinputs(re: f64, im: f64, n: f64) -> KInputs {
    KInputs {
        sin_npi: fx(libm::sin(n * PI)),
        seed_pos: seed(re, im, n),
        seed_neg: seed(re, im, -n),
    }
}

/// The full support of one K evaluation at the quantized order `nf`.
fn ksup(re: f64, im: f64, nf: Fx) -> KSupport {
    let up = Fx { raw: nf.raw + DELTA_RAW };
    let lo = Fx { raw: nf.raw - DELTA_RAW };
    KSupport {
        frac: kinputs(re, im, fv(nf)),
        upper: kinputs(re, im, fv(up)),
        lower: kinputs(re, im, fv(lo)),
    }
}

/// The full support of one Hankel evaluation.
fn hsup(re: f64, im: f64, nf: Fx) -> HankelSupport {
    HankelSupport { j_seed: seed(re, im, fv(nf)), y_sup: ysup(re, im, nf) }
}

fn close(a: f64, b: f64, tol: f64) -> bool {
    (a - b).abs() < tol
}

#[test]
fn j_at_origin_is_degenerate() {
    let one = bessel::j(c(0.0, 0.0), 0);
    assert_eq!(one.re.raw, SCALE);
    assert_eq!(one.im.raw, 0);
    let z1 = bessel::j(c(0.0, 0.0), 1);
    assert_eq!(z1.re.raw, 0);
    assert_eq!(z1.im.raw, 0);
    let z2 = bessel::j(c(0.0, 0.0), 7);
    assert_eq!(z2.re.raw, 0);
    assert_eq!(z2.im.raw, 0);
    let z3 = bessel::j(c(0.0, 0.0), -2);
    assert_eq!(z3.re.raw, 0);
    assert_eq!(z3.im.raw, 0);
}

#[test]
fn j_unit_argument_low_orders() {
    let r0 = bessel::j(c(1.0, 0.0), 0);
    assert!(close(fv(r0.re), 0.7651976865, 1.0e-6));
    assert!(fv(r0.im).abs() < 1.0e-8);
    let r1 = bessel::j(c(1.0, 0.0), 1);
    assert!(close(fv(r1.re), 0.44005058, 1.0e-6));
    let r2 = bessel::j(c(1.0, 0.0), 2);
    assert!(close(fv(r2.re), 0.11490348, 1.0e-6));
}

#[test]
fn j_larger_argument_and_order() {
    let r = bessel::j(c(5.2, 0.0), 7);
    assert!(close(fv(r.re), 0.06544728, 1.0e-6));
}

#[test]
fn j_reflection_is_exact() {
    let pos1 = bessel::j(c(3.2, 0.0), 3);
    let neg1 = bessel::j(c(3.2, 0.0), -3);
    assert_eq!(pos1.re.raw, -neg1.re.raw);
    assert_eq!(pos1.im.raw, -neg1.im.raw);
    let pos2 = bessel::j(c(2.45, 0.0), 6);
    let neg2 = bessel::j(c(2.45, 0.0), -6);
    assert_eq!(pos2.re.raw, neg2.re.raw);
    assert_eq!(pos2.im.raw, neg2.im.raw);
}

#[test]
fn jf_fractional_orders() {
    let n1 = fx(2.5);
    let r1 = bessel::jf(c(1.0, 0.0), n1, seed(1.0, 0.0, fv(n1)));
    assert!(close(fv(r1.re), 0.04949681, 1.0e-4));
    let n2 = fx(-1.75);
    let r2 = bessel::jf(c(2.4, 0.0), n2, seed(2.4, 0.0, fv(n2)));
    assert!(close(fv(r2.re), 0.11990699, 1.0e-4));
}

#[test]
fn jf_whole_order_falls_back_on_j() {
    let via_j = bessel::j(c(0.75, 0.0), 2);
    let via_jf = bessel::jf(c(0.75, 0.0), fx(2.0), c(123.0, -4.0));
    assert_eq!(via_j.re.raw, via_jf.re.raw);
    assert_eq!(via_j.im.raw, via_jf.im.raw);
    let cx = c(1.0, 2.5);
    let ci = bessel::j(cx, 2);
    let cf = bessel::jf(cx, fx(2.0), c(0.0, 0.0));
    assert_eq!(ci.re.raw, cf.re.raw);
    assert_eq!(ci.im.raw, cf.im.raw);
}

#[test]
fn jf_general_series_agrees_with_integer_path() {
    // An order a hair off the whole number takes the gamma-based series;
    // it must agree with the factorial-based integer path within the
    // series truncation tolerance.
    let n = Fx { raw: 2 * SCALE + 1000 };
    let general = bessel::jf(c(0.75, 0.0), n, seed(0.75, 0.0, fv(n)));
    let integer = bessel::j(c(0.75, 0.0), 2);
    assert!(close(fv(general.re), fv(integer.re), 1.0e-4));
    assert!(close(fv(general.im), fv(integer.im), 1.0e-4));
}

#[test]
fn jf_complex_arguments() {
    let n = fx(1.5);
    let r = bessel::jf(c(1.2, 0.5), n, seed(1.2, 0.5, fv(n)));
    assert!(close(fv(r.re), 0.3124202913, 1.0e-5));
    assert!(close(fv(r.im), 0.1578998151, 1.0e-5));
    let n2 = fx(2.3);
    let r2 = bessel::jf(c(-0.75, 0.0), n2, seed(-0.75, 0.0, fv(n2)));
    assert!(close(fv(r2.re), 0.0219887007, 1.0e-5));
    assert!(close(fv(r2.im), 0.030264850, 1.0e-5));
}

#[test]
fn y_fractional_orders() {
    let n = fx(1.5);
    let r = bessel::y(c(1.0, 0.0), n, ysup(1.0, 0.0, n));
    assert!(close(fv(r.re), -1.10249557, 1.0e-5));
    let nm = fx(-1.5);
    let rm = bessel::y(c(1.0, 0.0), nm, ysup(1.0, 0.0, nm));
    assert!(close(fv(rm.re), -0.24029783, 1.0e-5));
}

#[test]
fn y_whole_orders_take_the_limit() {
    let n = fx(1.0);
    let r = bessel::y(c(0.5, 0.0), n, ysup(0.5, 0.0, n));
    assert!(close(fv(r.re), -1.47147239, 1.0e-5));
    let nm = fx(-1.0);
    let rm = bessel::y(c(0.5, 0.0), nm, ysup(0.5, 0.0, nm));
    assert!(close(fv(rm.re), 1.47147239, 1.0e-5));
}

#[test]
fn y_negative_and_complex_arguments() {
    let n = fx(3.1);
    let r = bessel::y(c(-1.2, 0.0), n, ysup(-1.2, 0.0, n));
    assert!(close(fv(r.re), 3.90596471, 1.0e-5));
    assert!(close(fv(r.im), -1.32157214, 1.0e-5));
    let n2 = fx(2.0);
    let r2 = bessel::y(c(-1.0, -0.5), n2, ysup(-1.0, -0.5, n2));
    assert!(close(fv(r2.re), -0.79108492, 1.0e-5));
    assert!(close(fv(r2.im), 0.60211151, 1.0e-5));
}

#[test]
fn y_order_sign_reflection() {
    // Y at a negated fractional order satisfies the relation its reflection
    // formula implies: Y(x,-n) = sin(n*pi)*J(x,n) + cos(n*pi)*Y(x,n).
    let xr = 1.3;
    let n = fx(0.6);
    let nm = fx(-0.6);
    let jv = bessel::jf(c(xr, 0.0), n, seed(xr, 0.0, fv(n)));
    let yv = bessel::y(c(xr, 0.0), n, ysup(xr, 0.0, n));
    let ym = bessel::y(c(xr, 0.0), nm, ysup(xr, 0.0, nm));
    let sn = libm::sin(0.6 * PI);
    let cn = libm::cos(0.6 * PI);
    let want = sn * fv(jv.re) + cn * fv(yv.re);
    assert!(close(fv(ym.re), want, 1.0e-5));
}

#[test]
fn i_real_and_complex_arguments() {
    let n = fx(0.0);
    let r = bessel::i(c(1.2, 0.0), n, seed(1.2, 0.0, 0.0));
    assert!(close(fv(r.re), 1.39373, 1.0e-4));
    assert_eq!(r.im.raw, 0);
    let n2 = fx(-1.6);
    let r2 = bessel::i(c(-1.2, 0.5), n2, seed(-1.2, 0.5, fv(n2)));
    assert!(close(fv(r2.re), 0.549831, 1.0e-5));
    assert!(close(fv(r2.im), -0.123202, 1.0e-5));
}

#[test]
fn k_fractional_order_complex_argument() {
    let n = fx(-3.5);
    let r = bessel::k(c(2.0, -1.0), n, ksup(2.0, -1.0, n));
    assert!(close(fv(r.re), -0.32113627, 1.0e-5));
    assert!(close(fv(r.im), 0.76751785, 1.0e-5));
}

#[test]
fn k_whole_order_takes_the_limit() {
    let n = fx(1.0);
    let r = bessel::k(c(-1.1, 0.6), n, ksup(-1.1, 0.6, n));
    assert!(close(fv(r.re), -1.6153940, 1.0e-5));
    assert!(close(fv(r.im), -2.1056846, 1.0e-5));
}

#[test]
fn hankel_first_values() {
    let n = fx(1.0);
    let r = bessel::hankel_first(c(-1.1, 2.3), n, hsup(-1.1, 2.3, n));
    assert!(close(fv(r.re), -0.0112027, 1.0e-5));
    assert!(close(fv(r.im), 0.0551947, 1.0e-5));
    let n2 = fx(-2.35);
    let r2 = bessel::hankel_first(c(5.2, -3.0), n2, hsup(5.2, -3.0, n2));
    assert!(close(fv(r2.re), -4.2809477, 1.0e-5));
    assert!(close(fv(r2.im), 3.2123502, 1.0e-5));
}

#[test]
fn hankel_second_values() {
    let n = fx(1.0);
    let r = bessel::hankel_second(c(-1.1, 2.3), n, hsup(-1.1, 2.3, n));
    assert!(close(fv(r.re), -3.54421, 1.0e-5));
    assert!(close(fv(r.im), 2.2983539, 1.0e-5));
    let n2 = fx(-2.35);
    let r2 = bessel::hankel_second(c(5.2, -3.0), n2, hsup(5.2, -3.0, n2));
    assert!(close(fv(r2.re), -0.0068184520, 1.0e-5));
    assert!(close(fv(r2.im), -0.0193698, 1.0e-5));
}

#[test]
fn hankel_decomposition_is_exact() {
    // H1 + H2 recombines to exactly twice J, and H1 - H2 to exactly twice
    // i*Y, raw integer for raw integer.
    let n = fx(0.7);
    let x = c(1.1, 0.3);
    let sup = hsup(1.1, 0.3, n);
    let h1 = bessel::hankel_first(x, n, sup);
    let h2 = bessel::hankel_second(x, n, sup);
    let jv = bessel::jf(x, n, sup.j_seed);
    let yv = bessel::y(x, n, sup.y_sup);
    assert_eq!(h1.re.raw + h2.re.raw, 2 * jv.re.raw);
    assert_eq!(h1.im.raw + h2.im.raw, 2 * jv.im.raw);
    assert_eq!(h1.re.raw - h2.re.raw, -2 * yv.im.raw);
    assert_eq!(h1.im.raw - h2.im.raw, 2 * yv.re.raw);
}
