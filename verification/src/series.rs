//! The shared convergence loop.
//!
//! All four series variants (integer-order J, real-order J, and the modified
//! function I with or without the alternating sign) sum the same shape of
//! series: each term arises from the previous one by multiplying with the
//! squared half-argument, optionally flipping the sign, and dividing by the
//! step index and by the order advanced by the step index. Summation stops
//! when the newest term is small next to the running sum — the ratio's
//! modulus drops under the convergence tolerance — or, as a safeguard that
//! keeps the loop well founded, after `MAX_STEPS` terms.

use vstd::prelude::*;

verus! {

use crate::fixed::{Fx, SCALE, TOL_RAW, MAX_STEPS, clamp, fx_wf, fx_shift_units};
use crate::complex::{
    Cx, cval, cx_wf, swf, sadd, sneg, smul, sdiv_int, sdiv_fx, sdiv, smod, cx_zero, cadd, cneg, cmul,
    cdiv_int, cdiv_fx, cdiv, modulus_raw,
};

/// Model: the term that follows `term` at step `k`.
pub open spec fn snext_term(
    term: (int, int),
    x2sq: (int, int),
    n_raw: int,
    k: int,
    alternating: bool,
) -> (int, int) {
    let grown = smul(term, x2sq);
    let signed = if alternating {
        sneg(grown)
    } else {
        grown
    };
    sdiv_fx(sdiv_int(signed, k), clamp(n_raw + k * SCALE))
}

/// Model: the summation loop from a running state. `term` is the term about
/// to be added, `res` the sum so far, `k` the step about to be taken.
pub open spec fn sseries_loop(
    x2sq: (int, int),
    n_raw: int,
    alternating: bool,
    term: (int, int),
    res: (int, int),
    k: int,
) -> (int, int)
    recommends
        1 <= k <= MAX_STEPS,
    decreases MAX_STEPS - k,
{
    let grown_sum = sadd(res, term);
    let ratio = sdiv(term, grown_sum);
    if smod(ratio) < TOL_RAW {
        grown_sum
    } else if k >= MAX_STEPS {
        grown_sum
    } else {
        sseries_loop(
            x2sq,
            n_raw,
            alternating,
            snext_term(term, x2sq, n_raw, k, alternating),
            grown_sum,
            k + 1,
        )
    }
}

/// Model: the truncated series from its first term. A first term already
/// under the tolerance short-circuits to the additive identity.
pub open spec fn sseries(
    x2sq: (int, int),
    n_raw: int,
    term0: (int, int),
    alternating: bool,
) -> (int, int) {
    if smod(term0) < TOL_RAW {
        (0int, 0int)
    } else {
        sseries_loop(x2sq, n_raw, alternating, term0, (0int, 0int), 1)
    }
}

/// Every value the summation produces is well formed.
pub proof fn lemma_sseries_loop_wf(
    x2sq: (int, int),
    n_raw: int,
    alternating: bool,
    term: (int, int),
    res: (int, int),
    k: int,
)
    ensures
        swf(sseries_loop(x2sq, n_raw, alternating, term, res, k)),
    decreases MAX_STEPS - k,
{
    let grown_sum = sadd(res, term);
    let ratio = sdiv(term, grown_sum);
    if smod(ratio) < TOL_RAW {
    } else if k >= MAX_STEPS {
    } else {
        lemma_sseries_loop_wf(
            x2sq,
            n_raw,
            alternating,
            snext_term(term, x2sq, n_raw, k, alternating),
            grown_sum,
            k + 1,
        );
    }
}

/// The truncated series is well formed.
pub proof fn lemma_sseries_wf(x2sq: (int, int), n_raw: int, term0: (int, int), alternating: bool)
    ensures
        swf(sseries(x2sq, n_raw, term0, alternating)),
{
    if smod(term0) < TOL_RAW {
    } else {
        lemma_sseries_loop_wf(x2sq, n_raw, alternating, term0, (0int, 0int), 1);
    }
}

/// Sums the series, one parameterized loop for every variant.
pub fn series_sum(x2sq: Cx, order: Fx, term0: Cx, alternating: bool) -> (r: Cx)
    requires
        cx_wf(x2sq),
        fx_wf(order),
        cx_wf(term0),
    ensures
        cx_wf(r),
        cval(r) == sseries(cval(x2sq), order.raw as int, cval(term0), alternating),
{
    let m0 = modulus_raw(term0);
    if m0 < TOL_RAW {
        return cx_zero();
    }
    let mut term = term0;
    let mut res = cx_zero();
    let mut k: u64 = 1;
    let ghost target = sseries_loop(
        cval(x2sq),
        order.raw as int,
        alternating,
        cval(term0),
        (0int, 0int),
        1,
    );
    loop
        invariant_except_break
            1 <= k <= MAX_STEPS,
            cx_wf(term),
            cx_wf(res),
            cx_wf(x2sq),
            fx_wf(order),
            sseries_loop(cval(x2sq), order.raw as int, alternating, cval(term), cval(res), k as int)
                == target,
        ensures
            cx_wf(res),
            cval(res) == target,
        decreases MAX_STEPS - k,
    {
        res = cadd(res, term);
        let ratio = cdiv(term, res);
        if modulus_raw(ratio) < TOL_RAW {
            break;
        }
        if k >= MAX_STEPS {
            break;
        }
        let grown = cmul(term, x2sq);
        let signed = if alternating {
            cneg(grown)
        } else {
            grown
        };
        let stepped = cdiv_int(signed, k as i128);
        let next = cdiv_fx(stepped, fx_shift_units(order, k));
        term = next;
        k = k + 1;
    }
    res
}

} // verus!
