//! Kernel densities: signs of exponents, bandwidths and bins.

use vstd::prelude::*;

use crate::binary64::arithmetic::{difference_of, product_of, quotient_of, root_of};
use crate::binary64::laws::{
    law_clear_signs_stay_clear, law_nan_spreads, law_product_sign, law_quotient_sign,
    law_root_has_a_clear_sign, lemma_constants,
};
use crate::binary64::number::{lemma_opposite, lemma_value_sign, of, opposite, HUNDRED, TWO};
use crate::binary64::Binary64;
use crate::digest::Centroid;
use crate::kernel::{
    effective_count_of, exponent_at, is_bandwidth, kernel_bin, kernel_terms, normal_of,
    rule_of_thumb, RULE_EXPONENT, TWO_PI,
};
use crate::weights::total_of;

verus! {

/// The exponent of the normal curve is not positive, if it is a number.
pub proof fn law_exponent_is_not_positive(x: Binary64, mean: Binary64, bandwidth: Binary64)
    ensures
        exponent_at(x, mean, bandwidth).nan() || exponent_at(x, mean, bandwidth).le(of(0)),
{
    lemma_constants();
    let u = quotient_of(difference_of(x, mean), bandwidth);
    lemma_opposite(u);
    let p = product_of(opposite(u), u);
    let e = quotient_of(p, of(TWO));
    law_product_sign(opposite(u), u);
    if p.nan() {
        law_nan_spreads(p, of(TWO));
    }
    law_quotient_sign(p, of(TWO));
    lemma_value_sign(e);
}

/// All sign bits are clear.
pub open spec fn clear(xs: Seq<Binary64>) -> bool {
    forall|i: int| 0 <= i < xs.len() ==> !(#[trigger] xs[i]).negative()
}

/// The total of numbers with clear sign bits has a clear sign bit.
proof fn lemma_clear_total(xs: Seq<Binary64>)
    requires
        clear(xs),
    ensures
        !total_of(xs).negative(),
    decreases xs.len(),
{
    lemma_constants();
    if xs.len() > 0 {
        let ys = xs.drop_last();
        assert forall|i: int| 0 <= i < ys.len() implies !(#[trigger] ys[i]).negative() by {
            assert(ys[i] == xs[i]);
        }
        lemma_clear_total(ys);
        assert(xs.last() == xs[xs.len() - 1]);
        law_clear_signs_stay_clear(total_of(ys), xs.last());
    }
}

/// A bin of a kernel density is not negative, if it is a number.
pub proof fn law_kernel_bin_is_not_negative(
    ws: Seq<Binary64>,
    row: Seq<Binary64>,
    bandwidth: Binary64,
    dx: Binary64,
)
    requires
        ws.len() == row.len(),
        clear(ws),
        clear(row),
        !bandwidth.negative(),
        !dx.negative(),
    ensures
        kernel_bin(ws, row, bandwidth, dx).nan() || kernel_bin(
            ws,
            row,
            bandwidth,
            dx,
        ).nonnegative(),
{
    lemma_constants();
    let terms = kernel_terms(ws, row);
    let root = root_of(of(TWO_PI));
    law_root_has_a_clear_sign(of(TWO_PI));
    assert forall|j: int| 0 <= j < terms.len() implies !(#[trigger] terms[j]).negative() by {
        assert(!ws[j].negative() && !row[j].negative());
        law_clear_signs_stay_clear(row[j], root);
        law_clear_signs_stay_clear(ws[j], normal_of(row[j]));
    }
    lemma_clear_total(terms);
    lemma_clear_total(ws);
    let scale = product_of(total_of(ws), bandwidth);
    law_clear_signs_stay_clear(total_of(ws), bandwidth);
    let height = quotient_of(total_of(terms), scale);
    law_clear_signs_stay_clear(total_of(terms), scale);
    law_clear_signs_stay_clear(height, dx);
    law_clear_signs_stay_clear(product_of(height, dx), of(HUNDRED));
    lemma_value_sign(kernel_bin(ws, row, bandwidth, dx));
}

/// The bandwidth that is used is positive, where the given one is a number and half a bin is
/// positive.
pub proof fn law_bandwidth_is_positive<P: Fn(Binary64, Binary64) -> Binary64>(
    powf: P,
    cs: Seq<Centroid>,
    ws: Seq<Binary64>,
    dx: Binary64,
    bandwidth: Binary64,
    bw: Binary64,
)
    requires
        is_bandwidth(powf, cs, ws, dx, bandwidth, bw),
        !bandwidth.nan(),
        of(0).lt(quotient_of(dx, of(TWO))),
    ensures
        of(0).lt(bw),
{
    lemma_constants();
    if bandwidth.le(of(0)) {
        let power = choose|power: Binary64|
            {
                &&& #[trigger] call_ensures(
                    powf,
                    (effective_count_of(ws), of(RULE_EXPONENT)),
                    power,
                )
                &&& bw == rule_of_thumb(cs, ws, dx, power)
            };
        assert(bw == rule_of_thumb(cs, ws, dx, power));
    }
}

} // verus!
