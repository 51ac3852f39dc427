//! Only relative weights matter to a kernel density: multiplying all of them by a common factor
//! changes a bin by rounding alone.

use vstd::prelude::*;

use crate::binary64::arithmetic::{product_of, quotient_of, root_of, unity, whole};
use crate::binary64::closeness::{
    above, agree, below, law_product_is_near, law_quotient_is_near, law_sum_is_near,
    law_whole_multiple_is_near, lemma_near_agrees, lemma_near_cancels, lemma_near_exact,
    lemma_near_multiple, lemma_near_quotient, lemma_near_sum, lemma_near_weakens, lemma_powers,
    near,
};
use crate::binary64::laws::{
    law_product_of_nonnegative, law_sum_of_nonnegative, law_whole_is_finite, lemma_constants,
};
use crate::binary64::number::{lemma_value_sign, of, HUNDRED};
use crate::binary64::scaling::{product_unharmed, unharmed};
use crate::binary64::Binary64;
use crate::density::{percent_of, step_of};
use crate::digest::{Centroid, TDigestView};
use crate::kernel::{
    effective_count_of, is_bandwidth, is_digest_kernel_density, is_kernel_density, kernel_bin,
    kernel_density_of, kernel_terms, raised_rows, square_terms, squared, TWO_PI,
};
use crate::laws::histograms::sum_of_counts;
use crate::laws::relative_weights::{bounded, lemma_kernel_density_looks_at_means, same_means};
use crate::weights::{counts_of, lemma_total_step, plain, total_of, weights_of, weighty};

verus! {

/// Each number is near the integer in its place over `den`, up to `n` roundings.
pub open spec fn all_near(xs: Seq<Binary64>, nums: Seq<int>, den: int, n: int) -> bool {
    &&& xs.len() == nums.len()
    &&& forall|i: int|
        0 <= i < xs.len() ==> {
            &&& (#[trigger] xs[i]).finite()
            &&& xs[i].nonnegative()
            &&& nums[i] >= 0
            &&& near(xs[i].value(), nums[i], den, n)
        }
}

/// A total is near the total of what its terms are near.
pub(crate) proof fn lemma_total_is_near(xs: Seq<Binary64>, nums: Seq<int>, den: int, n: int, k: int)
    requires
        all_near(xs, nums, den, n),
        bounded(xs),
        den > 0,
        n >= 0,
        0 <= k <= xs.len(),
    ensures
        total_of(xs.take(k)).finite(),
        total_of(xs.take(k)).nonnegative(),
        sum_of_counts(nums.take(k)) >= 0,
        near(total_of(xs.take(k)).value(), sum_of_counts(nums.take(k)), den, n + k),
    decreases k,
{
    lemma_constants();
    assert(total_of(xs.take(k)).finite());
    if k == 0 {
        assert(xs.take(0).len() == 0);
        assert(nums.take(0).len() == 0);
        assert(0 * den == 0);
        lemma_near_exact(0, 0, den);
        lemma_near_weakens(0, 0, den, 0, n);
    } else {
        let i = k - 1;
        lemma_total_is_near(xs, nums, den, n, i);
        lemma_total_step(xs, i);
        assert(nums.take(k).drop_last() =~= nums.take(i));
        let before = total_of(xs.take(i));
        let x = xs[i];
        let a = sum_of_counts(nums.take(i));
        let b = nums[i];
        assert(x.finite() && x.nonnegative() && b >= 0);
        law_sum_of_nonnegative(before, x);
        law_sum_is_near(before, x);
        lemma_near_weakens(x.value(), b, den, n, n + i);
        lemma_near_sum(before.value(), x.value(), a, b, den, n + i);
        let y = before.value() + x.value();
        assert(y * 1 == y && (a + b) * 1 == a + b && den * 1 == den);
        lemma_near_multiple(
            total_of(xs.take(k)).value(),
            y,
            1,
            1,
            a + b,
            den,
            1,
            n + i,
        );
    }
}

/// The sum of products, each of an integer and a value.
pub open spec fn weighted_sum(base: Seq<int>, xs: Seq<int>) -> int {
    sum_of_counts(Seq::new(base.len(), |i: int| base[i] * xs[i]))
}

/// The values of numbers.
pub open spec fn values_of(xs: Seq<Binary64>) -> Seq<int> {
    Seq::new(xs.len(), |i: int| xs[i].value())
}

/// `terms` holds the products of `ws` and `xs`, none of which overflows or underflows.
pub open spec fn products_unharmed(
    ws: Seq<Binary64>,
    xs: Seq<Binary64>,
    terms: Seq<Binary64>,
) -> bool {
    &&& ws.len() == xs.len()
    &&& terms.len() == xs.len()
    &&& bounded(terms)
    &&& forall|i: int|
        0 <= i < xs.len() ==> {
            &&& (#[trigger] xs[i]).finite()
            &&& xs[i].nonnegative()
            &&& terms[i] == product_of(ws[i], xs[i])
            &&& terms[i].finite()
            &&& product_unharmed(ws[i], xs[i])
        }
}

/// A total of products is near the exact one for weights that its weights are near, and for
/// factors that its factors are near.
pub(crate) proof fn lemma_weighted_total_is_near(
    ws: Seq<Binary64>,
    xs: Seq<Binary64>,
    terms: Seq<Binary64>,
    base: Seq<int>,
    nums: Seq<int>,
    den: int,
    m: int,
    n: int,
)
    requires
        all_near(ws, base, 1, m),
        all_near(xs, nums, den, n),
        products_unharmed(ws, xs, terms),
        den > 0,
        m >= 0,
        n >= 0,
    ensures
        total_of(terms).finite(),
        total_of(terms).nonnegative(),
        weighted_sum(base, nums) >= 0,
        near(
            total_of(terms).value(),
            weighted_sum(base, nums),
            den * unity(),
            1 + m + n + terms.len(),
        ),
{
    lemma_constants();
    let u = unity();
    let exact = Seq::new(base.len(), |i: int| base[i] * nums[i]);
    let len = terms.len() as int;
    assert(den * u > 0) by (nonlinear_arith)
        requires
            den > 0,
            u > 0,
    ;
    assert forall|i: int| 0 <= i < terms.len() implies {
        &&& (#[trigger] terms[i]).finite()
        &&& terms[i].nonnegative()
        &&& exact[i] >= 0
        &&& near(terms[i].value(), exact[i], den * u, 1 + m + n)
    } by {
        let w = ws[i];
        let x = xs[i];
        let b = base[i];
        let c = nums[i];
        assert(w.finite() && w.nonnegative() && b >= 0);
        assert(x.finite() && x.nonnegative() && c >= 0);
        law_product_is_near(w, x);
        law_product_of_nonnegative(w, x);
        lemma_value_sign(w);
        lemma_value_sign(x);
        lemma_near_multiple(terms[i].value(), w.value(), x.value(), u, b, 1, 1, m);
        assert(1 * u == u);
        assert(b * x.value() == x.value() * b) by (nonlinear_arith);
        lemma_near_multiple(terms[i].value(), x.value(), b, u, c, den, 1 + m, n);
        assert(c * b == b * c) by (nonlinear_arith);
        assert(b * c >= 0) by (nonlinear_arith)
            requires
                b >= 0,
                c >= 0,
        ;
    }
    lemma_total_is_near(terms, exact, den * u, 1 + m + n, len);
    assert(terms.take(len) == terms);
    assert(exact.take(len) == exact);
}

/// Finite numbers that are not negative are near their own values.
pub(crate) proof fn lemma_exact_values(xs: Seq<Binary64>)
    requires
        forall|i: int| 0 <= i < xs.len() ==> (#[trigger] xs[i]).finite() && xs[i].nonnegative(),
    ensures
        all_near(xs, values_of(xs), 1, 0),
{
    let nums = values_of(xs);
    assert forall|i: int| 0 <= i < xs.len() implies {
        &&& (#[trigger] xs[i]).finite()
        &&& xs[i].nonnegative()
        &&& nums[i] >= 0
        &&& near(xs[i].value(), nums[i], 1, 0)
    } by {
        lemma_value_sign(xs[i]);
        assert(xs[i].value() * 1 == xs[i].value());
        lemma_near_exact(xs[i].value(), nums[i], 1);
    }
}

/// The bin of a kernel density with weights `ws` neither overflows nor underflows on the way, and
/// there is some weight.
pub open spec fn bin_unharmed(
    ws: Seq<Binary64>,
    row: Seq<Binary64>,
    bandwidth: Binary64,
    dx: Binary64,
) -> bool {
    let sum = total_of(terms_of(ws, curves_of(row)));
    let scale = product_of(total_of(ws), bandwidth);
    let height = quotient_of(sum, scale);
    let share = product_of(height, dx);
    &&& row.len() == ws.len()
    &&& weighty(ws)
    &&& bounded(ws)
    &&& products_unharmed(ws, curves_of(row), terms_of(ws, curves_of(row)))
    &&& forall|i: int| 0 <= i < ws.len() ==> (#[trigger] ws[i]).finite()
    &&& total_of(ws).value() > 0
    &&& bandwidth.finite()
    &&& bandwidth.value() > 0
    &&& product_unharmed(total_of(ws), bandwidth)
    &&& scale.finite()
    &&& unharmed(sum.value() * unity(), scale.value())
    &&& height.finite()
    &&& dx.finite()
    &&& dx.nonnegative()
    &&& product_unharmed(height, dx)
    &&& share.finite()
    &&& product_unharmed(share, of(HUNDRED))
    &&& product_of(share, of(HUNDRED)).finite()
}

/// The normal curves, from their exponentials.
pub open spec fn curves_of(row: Seq<Binary64>) -> Seq<Binary64> {
    Seq::new(row.len(), |i: int| quotient_of(row[i], root_of(of(TWO_PI))))
}

/// The products of numbers in the same place.
pub open spec fn terms_of(ws: Seq<Binary64>, xs: Seq<Binary64>) -> Seq<Binary64> {
    Seq::new(ws.len(), |i: int| product_of(ws[i], xs[i]))
}

/// The terms of a bin are the products of the weights and the curves.
pub(crate) proof fn lemma_kernel_terms(ws: Seq<Binary64>, row: Seq<Binary64>)
    requires
        row.len() == ws.len(),
    ensures
        kernel_terms(ws, row) == terms_of(ws, curves_of(row)),
{
    assert(kernel_terms(ws, row) =~= terms_of(ws, curves_of(row)));
}

/// The dividend of the exact percentage in a bin, for integer weights and values of the curves.
pub open spec fn exact_dividend(base: Seq<int>, curves: Seq<int>, dx: Binary64) -> int {
    ((weighted_sum(base, curves) * unity()) * dx.value()) * (100 * unity())
}

/// The divisor of the exact percentage in a bin, for integer weights and an integer bandwidth.
pub open spec fn exact_divisor(base: Seq<int>, width: int) -> int {
    ((width * sum_of_counts(base)) * unity()) * unity()
}

/// A bin is near the exact percentage for weights, curves and a bandwidth that its own are near.
pub(crate) proof fn lemma_bin_is_near(
    ws: Seq<Binary64>,
    row: Seq<Binary64>,
    bandwidth: Binary64,
    dx: Binary64,
    base: Seq<int>,
    curves: Seq<int>,
    width: int,
    m: int,
    p: int,
    q: int,
)
    requires
        bin_unharmed(ws, row, bandwidth, dx),
        all_near(ws, base, 1, m),
        all_near(curves_of(row), curves, 1, p),
        near(bandwidth.value(), width, 1, q),
        sum_of_counts(base) > 0,
        width > 0,
        m >= 0,
        p >= 0,
        q >= 0,
    ensures
        exact_divisor(base, width) > 0,
        kernel_bin(ws, row, bandwidth, dx).finite(),
        kernel_bin(ws, row, bandwidth, dx).value() >= 0,
        near(
            kernel_bin(ws, row, bandwidth, dx).value(),
            exact_dividend(base, curves, dx),
            exact_divisor(base, width),
            2 * m + p + q + 2 * ws.len() + 5,
        ),
{
    lemma_constants();
    let u = unity();
    let n = ws.len() as int;
    let terms = kernel_terms(ws, row);
    lemma_kernel_terms(ws, row);
    // The terms and their total.
    lemma_weighted_total_is_near(ws, curves_of(row), terms, base, curves, 1, m, p);
    assert(1 * u == u);
    lemma_total_is_near(ws, base, 1, m, n);
    assert(ws.take(n) == ws);
    assert(base.take(n) == base);
    let sum = total_of(terms);
    let all = total_of(ws);
    let a = weighted_sum(base, curves);
    let w = sum_of_counts(base);
    let bw = bandwidth.value();
    // The scale.
    let scale = product_of(all, bandwidth);
    law_product_is_near(all, bandwidth);
    let wb = width * w;
    assert(wb > 0) by (nonlinear_arith)
        requires
            wb == width * w,
            w > 0,
            width > 0,
    ;
    lemma_near_multiple(scale.value(), all.value(), bw, u, w, 1, 1, m + n);
    assert(w * bw == bw * w) by (nonlinear_arith);
    lemma_near_multiple(scale.value(), bw, w, u, width, 1, 1 + m + n, q);
    let f = 1 + m + n + q;
    lemma_near_positive(scale.value(), wb, u, f);
    // The height of the curve.
    let height = quotient_of(sum, scale);
    law_quotient_is_near(sum, scale);
    let g = 1 + m + p + n;
    lemma_near_multiple(height.value(), sum.value(), u, scale.value(), a, u, 1, g);
    assert(a * u == u * a) by (nonlinear_arith);
    lemma_near_cancels(height.value(), a, scale.value(), u, 1 + g);
    lemma_near_quotient(height.value(), a, scale.value(), wb, u, 1 + g, f);
    let au = a * u;
    assert(au >= 0) by (nonlinear_arith)
        requires
            au == a * u,
            a >= 0,
            u > 0,
    ;
    // The share and the percentage.
    let share = product_of(height, dx);
    law_product_is_near(height, dx);
    let d = dx.value();
    let k = 1 + g + f;
    lemma_near_multiple(share.value(), height.value(), d, u, au, wb, 1, k);
    let aud = au * d;
    let wbu = wb * u;
    assert(aud >= 0) by (nonlinear_arith)
        requires
            aud == au * d,
            au >= 0,
            d >= 0,
    ;
    assert(wbu > 0) by (nonlinear_arith)
        requires
            wbu == wb * u,
            wb > 0,
            u > 0,
    ;
    law_product_is_near(share, of(HUNDRED));
    let bin = percent_of(share);
    lemma_near_multiple(bin.value(), share.value(), 100 * u, u, aud, wbu, 1, k + 1);
    assert(wbu * u > 0) by (nonlinear_arith)
        requires
            wbu > 0,
            u > 0,
    ;
}

/// What is near a positive quotient is positive.
pub(crate) proof fn lemma_near_positive(x: int, num: int, den: int, n: int)
    requires
        near(x, num, den, n),
        x >= 0,
        num > 0,
        den > 0,
        n >= 0,
    ensures
        x > 0,
{
    lemma_powers(n);
    let l = below(n);
    let h = above(n);
    if x == 0 {
        assert((x * den) * h == 0) by (nonlinear_arith)
            requires
                x == 0,
        ;
        assert(num * l > 0) by (nonlinear_arith)
            requires
                num > 0,
                l >= 1,
        ;
    }
}

/// What a positive number is near is positive.
pub(crate) proof fn lemma_near_of_positive(x: int, num: int, den: int, n: int)
    requires
        near(x, num, den, n),
        x > 0,
        num >= 0,
        den > 0,
        n >= 0,
    ensures
        num > 0,
{
    lemma_powers(n);
    let l = below(n);
    if num == 0 {
        assert((x * den) * l > 0) by (nonlinear_arith)
            requires
                x > 0,
                den > 0,
                l >= 1,
        ;
        assert(0 * above(n) == 0);
    }
}

/// The sum of multiples is the multiple of the sum.
pub(crate) proof fn lemma_sum_of_multiples(xs: Seq<int>, ys: Seq<int>, k: int)
    requires
        xs.len() == ys.len(),
        forall|i: int| 0 <= i < xs.len() ==> #[trigger] ys[i] == k * xs[i],
    ensures
        sum_of_counts(ys) == k * sum_of_counts(xs),
    decreases xs.len(),
{
    if xs.len() > 0 {
        let x = xs.drop_last();
        let y = ys.drop_last();
        assert forall|i: int| 0 <= i < x.len() implies #[trigger] y[i] == k * x[i] by {
            assert(ys[i] == k * xs[i]);
        }
        lemma_sum_of_multiples(x, y, k);
        let a = sum_of_counts(x);
        let b = xs.last();
        assert(ys[ys.len() - 1] == k * xs[xs.len() - 1]);
        assert(k * (a + b) == k * a + k * b) by (nonlinear_arith);
    } else {
        assert(k * 0 == 0);
    }
}

/// The weights `vs` are those of `ws` times `k`, up to `m` roundings each.
pub open spec fn proportional(ws: Seq<Binary64>, vs: Seq<Binary64>, k: int, m: int) -> bool {
    &&& ws.len() == vs.len()
    &&& forall|i: int|
        0 <= i < ws.len() ==> near((#[trigger] vs[i]).value(), k * ws[i].value(), 1, m)
}

/// Integers times `k`.
pub open spec fn multiples_of(xs: Seq<int>, k: int) -> Seq<int> {
    Seq::new(xs.len(), |i: int| k * xs[i])
}

/// Proportional weights are near the multiples.
pub(crate) proof fn lemma_multiples_are_near(
    ws: Seq<Binary64>,
    vs: Seq<Binary64>,
    k: int,
    m: int,
)
    requires
        k >= 1,
        proportional(ws, vs, k, m),
        forall|i: int| 0 <= i < ws.len() ==> (#[trigger] ws[i]).finite() && ws[i].nonnegative(),
        forall|i: int| 0 <= i < vs.len() ==> (#[trigger] vs[i]).finite() && vs[i].nonnegative(),
    ensures
        all_near(vs, multiples_of(values_of(ws), k), 1, m),
{
    let more = multiples_of(values_of(ws), k);
    assert forall|i: int| 0 <= i < vs.len() implies {
        &&& (#[trigger] vs[i]).finite()
        &&& vs[i].nonnegative()
        &&& more[i] >= 0
        &&& near(vs[i].value(), more[i], 1, m)
    } by {
        let x = ws[i].value();
        assert(ws[i].nonnegative());
        lemma_value_sign(ws[i]);
        assert(k * x >= 0) by (nonlinear_arith)
            requires
                k >= 1,
                x >= 0,
        ;
    }
}

/// A weighted sum has the factor of its weights.
pub(crate) proof fn lemma_weighted_sum_of_multiples(base: Seq<int>, xs: Seq<int>, k: int)
    requires
        xs.len() == base.len(),
    ensures
        weighted_sum(multiples_of(base, k), xs) == k * weighted_sum(base, xs),
{
    let more = multiples_of(base, k);
    let ps = Seq::new(base.len(), |i: int| base[i] * xs[i]);
    let qs = Seq::new(more.len(), |i: int| more[i] * xs[i]);
    assert forall|i: int| 0 <= i < ps.len() implies #[trigger] qs[i] == k * ps[i] by {
        let b = base[i];
        let c = xs[i];
        assert((k * b) * c == k * (b * c)) by (nonlinear_arith);
    }
    lemma_sum_of_multiples(ps, qs, k);
}

/// The numbers of `ys` are those of `xs`, up to `n` roundings each.
pub open spec fn all_agree(xs: Seq<Binary64>, ys: Seq<Binary64>, n: int) -> bool {
    &&& xs.len() == ys.len()
    &&& forall|i: int|
        0 <= i < xs.len() ==> near((#[trigger] ys[i]).value(), xs[i].value(), 1, n)
}

/// Multiplying all weights by a common factor, and changing the curves and the bandwidth by
/// rounding, changes a bin of a kernel density by rounding alone.
pub(crate) proof fn lemma_bins_agree(
    ws: Seq<Binary64>,
    vs: Seq<Binary64>,
    row: Seq<Binary64>,
    line: Seq<Binary64>,
    bandwidth: Binary64,
    width: Binary64,
    dx: Binary64,
    k: int,
    m: int,
    p: int,
    q: int,
)
    requires
        k >= 1,
        m >= 0,
        p >= 0,
        q >= 0,
        proportional(ws, vs, k, m),
        all_agree(curves_of(row), curves_of(line), p),
        near(width.value(), bandwidth.value(), 1, q),
        bin_unharmed(ws, row, bandwidth, dx),
        bin_unharmed(vs, line, width, dx),
    ensures
        agree(
            kernel_bin(ws, row, bandwidth, dx).value(),
            kernel_bin(vs, line, width, dx).value(),
            4 * ws.len() + 2 * m + p + q + 10,
        ),
{
    lemma_constants();
    let n = ws.len() as int;
    let u = unity();
    let base = values_of(ws);
    let more = multiples_of(base, k);
    lemma_exact_values(ws);
    lemma_multiples_are_near(ws, vs, k, m);
    // There is some weight, so the exact totals are positive.
    lemma_total_is_near(ws, base, 1, 0, n);
    assert(ws.take(n) == ws && base.take(n) == base);
    let w = sum_of_counts(base);
    let all = total_of(ws).value();
    lemma_near_of_positive(all, w, 1, n);
    lemma_sum_of_multiples(base, more, k);
    assert(k * w > 0) by (nonlinear_arith)
        requires
            k >= 1,
            w > 0,
    ;
    let xs = curves_of(row);
    let ys = curves_of(line);
    let curves = values_of(xs);
    lemma_exact_values(xs);
    assert(all_near(ys, curves, 1, p)) by {
        assert forall|i: int| 0 <= i < ys.len() implies {
            &&& (#[trigger] ys[i]).finite()
            &&& ys[i].nonnegative()
            &&& curves[i] >= 0
            &&& near(ys[i].value(), curves[i], 1, p)
        } by {
            assert(xs[i].nonnegative());
            lemma_value_sign(xs[i]);
        }
    }
    let bw = bandwidth.value();
    assert(bw * 1 == bw);
    lemma_near_exact(bw, bw, 1);
    lemma_weighted_sum_of_multiples(base, curves, k);
    lemma_bin_is_near(ws, row, bandwidth, dx, base, curves, bw, 0, 0, 0);
    lemma_bin_is_near(vs, line, width, dx, more, curves, bw, m, p, q);
    let num = exact_dividend(base, curves, dx);
    let den = exact_divisor(base, bw);
    let a = weighted_sum(base, curves);
    let d = dx.value();
    assert(exact_dividend(more, curves, dx) == k * num) by (nonlinear_arith)
        requires
            exact_dividend(more, curves, dx) == (((k * a) * u) * d) * (100 * u),
            num == ((a * u) * d) * (100 * u),
    ;
    assert(exact_divisor(more, bw) == k * den) by (nonlinear_arith)
        requires
            exact_divisor(more, bw) == ((bw * (k * w)) * u) * u,
            den == ((bw * w) * u) * u,
    ;
    let x = kernel_bin(ws, row, bandwidth, dx).value();
    let y = kernel_bin(vs, line, width, dx).value();
    let f = 2 * m + p + q + 2 * n + 5;
    lemma_near_cancels(y, num, den, k, f);
    lemma_near_agrees(x, y, num, den, 2 * n + 5, f);
}

/// Multiplying all weights by a common factor changes a bin of a kernel density by rounding
/// alone: with `n` centroids, by `4 * n + 2 * m + 10` roundings at most.
pub proof fn law_kernel_bin_ignores_a_common_factor(
    ws: Seq<Binary64>,
    vs: Seq<Binary64>,
    row: Seq<Binary64>,
    bandwidth: Binary64,
    dx: Binary64,
    k: int,
    m: int,
)
    requires
        k >= 1,
        m >= 0,
        proportional(ws, vs, k, m),
        bin_unharmed(ws, row, bandwidth, dx),
        bin_unharmed(vs, row, bandwidth, dx),
    ensures
        agree(
            kernel_bin(ws, row, bandwidth, dx).value(),
            kernel_bin(vs, row, bandwidth, dx).value(),
            4 * ws.len() + 2 * m + 10,
        ),
{
    let xs = curves_of(row);
    assert forall|i: int| 0 <= i < xs.len() implies near(
        (#[trigger] xs[i]).value(),
        xs[i].value(),
        1,
        0,
    ) by {
        assert(xs[i].value() * 1 == xs[i].value());
        lemma_near_exact(xs[i].value(), xs[i].value(), 1);
    }
    assert(bandwidth.value() * 1 == bandwidth.value());
    lemma_near_exact(bandwidth.value(), bandwidth.value(), 1);
    lemma_bins_agree(ws, vs, row, row, bandwidth, bandwidth, dx, k, m, 0, 0);
}

/// Multiplying all weights by a common factor changes a kernel density by rounding alone.
pub proof fn law_kernel_density_ignores_a_common_factor(
    ws: Seq<Binary64>,
    vs: Seq<Binary64>,
    rows: Seq<Seq<Binary64>>,
    bandwidth: Binary64,
    dx: Binary64,
    k: int,
    m: int,
)
    requires
        k >= 1,
        m >= 0,
        proportional(ws, vs, k, m),
        forall|i: int|
            0 <= i < rows.len() ==> {
                &&& bin_unharmed(ws, #[trigger] rows[i], bandwidth, dx)
                &&& bin_unharmed(vs, rows[i], bandwidth, dx)
            },
    ensures
        kernel_density_of(vs, rows, bandwidth, dx).len() == kernel_density_of(
            ws,
            rows,
            bandwidth,
            dx,
        ).len(),
        forall|i: int|
            0 <= i < rows.len() ==> agree(
                (#[trigger] kernel_density_of(ws, rows, bandwidth, dx)[i]).value(),
                kernel_density_of(vs, rows, bandwidth, dx)[i].value(),
                4 * ws.len() + 2 * m + 10,
            ),
{
    let r = kernel_density_of(ws, rows, bandwidth, dx);
    let s = kernel_density_of(vs, rows, bandwidth, dx);
    assert forall|i: int| 0 <= i < rows.len() implies agree(
        (#[trigger] r[i]).value(),
        s[i].value(),
        4 * ws.len() + 2 * m + 10,
    ) by {
        assert(bin_unharmed(ws, rows[i], bandwidth, dx));
        law_kernel_bin_ignores_a_common_factor(ws, vs, rows[i], bandwidth, dx, k, m);
    }
}

/// No bin of a kernel density with weights `ws` and the given bandwidth overflows or underflows on
/// the way, whatever `exp` gives.
pub open spec fn densities_unharmed<X: Fn(Binary64) -> Binary64>(
    exp: X,
    cs: Seq<Centroid>,
    ws: Seq<Binary64>,
    n: int,
    x_min: Binary64,
    dx: Binary64,
    bandwidth: Binary64,
) -> bool {
    forall|rows: Seq<Seq<Binary64>>, i: int|
        #![trigger rows[i]]
        raised_rows(exp, cs, n, x_min, dx, bandwidth, rows) && 0 <= i < n ==> bin_unharmed(
            ws,
            rows[i],
            bandwidth,
            dx,
        )
}

/// For a given bandwidth, multiplying the weights of all centroids of a digest by a common factor
/// changes its kernel density by rounding alone: to what it can be with the ones there is what it
/// can be with the others.
pub proof fn law_digest_kernel_density_ignores_a_common_factor<
    P: Fn(Binary64, Binary64) -> Binary64,
    X: Fn(Binary64) -> Binary64,
>(
    powf: P,
    exp: X,
    digest: TDigestView,
    heavier: TDigestView,
    ws: Seq<Binary64>,
    vs: Seq<Binary64>,
    num_points: i32,
    x_min: Binary64,
    x_max: Binary64,
    bandwidth: Binary64,
    r: Seq<Binary64>,
    k: int,
    m: int,
) -> (s: Seq<Binary64>)
    requires
        k >= 1,
        m >= 0,
        same_means(digest.centroids, heavier.centroids),
        digest.count == 0 <==> heavier.count == 0,
        proportional(ws, vs, k, m),
        total_of(ws).value() > 0,
        total_of(vs).value() > 0,
        !bandwidth.le(of(0)),
        densities_unharmed(
            exp,
            digest.centroids,
            ws,
            num_points as int,
            x_min,
            step_of(num_points as int, x_min, x_max),
            bandwidth,
        ),
        densities_unharmed(
            exp,
            digest.centroids,
            vs,
            num_points as int,
            x_min,
            step_of(num_points as int, x_min, x_max),
            bandwidth,
        ),
        is_digest_kernel_density(
            powf,
            exp,
            digest,
            ws,
            num_points,
            x_min,
            x_max,
            bandwidth,
            r,
        ),
    ensures
        is_digest_kernel_density(
            powf,
            exp,
            heavier,
            vs,
            num_points,
            x_min,
            x_max,
            bandwidth,
            s,
        ),
        s.len() == r.len(),
        forall|i: int|
            0 <= i < r.len() ==> agree(
                (#[trigger] r[i]).value(),
                s[i].value(),
                4 * ws.len() + 2 * m + 10,
            ),
{
    lemma_constants();
    let n = num_points as int;
    let dx = step_of(n, x_min, x_max);
    let cs = digest.centroids;
    if n <= 0 || digest.count == 0 {
        assert forall|i: int| 0 <= i < r.len() implies agree(
            (#[trigger] r[i]).value(),
            r[i].value(),
            4 * ws.len() + 2 * m + 10,
        ) by {
            lemma_powers(4 * ws.len() + 2 * m + 10);
            assert(r[i] == of(0));
            assert(0 * below(4 * ws.len() + 2 * m + 10) == 0);
            assert(0 * above(4 * ws.len() + 2 * m + 10) == 0);
        }
        r
    } else {
        let (bw, rows) = choose|bw: Binary64, rows: Seq<Seq<Binary64>>|
            {
                &&& #[trigger] is_bandwidth(powf, cs, ws, dx, bandwidth, bw)
                &&& #[trigger] raised_rows(exp, cs, n, x_min, dx, bw, rows)
                &&& r == kernel_density_of(ws, rows, bw, dx)
            };
        let s = kernel_density_of(vs, rows, bandwidth, dx);
        law_kernel_density_ignores_a_common_factor(ws, vs, rows, bandwidth, dx, k, m);
        assert(is_bandwidth(powf, cs, vs, dx, bandwidth, bandwidth));
        assert(is_kernel_density(powf, exp, cs, vs, n, x_min, dx, bandwidth, s));
        lemma_kernel_density_looks_at_means(
            powf,
            exp,
            cs,
            heavier.centroids,
            vs,
            n,
            x_min,
            dx,
            bandwidth,
            s,
        );
        s
    }
}

/// The effective count of weights `ws` neither overflows nor underflows on the way, and there is
/// some weight.
pub open spec fn count_unharmed(ws: Seq<Binary64>) -> bool {
    let all = total_of(ws);
    let squares = total_of(terms_of(ws, ws));
    &&& weighty(ws)
    &&& bounded(ws)
    &&& products_unharmed(ws, ws, terms_of(ws, ws))
    &&& all.value() > 0
    &&& product_unharmed(all, all)
    &&& product_of(all, all).finite()
    &&& squares.value() > 0
    &&& unharmed(product_of(all, all).value() * unity(), squares.value())
    &&& quotient_of(product_of(all, all), squares).finite()
}

/// An effective count is near the exact one for weights that its weights are near.
pub(crate) proof fn lemma_count_is_near(ws: Seq<Binary64>, base: Seq<int>, m: int)
    requires
        count_unharmed(ws),
        all_near(ws, base, 1, m),
        m >= 0,
    ensures
        weighted_sum(base, base) > 0,
        near(
            effective_count_of(ws).value(),
            (sum_of_counts(base) * sum_of_counts(base)) * unity(),
            weighted_sum(base, base),
            4 * m + 3 * ws.len() + 3,
        ),
{
    lemma_constants();
    let u = unity();
    let n = ws.len() as int;
    assert(square_terms(ws) =~= terms_of(ws, ws));
    lemma_weighted_total_is_near(ws, ws, square_terms(ws), base, base, 1, m, m);
    assert(1 * u == u);
    lemma_total_is_near(ws, base, 1, m, n);
    assert(ws.take(n) == ws && base.take(n) == base);
    let all = total_of(ws);
    let squares = total_of(square_terms(ws));
    let w = sum_of_counts(base);
    let q = weighted_sum(base, base);
    lemma_near_of_positive(squares.value(), q, u, 1 + 2 * m + n);
    let top = squared(all);
    law_product_is_near(all, all);
    lemma_near_multiple(top.value(), all.value(), all.value(), u, w, 1, 1, m + n);
    assert(w * all.value() == all.value() * w) by (nonlinear_arith);
    lemma_near_multiple(top.value(), all.value(), w, u, w, 1, 1 + m + n, m + n);
    let ww = w * w;
    assert(ww >= 0) by (nonlinear_arith)
        requires
            ww == w * w,
    ;
    let r = effective_count_of(ws);
    law_product_of_nonnegative(all, all);
    law_quotient_is_near(top, squares);
    lemma_near_multiple(
        r.value(),
        top.value(),
        u,
        squares.value(),
        ww,
        u,
        1,
        1 + 2 * m + 2 * n,
    );
    assert(ww * u == u * ww) by (nonlinear_arith);
    lemma_near_cancels(r.value(), ww, squares.value(), u, 2 + 2 * m + 2 * n);
    lemma_near_quotient(
        r.value(),
        ww,
        squares.value(),
        q,
        u,
        2 + 2 * m + 2 * n,
        1 + 2 * m + n,
    );
}

/// Multiplying all weights by a common factor changes the effective count by rounding alone.
pub proof fn law_effective_count_ignores_a_common_factor(
    ws: Seq<Binary64>,
    vs: Seq<Binary64>,
    k: int,
    m: int,
)
    requires
        k >= 1,
        m >= 0,
        proportional(ws, vs, k, m),
        count_unharmed(ws),
        count_unharmed(vs),
    ensures
        agree(
            effective_count_of(ws).value(),
            effective_count_of(vs).value(),
            6 * ws.len() + 4 * m + 6,
        ),
{
    let n = ws.len() as int;
    let u = unity();
    let base = values_of(ws);
    let more = multiples_of(base, k);
    lemma_exact_values(ws);
    lemma_multiples_are_near(ws, vs, k, m);
    lemma_count_is_near(ws, base, 0);
    lemma_count_is_near(vs, more, m);
    lemma_sum_of_multiples(base, more, k);
    lemma_weighted_sum_of_multiples(base, more, k);
    let ps = Seq::new(base.len(), |i: int| base[i] * more[i]);
    let qs = Seq::new(base.len(), |i: int| base[i] * base[i]);
    assert forall|i: int| 0 <= i < qs.len() implies #[trigger] ps[i] == k * qs[i] by {
        let b = base[i];
        assert(b * (k * b) == k * (b * b)) by (nonlinear_arith);
    }
    lemma_sum_of_multiples(qs, ps, k);
    let w = sum_of_counts(base);
    let q = weighted_sum(base, base);
    let kk = k * k;
    let num = (w * w) * u;
    assert(((k * w) * (k * w)) * u == kk * num) by (nonlinear_arith)
        requires
            kk == k * k,
            num == (w * w) * u,
    ;
    assert(k * (k * q) == kk * q) by (nonlinear_arith)
        requires
            kk == k * k,
    ;
    assert(kk > 0) by (nonlinear_arith)
        requires
            kk == k * k,
            k >= 1,
    ;
    let x = effective_count_of(ws).value();
    let y = effective_count_of(vs).value();
    lemma_near_cancels(y, num, q, kk, 4 * m + 3 * n + 3);
    lemma_near_agrees(x, y, num, q, 3 * n + 3, 4 * m + 3 * n + 3);
}

/// Multiplying the number of values in every centroid by an integer multiplies all weights, up to
/// two roundings each.
pub proof fn law_counts_are_proportional(cs: Seq<Centroid>, ds: Seq<Centroid>, k: int)
    requires
        k >= 1,
        ds.len() == cs.len(),
        forall|i: int| 0 <= i < cs.len() ==> (#[trigger] ds[i]).weight == k * cs[i].weight,
    ensures
        proportional(counts_of(cs), counts_of(ds), k, 2),
{
    let ws = counts_of(cs);
    let vs = counts_of(ds);
    assert forall|i: int| 0 <= i < ws.len() implies near(
        (#[trigger] vs[i]).value(),
        k * ws[i].value(),
        1,
        2,
    ) by {
        assert(ds[i].weight == k * cs[i].weight);
        law_whole_multiple_is_near(cs[i].weight as int, k);
        assert(vs[i] == whole(k * cs[i].weight));
    }
}

/// The same of weights that hold a power of the mean each, up to four roundings, as long as none
/// of them overflows or underflows.
pub proof fn law_weights_are_proportional(
    cs: Seq<Centroid>,
    ds: Seq<Centroid>,
    weight_power: Binary64,
    powers: Seq<Binary64>,
    k: int,
)
    requires
        k >= 1,
        ds.len() == cs.len(),
        powers.len() == cs.len(),
        forall|i: int| 0 <= i < cs.len() ==> (#[trigger] ds[i]).weight == k * cs[i].weight,
        products_unharmed(counts_of(cs), powers, weights_of(cs, weight_power, powers))
            || plain(weight_power),
        products_unharmed(counts_of(ds), powers, weights_of(ds, weight_power, powers))
            || plain(weight_power),
    ensures
        proportional(
            weights_of(cs, weight_power, powers),
            weights_of(ds, weight_power, powers),
            k,
            4,
        ),
{
    lemma_constants();
    let u = unity();
    let ws = weights_of(cs, weight_power, powers);
    let vs = weights_of(ds, weight_power, powers);
    law_counts_are_proportional(cs, ds, k);
    assert forall|i: int| 0 <= i < ws.len() implies near(
        (#[trigger] vs[i]).value(),
        k * ws[i].value(),
        1,
        4,
    ) by {
        let a = counts_of(cs)[i];
        let b = counts_of(ds)[i];
        assert(ds[i].weight == k * cs[i].weight);
        law_whole_is_finite(cs[i].weight as int);
        law_whole_is_finite(ds[i].weight as int);
        lemma_value_sign(a);
        lemma_value_sign(b);
        let x = a.value();
        let y = b.value();
        assert(near(y, k * x, 1, 2));
        assert(k * x >= 0) by (nonlinear_arith)
            requires
                k >= 1,
                x >= 0,
        ;
        if plain(weight_power) {
            lemma_near_weakens(y, k * x, 1, 2, 4);
        } else {
            let p = powers[i];
            assert(p.finite() && p.nonnegative());
            lemma_value_sign(p);
            law_product_is_near(a, p);
            law_product_is_near(b, p);
            let w = ws[i].value();
            let v = vs[i].value();
            let q = p.value();
            let xq = x * q;
            lemma_near_multiple(v, y, q, u, k * x, 1, 1, 2);
            assert(1 * u == u);
            assert((k * x) * q == k * xq) by (nonlinear_arith)
                requires
                    xq == x * q,
            ;
            lemma_near_times(w, xq, u, k, 1);
            lemma_near_agrees(v, k * w, k * xq, u, 3, 1);
            assert(v * 1 == v);
        }
    }
}

/// Multiples are near multiples.
proof fn lemma_near_times(x: int, num: int, den: int, k: int, n: int)
    requires
        near(x, num, den, n),
        k >= 0,
    ensures
        near(k * x, k * num, den, n),
{
    let l = below(n);
    let h = above(n);
    let p = x * den;
    assert(((k * x) * den) * l == k * (p * l) && ((k * x) * den) * h == k * (p * h))
        by (nonlinear_arith)
        requires
            p == x * den,
    ;
    assert((k * num) * l == k * (num * l) && (k * num) * h == k * (num * h)) by (nonlinear_arith);
    assert(k * (p * l) <= k * (num * h) && k * (num * l) <= k * (p * h)) by (nonlinear_arith)
        requires
            p * l <= num * h,
            num * l <= p * h,
            k >= 0,
    ;
}

} // verus!
