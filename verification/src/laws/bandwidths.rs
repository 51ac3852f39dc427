//! The rule of thumb for the bandwidth: multiplying all weights by a common factor changes it by
//! rounding alone.

use vstd::prelude::*;

use crate::binary64::arithmetic::{
    difference_of, distance, product_of, quotient_of, root_of, unity,
};
use crate::binary64::closeness::{
    above, below, law_product_is_near, law_quotient_is_near, lemma_near_cancels,
    lemma_near_multiple, lemma_near_quotient, lemma_near_square, lemma_powers,
    lemma_powers_multiply, near,
};
use crate::binary64::deviation::{
    around, law_product_is_near_either_side, law_quotient_is_near_either_side, law_root_is_near,
    law_sum_is_near_either_side, lemma_around_cancels, lemma_around_multiple, lemma_around_sum,
    lemma_around_weakens, lemma_near_is_around, lemma_near_zero, lemma_product_size,
    near_either_side,
};
use crate::binary64::laws::{
    law_product_of_nonnegative, law_quotient_of_nonnegative, lemma_constants,
};
use crate::binary64::number::{lemma_opposite, lemma_value_sign, of, opposite};
use crate::binary64::scaling::{product_unharmed, unharmed};
use crate::binary64::Binary64;
use crate::digest::Centroid;
use crate::kernel::{
    mean_of, mean_terms, rule_of_thumb, variance_of, variance_terms, RULE_FACTOR,
};
use crate::laws::common_factor::{
    all_near, lemma_exact_values, lemma_multiples_are_near, lemma_near_of_positive,
    lemma_sum_of_multiples, lemma_total_is_near, lemma_weighted_sum_of_multiples,
    lemma_weighted_total_is_near, multiples_of, products_unharmed, proportional, terms_of,
    values_of, weighted_sum,
};
use crate::laws::histograms::sum_of_counts;
use crate::laws::relative_weights::bounded;
use crate::weights::{lemma_total_step, total_of, weighty};

verus! {

/// The values of the means.
pub open spec fn mean_values(cs: Seq<Centroid>) -> Seq<int> {
    Seq::new(cs.len(), |i: int| cs[i].mean.value())
}

/// The sizes of the means.
pub open spec fn mean_sizes(cs: Seq<Centroid>) -> Seq<int> {
    Seq::new(cs.len(), |i: int| distance(cs[i].mean.value()))
}

/// The squared distances of the means from `c`, exactly.
pub open spec fn squares_about(cs: Seq<Centroid>, c: int) -> Seq<int> {
    Seq::new(cs.len(), |i: int| (cs[i].mean.value() - c) * (cs[i].mean.value() - c))
}

/// How far `c` lies from the exact weighted mean, times the total weight.
pub open spec fn mean_error(base: Seq<int>, cs: Seq<Centroid>, c: int) -> int {
    weighted_sum(base, mean_values(cs)) - c * sum_of_counts(base)
}

/// The squared distances of the means from `center`.
pub open spec fn spreads_of(cs: Seq<Centroid>, center: Binary64) -> Seq<Binary64> {
    Seq::new(
        cs.len(),
        |i: int| product_of(difference_of(cs[i].mean, center), difference_of(cs[i].mean, center)),
    )
}

/// The means.
pub open spec fn means_of(cs: Seq<Centroid>) -> Seq<Binary64> {
    Seq::new(cs.len(), |i: int| cs[i].mean)
}

/// The total of the means, each times its weight, over the total weight.
pub open spec fn center_of(cs: Seq<Centroid>, ws: Seq<Binary64>) -> Binary64 {
    quotient_of(total_of(terms_of(means_of(cs), ws)), total_of(ws))
}

/// The total of the squared distances from the center, each times its weight, over the total weight.
pub open spec fn spread_of(cs: Seq<Centroid>, ws: Seq<Binary64>) -> Binary64 {
    quotient_of(total_of(terms_of(ws, spreads_of(cs, center_of(cs, ws)))), total_of(ws))
}

/// The mean and the variance from their terms.
pub(crate) proof fn lemma_moments(cs: Seq<Centroid>, ws: Seq<Binary64>)
    requires
        ws.len() == cs.len(),
    ensures
        mean_terms(cs, ws) == terms_of(means_of(cs), ws),
        mean_of(cs, ws) == center_of(cs, ws),
        variance_terms(cs, ws, center_of(cs, ws)) == terms_of(
            ws,
            spreads_of(cs, center_of(cs, ws)),
        ),
        variance_of(cs, ws, mean_of(cs, ws)) == spread_of(cs, ws),
{
    assert(mean_terms(cs, ws) =~= terms_of(means_of(cs), ws));
    let center = center_of(cs, ws);
    assert(variance_terms(cs, ws, center) =~= terms_of(ws, spreads_of(cs, center)));
}

/// The mean and the variance of centroids with weights `ws` neither overflow nor underflow on the
/// way, and there is some weight.
pub open spec fn moments_unharmed(cs: Seq<Centroid>, ws: Seq<Binary64>) -> bool {
    let center = center_of(cs, ws);
    let sum = total_of(terms_of(means_of(cs), ws));
    let spread = terms_of(ws, spreads_of(cs, center));
    let all = total_of(ws);
    &&& ws.len() == cs.len()
    &&& weighty(ws)
    &&& bounded(ws)
    &&& forall|i: int| 0 <= i < ws.len() ==> (#[trigger] ws[i]).finite()
    &&& all.value() > 0
    &&& bounded(terms_of(means_of(cs), ws))
    &&& forall|i: int|
        0 <= i < cs.len() ==> {
            let apart = difference_of((#[trigger] cs[i]).mean, center);
            &&& cs[i].mean.finite()
            &&& product_unharmed(cs[i].mean, ws[i])
            &&& product_of(cs[i].mean, ws[i]).finite()
            &&& apart.finite()
            &&& product_unharmed(apart, apart)
        }
    &&& unharmed(distance(sum.value()) * unity(), all.value())
    &&& center.finite()
    &&& products_unharmed(ws, spreads_of(cs, center), spread)
    &&& unharmed(total_of(spread).value() * unity(), all.value())
    &&& spread_of(cs, ws).finite()
}

/// Each number is around the integer in its place over `den`.
pub open spec fn all_around(
    xs: Seq<Binary64>,
    nums: Seq<int>,
    den: int,
    sizes: Seq<int>,
    n: int,
) -> bool {
    &&& xs.len() == nums.len()
    &&& xs.len() == sizes.len()
    &&& forall|i: int|
        0 <= i < xs.len() ==> {
            &&& (#[trigger] xs[i]).finite()
            &&& around(xs[i].value(), nums[i], den, sizes[i], n)
        }
}

/// A total is around the total of what its terms are around.
pub(crate) proof fn lemma_total_is_around(
    xs: Seq<Binary64>,
    nums: Seq<int>,
    den: int,
    sizes: Seq<int>,
    n: int,
    k: int,
)
    requires
        all_around(xs, nums, den, sizes, n),
        bounded(xs),
        den > 0,
        n >= 0,
        0 <= k <= xs.len(),
    ensures
        around(
            total_of(xs.take(k)).value(),
            sum_of_counts(nums.take(k)),
            den,
            sum_of_counts(sizes.take(k)),
            n + k,
        ),
    decreases k,
{
    lemma_constants();
    lemma_powers(n + k);
    if k == 0 {
        assert(xs.take(0).len() == 0);
        assert(nums.take(0).len() == 0);
        assert(sizes.take(0).len() == 0);
        assert(0 * den == 0);
        assert(0 * below(n) == 0);
        assert((above(n) - below(n)) * 0 == 0);
    } else {
        let i = k - 1;
        lemma_total_is_around(xs, nums, den, sizes, n, i);
        lemma_total_step(xs, i);
        assert(nums.take(k).drop_last() =~= nums.take(i));
        assert(sizes.take(k).drop_last() =~= sizes.take(i));
        let before = total_of(xs.take(i));
        let now = total_of(xs.take(k));
        let x = xs[i];
        let a = sum_of_counts(nums.take(i));
        let s = sum_of_counts(sizes.take(i));
        let b = nums[i];
        let t = sizes[i];
        assert(x.finite() && before.finite() && now.finite());
        law_sum_is_near_either_side(before, x);
        lemma_around_weakens(x.value(), b, den, t, n, n + i);
        lemma_around_sum(before.value(), x.value(), a, b, den, s, t, n + i);
        let y = before.value() + x.value();
        lemma_near_is_around(now.value(), y, 1, 1);
        assert(y * 1 == y && (a + b) * 1 == a + b && den * 1 == den && (s + t) * 1 == s + t);
        lemma_around_multiple(now.value(), y, 1, 1, a + b, den, s + t, 1, n + i);
    }
}

/// The computed mean is around the exact one for weights that its weights are near.
pub(crate) proof fn lemma_mean_is_around(cs: Seq<Centroid>, ws: Seq<Binary64>, base: Seq<int>, m: int)
    requires
        moments_unharmed(cs, ws),
        all_near(ws, base, 1, m),
        m >= 0,
    ensures
        sum_of_counts(base) > 0,
        around(
            mean_of(cs, ws).value(),
            weighted_sum(base, mean_values(cs)),
            sum_of_counts(base),
            weighted_sum(base, mean_sizes(cs)),
            2 * m + 2 * cs.len() + 2,
        ),
{
    lemma_constants();
    let u = unity();
    let len = cs.len() as int;
    lemma_moments(cs, ws);
    let terms = mean_terms(cs, ws);
    let values = mean_values(cs);
    let nums = Seq::new(base.len(), |i: int| base[i] * values[i]);
    let mags = mean_sizes(cs);
    let sizes = Seq::new(base.len(), |i: int| base[i] * mags[i]);
    assert forall|i: int| 0 <= i < terms.len() implies {
        &&& (#[trigger] terms[i]).finite()
        &&& around(terms[i].value(), nums[i], u, sizes[i], 1 + m)
    } by {
        let mean = cs[i].mean;
        let w = ws[i];
        let b = base[i];
        assert(mean.finite() && w.finite() && w.nonnegative() && b >= 0);
        lemma_value_sign(w);
        law_product_is_near_either_side(mean, w);
        let p = terms[i].value();
        let v = mean.value();
        let x = w.value();
        let d = distance(v);
        lemma_product_size(v, x);
        lemma_product_size(v, b);
        // The size of the product, first with the weight, then with what the weight is near.
        assert(d * x == x * d) by (nonlinear_arith);
        lemma_near_multiple(distance(p), x, d, u, b, 1, 1, m);
        assert(1 * u == u);
        assert(d * b == b * d) by (nonlinear_arith);
        assert(near_either_side(p, v * b, u, 1 + m)) by {
            assert(v > 0 ==> v * x >= 0) by (nonlinear_arith)
                requires
                    x >= 0,
            ;
            assert(v < 0 ==> v * x <= 0) by (nonlinear_arith)
                requires
                    x >= 0,
            ;
            assert(v > 0 ==> v * b >= 0) by (nonlinear_arith)
                requires
                    b >= 0,
            ;
            assert(v < 0 ==> v * b <= 0) by (nonlinear_arith)
                requires
                    b >= 0,
            ;
            assert(v == 0 ==> v * x == 0 && v * b == 0) by (nonlinear_arith);
            if v * b == 0 {
                lemma_near_zero(distance(p), u, 1 + m);
            }
        }
        lemma_near_is_around(p, v * b, u, 1 + m);
        assert(v * b == b * v) by (nonlinear_arith);
    }
    lemma_total_is_around(terms, nums, u, sizes, 1 + m, len);
    assert(terms.take(len) == terms && nums.take(len) == nums && sizes.take(len) == sizes);
    // The total weight.
    lemma_total_is_near(ws, base, 1, m, len);
    assert(ws.take(len) == ws && base.take(len) == base);
    let sum = total_of(terms);
    let all = total_of(ws);
    let w = sum_of_counts(base);
    lemma_near_of_positive(all.value(), w, 1, m + len);
    // The quotient.
    let c = mean_of(cs, ws);
    assert(terms.take(len) == terms && sum.finite());
    law_quotient_is_near_either_side(sum, all);
    let su = sum.value() * u;
    lemma_near_quotient(distance(c.value()), distance(su), all.value(), w, 1, 1, m + len);
    assert(distance(su) * 1 == distance(su));
    lemma_near_is_around(c.value(), su, w, 1 + m + len);
    let num = sum_of_counts(nums);
    let size = sum_of_counts(sizes);
    lemma_around_multiple(
        c.value(),
        sum.value(),
        u,
        w,
        num,
        u,
        size,
        1 + m + len,
        1 + m + len,
    );
    assert(num * u == u * num && size * u == u * size) by (nonlinear_arith);
    lemma_around_cancels(c.value(), num, w, size, u, 2 + 2 * m + 2 * len);
}

/// Multiplying all weights by a common factor leaves the mean around the same exact mean.
pub proof fn law_mean_ignores_a_common_factor(
    cs: Seq<Centroid>,
    ws: Seq<Binary64>,
    vs: Seq<Binary64>,
    k: int,
    m: int,
)
    requires
        k >= 1,
        m >= 0,
        proportional(ws, vs, k, m),
        moments_unharmed(cs, ws),
        moments_unharmed(cs, vs),
    ensures
        around(
            mean_of(cs, ws).value(),
            weighted_sum(values_of(ws), mean_values(cs)),
            sum_of_counts(values_of(ws)),
            weighted_sum(values_of(ws), mean_sizes(cs)),
            2 * cs.len() as int + 2,
        ),
        around(
            mean_of(cs, vs).value(),
            weighted_sum(values_of(ws), mean_values(cs)),
            sum_of_counts(values_of(ws)),
            weighted_sum(values_of(ws), mean_sizes(cs)),
            2 * m + 2 * cs.len() + 2,
        ),
{
    let base = values_of(ws);
    let more = multiples_of(base, k);
    lemma_exact_values(ws);
    lemma_multiples_are_near(ws, vs, k, m);
    lemma_mean_is_around(cs, ws, base, 0);
    lemma_mean_is_around(cs, vs, more, m);
    lemma_sum_of_multiples(base, more, k);
    lemma_weighted_sum_of_multiples(base, mean_values(cs), k);
    lemma_weighted_sum_of_multiples(base, mean_sizes(cs), k);
    lemma_around_cancels(
        mean_of(cs, vs).value(),
        weighted_sum(base, mean_values(cs)),
        sum_of_counts(base),
        weighted_sum(base, mean_sizes(cs)),
        k,
        2 * m + 2 * cs.len() + 2,
    );
}

/// The variance of centroids with weights `ws` about `center` neither overflows nor underflows on the
/// way, and there is some weight.
pub open spec fn spread_unharmed(cs: Seq<Centroid>, ws: Seq<Binary64>, center: Binary64) -> bool {
    let spread = terms_of(ws, spreads_of(cs, center));
    let all = total_of(ws);
    &&& ws.len() == cs.len()
    &&& weighty(ws)
    &&& bounded(ws)
    &&& forall|i: int| 0 <= i < ws.len() ==> (#[trigger] ws[i]).finite()
    &&& all.value() > 0
    &&& center.finite()
    &&& forall|i: int|
        0 <= i < cs.len() ==> {
            let apart = difference_of((#[trigger] cs[i]).mean, center);
            &&& cs[i].mean.finite()
            &&& apart.finite()
            &&& product_unharmed(apart, apart)
        }
    &&& products_unharmed(ws, spreads_of(cs, center), spread)
    &&& unharmed(total_of(spread).value() * unity(), all.value())
    &&& quotient_of(total_of(spread), all).finite()
}

/// The computed variance is near the exact spread about its center.
pub(crate) proof fn lemma_spread_is_near(
    cs: Seq<Centroid>,
    ws: Seq<Binary64>,
    center: Binary64,
    base: Seq<int>,
    m: int,
)
    requires
        spread_unharmed(cs, ws, center),
        all_near(ws, base, 1, m),
        m >= 0,
    ensures
        sum_of_counts(base) > 0,
        variance_of(cs, ws, center).value() >= 0,
        variance_of(cs, ws, center).nonnegative(),
        weighted_sum(base, squares_about(cs, center.value())) >= 0,
        near(
            variance_of(cs, ws, center).value(),
            weighted_sum(base, squares_about(cs, center.value())),
            unity() * sum_of_counts(base),
            2 * m + 2 * cs.len() + 5,
        ),
{
    lemma_constants();
    let u = unity();
    let len = cs.len() as int;
    let c = center.value();
    let xs = spreads_of(cs, center);
    let nums = squares_about(cs, c);
    let terms = variance_terms(cs, ws, center);
    assert(terms =~= terms_of(ws, xs));
    lemma_opposite(center);
    assert forall|i: int| 0 <= i < xs.len() implies {
        &&& (#[trigger] xs[i]).finite()
        &&& xs[i].nonnegative()
        &&& nums[i] >= 0
        &&& near(xs[i].value(), nums[i], u, 3)
    } by {
        let mean = cs[i].mean;
        let apart = difference_of(mean, center);
        assert(mean.finite() && apart.finite());
        law_sum_is_near_either_side(mean, opposite(center));
        assert(spreads_of(cs, center)[i].finite() && xs[i] == product_of(apart, apart));
        law_product_is_near_either_side(apart, apart);
        let d = apart.value();
        let t = mean.value() - c;
        let s = distance(d);
        let e = distance(t);
        assert(d * d == s * s && t * t == e * e) by (nonlinear_arith)
            requires
                s == d || s == -d,
                e == t || e == -t,
        ;
        let x = xs[i].value();
        assert(d * d >= 0 && t * t >= 0) by (nonlinear_arith);
        assert(x >= 0);
        // Both factors of the square are near.
        lemma_near_multiple(x, s, s, u, e, 1, 1, 1);
        assert(1 * u == u);
        assert(e * s == s * e) by (nonlinear_arith);
        lemma_near_multiple(x, s, e, u, e, 1, 2, 1);
    }
    lemma_weighted_total_is_near(ws, xs, terms, base, nums, u, m, 3);
    lemma_total_is_near(ws, base, 1, m, len);
    assert(ws.take(len) == ws && base.take(len) == base);
    let sum = total_of(terms);
    let all = total_of(ws);
    let w = sum_of_counts(base);
    let q = weighted_sum(base, nums);
    lemma_near_of_positive(all.value(), w, 1, m + len);
    lemma_value_sign(sum);
    let r = variance_of(cs, ws, center);
    law_quotient_is_near(sum, all);
    law_quotient_of_nonnegative(sum, all);
    let su = sum.value() * u;
    assert(su >= 0) by (nonlinear_arith)
        requires
            su == sum.value() * u,
            sum.value() >= 0,
            u > 0,
    ;
    lemma_near_quotient(r.value(), su, all.value(), w, 1, 1, m + len);
    assert(su * 1 == su);
    let uu = u * u;
    assert(uu > 0) by (nonlinear_arith)
        requires
            uu == u * u,
            u > 0,
    ;
    lemma_near_multiple(r.value(), sum.value(), u, w, q, uu, 1 + m + len, 4 + m + len);
    assert(q * u == u * q && uu * w == u * (u * w)) by (nonlinear_arith)
        requires
            uu == u * u,
    ;
    lemma_near_cancels(r.value(), q, u * w, u, 5 + 2 * m + 2 * len);
}

/// The computed variance is near the exact spread about the computed mean.
pub(crate) proof fn lemma_variance_is_near(
    cs: Seq<Centroid>,
    ws: Seq<Binary64>,
    base: Seq<int>,
    m: int,
)
    requires
        moments_unharmed(cs, ws),
        all_near(ws, base, 1, m),
        m >= 0,
    ensures
        sum_of_counts(base) > 0,
        variance_of(cs, ws, mean_of(cs, ws)).value() >= 0,
        variance_of(cs, ws, mean_of(cs, ws)).nonnegative(),
        weighted_sum(base, squares_about(cs, mean_of(cs, ws).value())) >= 0,
        near(
            variance_of(cs, ws, mean_of(cs, ws)).value(),
            weighted_sum(base, squares_about(cs, mean_of(cs, ws).value())),
            unity() * sum_of_counts(base),
            2 * m + 2 * cs.len() + 5,
        ),
{
    lemma_moments(cs, ws);
    lemma_spread_is_near(cs, ws, mean_of(cs, ws), base, m);
}

/// The exact spread about `c`, from the moments.
proof fn lemma_spread(base: Seq<int>, cs: Seq<Centroid>, c: int)
    requires
        base.len() == cs.len(),
    ensures
        weighted_sum(base, squares_about(cs, c)) == weighted_sum(base, squares_about(cs, 0)) - 2
            * (c * weighted_sum(base, mean_values(cs))) + (c * c) * sum_of_counts(base),
    decreases base.len(),
{
    let xs = mean_values(cs);
    let full = Seq::new(base.len(), |i: int| base[i] * squares_about(cs, c)[i]);
    let plain = Seq::new(base.len(), |i: int| base[i] * squares_about(cs, 0)[i]);
    let first = Seq::new(base.len(), |i: int| base[i] * xs[i]);
    if base.len() > 0 {
        let n = base.len() - 1;
        let ds = cs.drop_last();
        let less = base.drop_last();
        lemma_spread(less, ds, c);
        assert(full.drop_last() =~= Seq::new(
            less.len(),
            |i: int| less[i] * squares_about(ds, c)[i],
        ));
        assert(plain.drop_last() =~= Seq::new(
            less.len(),
            |i: int| less[i] * squares_about(ds, 0)[i],
        ));
        assert(first.drop_last() =~= Seq::new(less.len(), |i: int| less[i] * mean_values(ds)[i]));
        let b = base[n];
        let x = cs[n].mean.value();
        let p = sum_of_counts(first.drop_last());
        let w = sum_of_counts(less);
        assert(b * ((x - c) * (x - c)) == b * (x * x) - 2 * (c * (b * x)) + (c * c) * b)
            by (nonlinear_arith);
        assert(c * (p + b * x) == c * p + c * (b * x)) by (nonlinear_arith);
        assert((c * c) * (w + b) == (c * c) * w + (c * c) * b) by (nonlinear_arith);
        assert((x - 0) * (x - 0) == x * x);
    } else {
        assert(c * 0 == 0 && (c * c) * 0 == 0);
    }
}

/// The exact spreads about two centers, times the total weight, differ by the squares of the
/// distances of the centers from the exact mean.
proof fn lemma_spreads_differ(base: Seq<int>, cs: Seq<Centroid>, c: int, d: int)
    requires
        base.len() == cs.len(),
    ensures
        sum_of_counts(base) * weighted_sum(base, squares_about(cs, c)) - sum_of_counts(base)
            * weighted_sum(base, squares_about(cs, d)) == mean_error(base, cs, c) * mean_error(
            base,
            cs,
            c,
        ) - mean_error(base, cs, d) * mean_error(base, cs, d),
{
    lemma_spread(base, cs, c);
    lemma_spread(base, cs, d);
    let w = sum_of_counts(base);
    let p = weighted_sum(base, mean_values(cs));
    let a = weighted_sum(base, squares_about(cs, 0));
    assert(w * (a - 2 * (c * p) + (c * c) * w) == (w * a - p * p) + (p - c * w) * (p - c * w))
        by (nonlinear_arith);
    assert(w * (a - 2 * (d * p) + (d * d) * w) == (w * a - p * p) + (p - d * w) * (p - d * w))
        by (nonlinear_arith);
}

/// Two variances, each near the exact spread about a center of its own.
proof fn lemma_variances_agree(
    v: int,
    x: int,
    q: int,
    r: int,
    g: int,
    h: int,
    u: int,
    w: int,
    n: int,
    m: int,
)
    requires
        near(v, q, u * w, n),
        near(x, r, u * w, m),
        w * q - w * r == g * g - h * h,
        u > 0,
        w > 0,
        n >= 0,
        m >= 0,
    ensures
        (v * (u * (w * w))) * below(n + m) <= (x * (u * (w * w)) + g * g) * above(n + m),
{
    lemma_powers_multiply(n, m);
    let ln = below(n);
    let hn = above(n);
    let lm = below(m);
    let hm = above(m);
    let scale = u * (w * w);
    let a = v * scale;
    let b = x * scale;
    let wq = w * q;
    let wr = w * r;
    let gg = g * g;
    let hh = h * h;
    assert(gg >= 0 && hh >= 0) by (nonlinear_arith)
        requires
            gg == g * g,
            hh == h * h,
    ;
    assert(a == w * (v * (u * w)) && b == w * (x * (u * w))) by (nonlinear_arith)
        requires
            a == v * scale,
            b == x * scale,
            scale == u * (w * w),
    ;
    let s = v * (u * w);
    let t = x * (u * w);
    assert(a * ln <= wq * hn) by (nonlinear_arith)
        requires
            a == w * s,
            wq == w * q,
            s * ln <= q * hn,
            w > 0,
    ;
    assert(wr * lm <= b * hm) by (nonlinear_arith)
        requires
            b == w * t,
            wr == w * r,
            r * lm <= t * hm,
            w > 0,
    ;
    assert(wq <= wr + gg);
    assert(a * (ln * lm) <= (wq * hn) * lm) by (nonlinear_arith)
        requires
            a * ln <= wq * hn,
            lm >= 1,
    ;
    assert((wq * hn) * lm <= ((wr + gg) * hn) * lm) by (nonlinear_arith)
        requires
            wq <= wr + gg,
            hn >= 1,
            lm >= 1,
    ;
    assert(((wr + gg) * hn) * lm == (wr * lm) * hn + (gg * lm) * hn) by (nonlinear_arith);
    assert((wr * lm) * hn <= (b * hm) * hn) by (nonlinear_arith)
        requires
            wr * lm <= b * hm,
            hn >= 1,
    ;
    assert((gg * lm) * hn <= (gg * hm) * hn) by (nonlinear_arith)
        requires
            gg >= 0,
            lm <= hm,
            hn >= 1,
    ;
    assert((b * hm) * hn + (gg * hm) * hn == (b + gg) * (hn * hm)) by (nonlinear_arith);
}

/// Multiplying all weights by a common factor changes the variance by rounding alone, and by the
/// square of what rounding did to the mean.
pub proof fn law_variance_ignores_a_common_factor(
    cs: Seq<Centroid>,
    ws: Seq<Binary64>,
    vs: Seq<Binary64>,
    k: int,
    m: int,
)
    requires
        k >= 1,
        m >= 0,
        proportional(ws, vs, k, m),
        moments_unharmed(cs, ws),
        moments_unharmed(cs, vs),
    ensures
        ({
            let base = values_of(ws);
            let scale = unity() * (sum_of_counts(base) * sum_of_counts(base));
            let c = mean_of(cs, ws);
            let d = mean_of(cs, vs);
            let g = mean_error(base, cs, c.value());
            let h = mean_error(base, cs, d.value());
            let x = variance_of(cs, ws, c).value() * scale;
            let y = variance_of(cs, vs, d).value() * scale;
            let n = 4 * cs.len() + 2 * m + 10;
            &&& x * below(n) <= (y + g * g) * above(n)
            &&& y * below(n) <= (x + h * h) * above(n)
        }),
{
    lemma_constants();
    let u = unity();
    let len = cs.len() as int;
    let base = values_of(ws);
    let more = multiples_of(base, k);
    lemma_exact_values(ws);
    lemma_multiples_are_near(ws, vs, k, m);
    lemma_variance_is_near(cs, ws, base, 0);
    lemma_variance_is_near(cs, vs, more, m);
    let w = sum_of_counts(base);
    let c = mean_of(cs, ws);
    let d = mean_of(cs, vs);
    let q = weighted_sum(base, squares_about(cs, c.value()));
    let r = weighted_sum(base, squares_about(cs, d.value()));
    let x = variance_of(cs, ws, c).value();
    let y = variance_of(cs, vs, d).value();
    lemma_sum_of_multiples(base, more, k);
    lemma_weighted_sum_of_multiples(base, squares_about(cs, d.value()), k);
    assert(u * (k * w) == k * (u * w)) by (nonlinear_arith);
    lemma_near_cancels(y, r, u * w, k, 2 * m + 2 * len + 5);
    lemma_spreads_differ(base, cs, c.value(), d.value());
    let g = mean_error(base, cs, c.value());
    let h = mean_error(base, cs, d.value());
    lemma_variances_agree(x, y, q, r, g, h, u, w, 2 * len + 5, 2 * m + 2 * len + 5);
    lemma_variances_agree(y, x, r, q, h, g, u, w, 2 * m + 2 * len + 5, 2 * len + 5);
}

/// The rule of thumb neither overflows nor underflows on the way, and gives something usable.
pub open spec fn thumb_unharmed(cs: Seq<Centroid>, ws: Seq<Binary64>, power: Binary64) -> bool {
    let deviation = root_of(spread_of(cs, ws));
    let wide = product_of(of(RULE_FACTOR), deviation);
    &&& moments_unharmed(cs, ws)
    &&& power.finite()
    &&& power.nonnegative()
    &&& deviation.finite()
    &&& product_unharmed(of(RULE_FACTOR), deviation)
    &&& wide.finite()
    &&& product_unharmed(wide, power)
    &&& product_of(wide, power).finite()
    &&& product_of(wide, power).value() > 0
}

/// The factor that the rule of thumb gives a standard deviation, in units.
pub open spec fn thumb_factor(power: Binary64) -> int {
    of(RULE_FACTOR).value() * power.value()
}

/// The square of the bandwidth of the rule of thumb is near a multiple of the variance.
pub(crate) proof fn lemma_thumb_is_near(
    cs: Seq<Centroid>,
    ws: Seq<Binary64>,
    dx: Binary64,
    power: Binary64,
    base: Seq<int>,
    m: int,
)
    requires
        thumb_unharmed(cs, ws, power),
        all_near(ws, base, 1, m),
        m >= 0,
    ensures
        near(
            rule_of_thumb(cs, ws, dx, power).value() * rule_of_thumb(cs, ws, dx, power).value(),
            variance_of(cs, ws, mean_of(cs, ws)).value() * (thumb_factor(power) * thumb_factor(
                power,
            )),
            unity() * (unity() * unity()),
            6,
        ),
{
    lemma_constants();
    lemma_thumb_constant();
    lemma_moments(cs, ws);
    lemma_variance_is_near(cs, ws, base, m);
    let u = unity();
    let variance = variance_of(cs, ws, mean_of(cs, ws));
    let deviation = root_of(variance);
    law_root_is_near(variance);
    lemma_value_sign(deviation);
    lemma_value_sign(power);
    let factor = of(RULE_FACTOR);
    let wide = product_of(factor, deviation);
    let rule = product_of(wide, power);
    law_product_is_near(factor, deviation);
    lemma_value_sign(wide);
    law_product_of_nonnegative(factor, deviation);
    law_product_is_near(wide, power);
    lemma_value_sign(rule);
    let f = factor.value();
    let s = deviation.value();
    let p = power.value();
    let v = variance.value();
    let x = rule.value();
    assert(rule_of_thumb(cs, ws, dx, power) == rule);
    let fs = f * s;
    assert(fs >= 0) by (nonlinear_arith)
        requires
            fs == f * s,
            f >= 0,
            s >= 0,
    ;
    lemma_near_multiple(x, wide.value(), p, u, fs, u, 1, 1);
    let all = fs * p;
    assert(all >= 0) by (nonlinear_arith)
        requires
            all == fs * p,
            fs >= 0,
            p >= 0,
    ;
    let uu = u * u;
    assert(uu > 0) by (nonlinear_arith)
        requires
            uu == u * u,
            u > 0,
    ;
    lemma_near_square(x, all, uu, 2);
    let k = thumb_factor(power);
    let kk = k * k;
    let ss = s * s;
    assert(all * all == ss * kk) by (nonlinear_arith)
        requires
            all == fs * p,
            fs == f * s,
            k == f * p,
            kk == k * k,
            ss == s * s,
    ;
    assert(kk >= 0 && ss >= 0 && x * x >= 0) by (nonlinear_arith)
        requires
            kk == k * k,
            ss == s * s,
    ;
    let vu = v * u;
    assert(vu >= 0) by (nonlinear_arith)
        requires
            vu == v * u,
            v >= 0,
            u > 0,
    ;
    assert(uu * uu > 0) by (nonlinear_arith)
        requires
            uu > 0,
    ;
    lemma_near_multiple(x * x, ss, kk, uu * uu, vu, 1, 4, 2);
    assert(1 * (uu * uu) == uu * uu);
    assert(vu * kk == u * (v * kk)) by (nonlinear_arith)
        requires
            vu == v * u,
    ;
    assert(uu * uu == u * (u * uu)) by (nonlinear_arith)
        requires
            uu == u * u,
    ;
    lemma_near_cancels(x * x, v * kk, u * uu, u, 6);
}

/// The factor of the rule of thumb is a positive number.
proof fn lemma_thumb_constant()
    ensures
        of(RULE_FACTOR).finite(),
        of(RULE_FACTOR).nonnegative(),
        of(RULE_FACTOR).value() >= 0,
{
    lemma_value_sign(of(RULE_FACTOR));
}

/// Two squares of bandwidths, each near a multiple of a variance of its own.
proof fn lemma_squares_agree(
    a: int,
    b: int,
    v: int,
    x: int,
    k: int,
    g: int,
    scale: int,
    n: int,
)
    requires
        a * below(6) <= (v * k) * above(6),
        (x * k) * below(6) <= b * above(6),
        (v * scale) * below(n) <= (x * scale + g) * above(n),
        k >= 0,
        g >= 0,
        scale >= 0,
        n >= 0,
    ensures
        (a * scale) * below(n + 12) <= (b * scale + k * g) * above(n + 12),
{
    lemma_powers_multiply(6, 6);
    lemma_powers_multiply(n, 12);
    let l = below(6);
    let h = above(6);
    let ln = below(n);
    let hn = above(n);
    let s = scale;
    let vk = v * k;
    let xk = x * k;
    let kg = k * g;
    assert(kg >= 0) by (nonlinear_arith)
        requires
            kg == k * g,
            k >= 0,
            g >= 0,
    ;
    let ll = l * ln;
    assert((a * s) * l <= (vk * s) * h) by (nonlinear_arith)
        requires
            a * l <= vk * h,
            s >= 0,
    ;
    assert((vk * s) * ln <= (xk * s + kg) * hn) by (nonlinear_arith)
        requires
            (v * s) * ln <= (x * s + g) * hn,
            vk == v * k,
            xk == x * k,
            kg == k * g,
            k >= 0,
    {
        assert((vk * s) * ln == k * ((v * s) * ln));
        assert((xk * s + kg) * hn == k * ((x * s + g) * hn));
    }
    assert((xk * s + kg) * l <= (b * s + kg) * h) by (nonlinear_arith)
        requires
            xk * l <= b * h,
            s >= 0,
            kg >= 0,
            l <= h,
    {
        assert((xk * l) * s <= (b * h) * s);
        assert(kg * l <= kg * h);
    }
    let p = a * s;
    let q = vk * s;
    let r = xk * s + kg;
    let t = b * s + kg;
    // The three steps, one after the other.
    assert((p * l) * (ln * l) <= (q * h) * (ln * l)) by (nonlinear_arith)
        requires
            p * l <= q * h,
            ln >= 1,
            l >= 1,
    ;
    assert((q * h) * (ln * l) == (q * ln) * (h * l)) by (nonlinear_arith);
    assert((q * ln) * (h * l) <= (r * hn) * (h * l)) by (nonlinear_arith)
        requires
            q * ln <= r * hn,
            h >= 1,
            l >= 1,
    ;
    assert((r * hn) * (h * l) == (r * l) * (h * hn)) by (nonlinear_arith);
    assert((r * l) * (h * hn) <= (t * h) * (h * hn)) by (nonlinear_arith)
        requires
            r * l <= t * h,
            h >= 1,
            hn >= 1,
    ;
    assert((p * l) * (ln * l) == p * (ln * (l * l))) by (nonlinear_arith);
    assert((t * h) * (h * hn) == t * (hn * (h * h))) by (nonlinear_arith);
}

/// Multiplying all weights by a common factor changes the bandwidth of the rule of thumb by
/// rounding alone: its square, by roundings and by the square of what rounding did to the mean.
pub proof fn law_rule_of_thumb_ignores_a_common_factor(
    cs: Seq<Centroid>,
    ws: Seq<Binary64>,
    vs: Seq<Binary64>,
    dx: Binary64,
    power: Binary64,
    k: int,
    m: int,
)
    requires
        k >= 1,
        m >= 0,
        proportional(ws, vs, k, m),
        thumb_unharmed(cs, ws, power),
        thumb_unharmed(cs, vs, power),
    ensures
        ({
            let base = values_of(ws);
            let u = unity();
            let scale = u * (sum_of_counts(base) * sum_of_counts(base));
            let f = thumb_factor(power);
            let g = mean_error(base, cs, mean_of(cs, ws).value());
            let h = mean_error(base, cs, mean_of(cs, vs).value());
            let r = rule_of_thumb(cs, ws, dx, power).value();
            let s = rule_of_thumb(cs, vs, dx, power).value();
            let x = ((r * r) * (u * (u * u))) * scale;
            let y = ((s * s) * (u * (u * u))) * scale;
            let n = 4 * cs.len() + 2 * m + 22;
            &&& x * below(n) <= (y + (f * f) * (g * g)) * above(n)
            &&& y * below(n) <= (x + (f * f) * (h * h)) * above(n)
        }),
{
    lemma_constants();
    let u = unity();
    let base = values_of(ws);
    let more = multiples_of(base, k);
    lemma_exact_values(ws);
    lemma_multiples_are_near(ws, vs, k, m);
    lemma_thumb_is_near(cs, ws, dx, power, base, 0);
    lemma_thumb_is_near(cs, vs, dx, power, more, m);
    law_variance_ignores_a_common_factor(cs, ws, vs, k, m);
    let w = sum_of_counts(base);
    let scale = u * (w * w);
    assert(scale >= 0) by (nonlinear_arith)
        requires
            scale == u * (w * w),
            u > 0,
    ;
    let f = thumb_factor(power);
    let g = mean_error(base, cs, mean_of(cs, ws).value());
    let h = mean_error(base, cs, mean_of(cs, vs).value());
    assert(f * f >= 0 && g * g >= 0 && h * h >= 0) by (nonlinear_arith);
    let r = rule_of_thumb(cs, ws, dx, power).value();
    let s = rule_of_thumb(cs, vs, dx, power).value();
    let a = (r * r) * (u * (u * u));
    let b = (s * s) * (u * (u * u));
    let v = variance_of(cs, ws, mean_of(cs, ws)).value();
    let x = variance_of(cs, vs, mean_of(cs, vs)).value();
    let n = 4 * cs.len() + 2 * m + 10;
    lemma_squares_agree(a, b, v, x, f * f, g * g, scale, n);
    lemma_squares_agree(b, a, x, v, f * f, h * h, scale, n);
}

} // verus!
