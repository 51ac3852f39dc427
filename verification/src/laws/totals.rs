//! Totals are sums, and weights are counts times powers, up to rounding.

use vstd::prelude::*;

use crate::binary64::arithmetic::{distance, product_of, sum_of, unity, whole};
use crate::binary64::closeness::{
    lemma_near_cancels, lemma_near_multiple, lemma_whole_is_near, near,
};
use crate::binary64::deviation::{
    around, law_product_is_near_either_side, lemma_near_zero, lemma_product_size, near_either_side,
};
use crate::binary64::errors::{law_product_error, spacing};
use crate::binary64::laws::{
    law_finite_between, law_sum_of_nonnegative, law_whole_is_exact, law_whole_is_finite,
    law_whole_keeps_order, law_whole_one, law_whole_zero, lemma_constants,
};
use crate::binary64::number::{lemma_signed, lemma_value_sign, of};
use crate::binary64::rank::{BLOCK, INFINITE};
use crate::binary64::scaling::product_unharmed;
use crate::binary64::Binary64;
use crate::digest::Centroid;
use crate::laws::bandwidths::{all_around, lemma_total_is_around};
use crate::laws::common_factor::{lemma_exact_values, lemma_total_is_near, values_of};
use crate::laws::histograms::sum_of_counts;
use crate::laws::relative_weights::bounded;
use crate::weights::{
    counts_of, law_running_total_grows, lemma_total_step, plain, raised, total_of, weights_of,
    weighty,
};

verus! {

/// The sizes of numbers.
pub open spec fn sizes_of(xs: Seq<Binary64>) -> Seq<int> {
    Seq::new(xs.len(), |i: int| distance(xs[i].value()))
}

/// A total starts at zero and takes one number after another.
pub proof fn law_total_takes_one_number_after_another(xs: Seq<Binary64>, x: Binary64)
    ensures
        total_of(Seq::<Binary64>::empty()) == of(0),
        total_of(xs.push(x)) == sum_of(total_of(xs), x),
{
    assert(xs.push(x).drop_last() =~= xs);
}

/// A total is the sum of the numbers, up to one rounding of the sum of their sizes for each of
/// them.
pub proof fn law_total_is_the_sum(xs: Seq<Binary64>)
    requires
        bounded(xs),
        forall|i: int| 0 <= i < xs.len() ==> (#[trigger] xs[i]).finite(),
    ensures
        around(
            total_of(xs).value(),
            sum_of_counts(values_of(xs)),
            1,
            sum_of_counts(sizes_of(xs)),
            xs.len() as int,
        ),
{
    let n = xs.len() as int;
    let nums = values_of(xs);
    let sizes = sizes_of(xs);
    assert(all_around(xs, nums, 1, sizes, 0)) by {
        assert forall|i: int| 0 <= i < xs.len() implies {
            &&& (#[trigger] xs[i]).finite()
            &&& around(xs[i].value(), nums[i], 1, sizes[i], 0)
        } by {
            assert(xs[i].value() * 1 == xs[i].value());
        }
    }
    lemma_total_is_around(xs, nums, 1, sizes, 0, n);
    assert(xs.take(n) == xs && nums.take(n) == nums && sizes.take(n) == sizes);
}

/// A finite total of numbers that are not negative is their sum, up to one rounding for each.
pub proof fn law_total_of_weights_is_the_sum(xs: Seq<Binary64>)
    requires
        weighty(xs),
        total_of(xs).finite(),
    ensures
        near(total_of(xs).value(), sum_of_counts(values_of(xs)), 1, xs.len() as int),
        total_of(xs).nonnegative(),
{
    let n = xs.len() as int;
    lemma_weights_are_bounded(xs);
    lemma_exact_values(xs);
    lemma_total_is_near(xs, values_of(xs), 1, 0, n);
    assert(xs.take(n) == xs && values_of(xs).take(n) == values_of(xs));
}

/// Where the total of weights is finite, so is every running total and every weight.
pub(crate) proof fn lemma_weights_are_bounded(xs: Seq<Binary64>)
    requires
        weighty(xs),
        total_of(xs).finite(),
    ensures
        bounded(xs),
        forall|i: int| 0 <= i < xs.len() ==> (#[trigger] xs[i]).finite(),
{
    lemma_constants();
    let n = xs.len() as int;
    assert(xs.take(n) == xs);
    assert forall|i: int| 0 <= i <= n implies (#[trigger] total_of(xs.take(i))).finite() by {
        law_running_total_grows(xs, i, n);
        law_finite_between(of(0), total_of(xs.take(i)), total_of(xs));
    }
    assert forall|i: int| 0 <= i < n implies (#[trigger] xs[i]).finite() by {
        lemma_total_step(xs, i);
        assert(xs[i].nonnegative());
        law_running_total_grows(xs, i, i + 1);
        let before = total_of(xs.take(i));
        let now = total_of(xs.take(i + 1));
        assert(now.finite() && before.finite());
        law_sum_of_nonnegative(before, xs[i]);
        law_finite_between(of(0), xs[i], now);
    }
}

/// Each weight is the number of values of its centroid, times the power of its mean unless the
/// weight power is zero.
pub proof fn law_weight_is_the_count_times_the_power(
    cs: Seq<Centroid>,
    weight_power: Binary64,
    powers: Seq<Binary64>,
    i: int,
)
    requires
        0 <= i < cs.len(),
    ensures
        weights_of(cs, weight_power, powers).len() == cs.len(),
        counts_of(cs).len() == cs.len(),
        counts_of(cs)[i] == whole(cs[i].weight as int),
        near(counts_of(cs)[i].value(), cs[i].weight * unity(), 1, 1),
        cs[i].weight <= 2 * BLOCK ==> counts_of(cs)[i].value() == cs[i].weight * unity(),
        weight_power.value() == 0 && !weight_power.nan() ==> weights_of(
            cs,
            weight_power,
            powers,
        )[i] == counts_of(cs)[i],
        weight_power.value() != 0 || weight_power.nan() ==> {
            let w = weights_of(cs, weight_power, powers)[i];
            let c = counts_of(cs)[i];
            let p = powers[i];
            &&& w == product_of(c, p)
            &&& p.finite() && w.finite() ==> 2 * distance(
                w.value() * unity() - c.value() * p.value(),
            ) <= spacing(w) * unity()
            &&& p.finite() && w.finite() && product_unharmed(c, p) ==> near_either_side(
                w.value(),
                cs[i].weight * p.value(),
                1,
                2,
            )
            &&& p.nan() ==> w.nan()
            &&& p.infinite() && cs[i].weight > 0 ==> w.infinite() && w.negative() == p.negative()
            &&& p.infinite() && cs[i].weight == 0 ==> w.nan()
        },
{
    lemma_constants();
    let n = cs[i].weight as int;
    let u = unity();
    let c = counts_of(cs)[i];
    law_whole_is_finite(n);
    lemma_whole_is_near(n);
    lemma_value_sign(c);
    if n <= 2 * BLOCK {
        law_whole_is_exact(n);
    }
    let w = weights_of(cs, weight_power, powers)[i];
    let p = powers[i];
    if weight_power.value() != 0 || weight_power.nan() {
        assert(w == product_of(c, p));
        if p.finite() && w.finite() {
            law_product_error(c, p);
            if product_unharmed(c, p) {
                law_product_is_near_either_side(c, p);
                let v = p.value();
                let x = c.value();
                let nu = n * u;
                assert(nu >= 0) by (nonlinear_arith)
                    requires
                        nu == n * u,
                        n >= 0,
                        u > 0,
                ;
                lemma_product_size(x, v);
                lemma_product_size(n, v);
                lemma_near_multiple(distance(w.value()), x, distance(v), u, nu, 1, 1, 1);
                assert(1 * u == u);
                let nv = n * distance(v);
                assert(nu * distance(v) == u * nv) by (nonlinear_arith)
                    requires
                        nu == n * u,
                        nv == n * distance(v),
                ;
                assert(u * 1 == u);
                lemma_near_cancels(distance(w.value()), nv, 1, u, 2);
                if n == 0 {
                    assert(nv == 0) by (nonlinear_arith)
                        requires
                            nv == n * distance(v),
                            n == 0,
                    ;
                    lemma_near_zero(distance(w.value()), 1, 2);
                }
                assert(near_either_side(w.value(), n * v, 1, 2)) by {
                    assert(v > 0 ==> x * v >= 0 && n * v >= 0) by (nonlinear_arith)
                        requires
                            x >= 0,
                            n >= 0,
                    ;
                    assert(v < 0 ==> x * v <= 0 && n * v <= 0) by (nonlinear_arith)
                        requires
                            x >= 0,
                            n >= 0,
                    ;
                    assert(v == 0 ==> x * v == 0 && n * v == 0) by (nonlinear_arith);
                    assert(n > 0 && v > 0 ==> n * v > 0) by (nonlinear_arith);
                    assert(n > 0 && v < 0 ==> n * v < 0) by (nonlinear_arith);
                }
            }
        }
        reveal(product_of);
        law_whole_zero();
        if n > 0 {
            law_whole_one();
            law_whole_keeps_order(1, n);
        }
        lemma_signed(c.negative() != p.negative(), INFINITE as int);
    }
}

/// The powers are what `powf` gave for the means and the weight power, in their order.
pub proof fn law_powers_are_those_of_the_means<P: Fn(Binary64, Binary64) -> Binary64>(
    powf: P,
    cs: Seq<Centroid>,
    weight_power: Binary64,
    powers: Seq<Binary64>,
)
    requires
        raised(powf, cs, weight_power, powers),
        !plain(weight_power),
    ensures
        powers.len() == cs.len(),
        forall|i: int|
            0 <= i < cs.len() ==> call_ensures(
                powf,
                (cs[i].mean, weight_power),
                #[trigger] powers[i],
            ),
{
}

} // verus!
