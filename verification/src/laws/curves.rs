//! What a kernel density is: normal curves around the centroids, evaluated in the middle of equal
//! bins.

use vstd::prelude::*;

use crate::binary64::arithmetic::{
    difference_of, distance, product_of, quotient_of, root_of, unity, whole,
};
use crate::binary64::closeness::{
    law_quotient_is_near, lemma_near_cancels, lemma_near_exact, lemma_near_quotient,
    lemma_near_square, near,
};
use crate::binary64::deviation::{
    around, law_product_is_near_either_side, law_quotient_is_near_either_side, law_root_is_near,
};
use crate::binary64::errors::{law_half_error, lemma_rounding_unit, rounding_unit, spacing};
use crate::binary64::laws::{
    law_difference_is_a_number, law_difference_of_ordered, law_quotient_of_nonnegative,
    law_whole_is_exact, law_whole_keeps_order, law_whole_one, lemma_constants,
};
use crate::binary64::number::{lemma_opposite, lemma_value_sign, of, opposite, HUNDRED, TWO};
use crate::binary64::powers::{lemma_two_to_positive, lemma_two_to_step, two_to};
use crate::binary64::rank::{lemma_rank_parts, BLOCK, SIGN};
use crate::binary64::scaling::unharmed;
use crate::binary64::Binary64;
use crate::density::{grid_at, step_of};
use crate::digest::{Centroid, TDigestView};
use crate::kernel::{
    center_at, effective_count_of, exponent_at, is_bandwidth, is_digest_kernel_density,
    kernel_bin, kernel_density_of, mean_of, normal_of, raised_row, raised_rows, rule_of_thumb,
    square_terms, variance_of, variance_terms, RULE_EXPONENT, RULE_FACTOR, TWO_PI,
};
use crate::laws::automatic::{exponent_unharmed, lemma_exponent_is_near, lemma_root_of_two_pi};
use crate::laws::bandwidths::{
    center_of, lemma_mean_is_around, lemma_moments, lemma_spread_is_near, lemma_thumb_is_near,
    mean_sizes, mean_values, moments_unharmed, spread_of, spread_unharmed, spreads_of,
    squares_about, thumb_factor, thumb_unharmed,
};
use crate::laws::bins::{even_edges, grid_edges, lemma_grid_edges};
use crate::laws::common_factor::{
    bin_unharmed, count_unharmed, curves_of, exact_dividend, exact_divisor, lemma_bin_is_near,
    lemma_count_is_near, lemma_exact_values, lemma_kernel_terms, lemma_near_of_positive,
    lemma_total_is_near, terms_of, values_of, weighted_sum,
};
use crate::laws::grids::{
    law_bins_have_equal_widths, law_grid_between_moderate_ends_is_finite,
    law_points_lie_between_the_edges_of_their_bins, law_points_lie_in_the_middle_of_their_bins,
    moderate,
};
use crate::laws::histograms::sum_of_counts;
use crate::laws::round_trip::larger;
use crate::weights::total_of;

verus! {

/// The effective count of weights is the square of their sum over the sum of their squares, up to
/// rounding.
pub proof fn law_effective_count_is_near(ws: Seq<Binary64>)
    requires
        count_unharmed(ws),
        forall|i: int| 0 <= i < ws.len() ==> (#[trigger] ws[i]).finite(),
    ensures
        ({
            let sum = sum_of_counts(values_of(ws));
            near(
                effective_count_of(ws).value(),
                (sum * sum) * unity(),
                weighted_sum(values_of(ws), values_of(ws)),
                3 * ws.len() as int + 3,
            )
        }),
{
    lemma_exact_values(ws);
    lemma_count_is_near(ws, values_of(ws), 0);
}

/// The weighted mean is the sum of the means, each times its weight, over the sum of the weights, up
/// to rounding.
pub proof fn law_mean_is_around(cs: Seq<Centroid>, ws: Seq<Binary64>)
    requires
        moments_unharmed(cs, ws),
    ensures
        around(
            mean_of(cs, ws).value(),
            weighted_sum(values_of(ws), mean_values(cs)),
            sum_of_counts(values_of(ws)),
            weighted_sum(values_of(ws), mean_sizes(cs)),
            2 * cs.len() as int + 2,
        ),
{
    lemma_exact_values(ws);
    lemma_mean_is_around(cs, ws, values_of(ws), 0);
}

/// The weighted variance about a center is the sum of the squared distances from it, each times its
/// weight, over the sum of the weights, up to rounding.
pub proof fn law_variance_is_near(cs: Seq<Centroid>, ws: Seq<Binary64>, center: Binary64)
    requires
        spread_unharmed(cs, ws, center),
    ensures
        variance_of(cs, ws, center).finite(),
        variance_of(cs, ws, center).value() >= 0,
        near(
            variance_of(cs, ws, center).value(),
            weighted_sum(values_of(ws), squares_about(cs, center.value())),
            unity() * sum_of_counts(values_of(ws)),
            2 * cs.len() as int + 5,
        ),
{
    assert(variance_terms(cs, ws, center) =~= terms_of(ws, spreads_of(cs, center)));
    lemma_exact_values(ws);
    lemma_spread_is_near(cs, ws, center, values_of(ws), 0);
}

/// The square of the normal curve is the square of its exponential over two pi, up to rounding.
pub proof fn law_normal_curve_is_near(exponential: Binary64)
    requires
        exponential.finite(),
        exponential.nonnegative(),
        quotient_of(exponential, root_of(of(TWO_PI))).finite(),
        unharmed(exponential.value() * unity(), root_of(of(TWO_PI)).value()),
    ensures
        normal_of(exponential).value() >= 0,
        near(
            normal_of(exponential).value() * normal_of(exponential).value(),
            (exponential.value() * exponential.value()) * unity(),
            of(TWO_PI).value(),
            4,
        ),
{
    lemma_constants();
    lemma_root_of_two_pi();
    let u = unity();
    let root = root_of(of(TWO_PI));
    let e = exponential.value();
    let c = normal_of(exponential).value();
    let t = of(TWO_PI).value();
    lemma_value_sign(exponential);
    lemma_value_sign(of(TWO_PI));
    law_quotient_is_near(exponential, root);
    law_root_is_near(of(TWO_PI));
    let eu = e * u;
    let r = root.value();
    assert(eu >= 0) by (nonlinear_arith)
        requires
            eu == e * u,
            e >= 0,
            u > 0,
    ;
    lemma_near_square(c, eu, r, 1);
    assert(c * c >= 0 && eu * eu >= 0) by (nonlinear_arith);
    assert(r * r > 0) by (nonlinear_arith)
        requires
            r > 0,
    ;
    let tu = t * u;
    assert(tu > 0) by (nonlinear_arith)
        requires
            tu == t * u,
            t > 0,
            u > 0,
    ;
    lemma_near_quotient(c * c, eu * eu, r * r, tu, 1, 2, 2);
    assert((eu * eu) * 1 == u * ((e * e) * u)) by (nonlinear_arith)
        requires
            eu == e * u,
    ;
    assert(tu == u * t) by (nonlinear_arith)
        requires
            tu == t * u,
    ;
    lemma_near_cancels(c * c, (e * e) * u, t, u, 4);
}

/// The exponent of a normal curve is minus half the square of the distance from the mean in units of
/// the bandwidth, up to rounding.
pub proof fn law_exponent_is_near(x: Binary64, mean: Binary64, bandwidth: Binary64)
    requires
        exponent_unharmed(x, mean, bandwidth),
    ensures
        exponent_at(x, mean, bandwidth).finite(),
        exponent_at(x, mean, bandwidth).value() <= 0,
        ({
            let t = distance(difference_of(x, mean).value()) * unity();
            near(
                -exponent_at(x, mean, bandwidth).value(),
                (t * t) * unity(),
                (unity() * (bandwidth.value() * bandwidth.value())) * (2 * unity()),
                4,
            )
        }),
{
    lemma_constants();
    let one = unity();
    let bw = bandwidth.value();
    assert(bw * 1 == bw);
    lemma_near_exact(bw, bw, 1);
    lemma_exponent_is_near(x, mean, bandwidth, bw, 0);
    let apart = difference_of(x, mean);
    let u = quotient_of(apart, bandwidth);
    let square = product_of(opposite(u), u);
    lemma_opposite(u);
    law_product_is_near_either_side(opposite(u), u);
    let v = u.value();
    assert((-v) * v <= 0) by (nonlinear_arith);
    law_quotient_is_near_either_side(square, of(TWO));
    let s = square.value();
    assert(s * one <= 0) by (nonlinear_arith)
        requires
            s <= 0,
            one > 0,
    ;
}

/// The constants of a kernel density: 1.06 and -1/5 for the rule of thumb, and two pi for the normal
/// curve, each up to its last digit.
pub proof fn law_constants_are_near()
    ensures
        of(RULE_FACTOR).finite(),
        distance(100 * of(RULE_FACTOR).value() - 106 * unity()) <= 100 * rounding_unit(),
        of(RULE_EXPONENT).finite(),
        distance(5 * of(RULE_EXPONENT).value() + unity()) <= rounding_unit(),
        of(TWO_PI).finite(),
        distance(1_000_000_000_000_000 * of(TWO_PI).value() - 6_283_185_307_179_586 * unity())
            <= 4_000_000_000_000_000 * rounding_unit(),
{
    lemma_constants();
    lemma_rounding_unit();
    lemma_rank_parts(1022, 0x10_F5C2_8F5C_28F6);
    assert(1022 * BLOCK + 0x10_F5C2_8F5C_28F6 == RULE_FACTOR);
    lemma_rank_parts(1019, 0x19_9999_9999_999A);
    assert(1019 * BLOCK + 0x19_9999_9999_999A + SIGN == RULE_EXPONENT);
    lemma_rank_parts(1024, 0x19_21FB_5444_2D18);
    assert(1024 * BLOCK + 0x19_21FB_5444_2D18 == TWO_PI);
    let p = two_to(1019);
    lemma_two_to_positive(1019);
    lemma_two_to_step(1020);
    lemma_two_to_step(1021);
    lemma_two_to_step(1022);
    lemma_two_to_step(1023);
    lemma_two_to_step(1024);
    let u = unity();
    assert(u == 0x80_0000_0000_0000 * p) by (nonlinear_arith)
        requires
            u == 2 * BLOCK * (4 * p),
            BLOCK == 0x10_0000_0000_0000,
    ;
    assert(0x10_F5C2_8F5C_28F6 * two_to(1022) == 0x10_F5C2_8F5C_28F6 * (8 * p));
    assert(0x19_21FB_5444_2D18 * two_to(1024) == 0x19_21FB_5444_2D18 * (32 * p));
}

/// `dx` is the width of one of `n` equal bins between two ends, up to rounding.
pub open spec fn even_width(n: int, x_min: Binary64, x_max: Binary64, dx: Binary64) -> bool {
    &&& dx.finite()
    &&& distance(n * dx.value() - (x_max.value() - x_min.value())) <= 6 * larger(
        spacing(x_min),
        spacing(x_max),
    ) + n
    &&& x_min.le(x_max) ==> dx.nonnegative()
}

/// Each of `n` points is the middle of its bin, up to rounding, and lies between the edges of the
/// bin. Between moderate ends none of them overflows.
pub open spec fn even_points(
    n: int,
    x_min: Binary64,
    x_max: Binary64,
    edges: Seq<Binary64>,
    points: Seq<Binary64>,
) -> bool {
    let s = larger(spacing(x_min), spacing(x_max));
    &&& points.len() == n
    &&& forall|i: int|
        0 <= i < n ==> {
            &&& moderate(x_min, x_max) ==> (#[trigger] points[i]).finite()
            &&& x_min.le(x_max) ==> {
                &&& edges[i].le(points[i])
                &&& points[i].le(edges[i + 1])
                &&& x_min.le(points[i])
            }
            &&& points[i].finite() ==> distance(
                2 * n * points[i].value() - (2 * n * x_min.value() + (2 * i + 1) * (x_max.value()
                    - x_min.value())),
            ) <= 2 * n * (20 * s + n)
        }
}

/// `count` is the square of the total weight over the total of the squared weights, and so that of
/// their exact sums, up to rounding.
pub open spec fn counts_effectively(ws: Seq<Binary64>, count: Binary64) -> bool {
    let base = values_of(ws);
    let sum = sum_of_counts(base);
    let all = total_of(ws);
    &&& count == quotient_of(product_of(all, all), total_of(terms_of(ws, ws)))
    &&& count_unharmed(ws) && (forall|i: int| 0 <= i < ws.len() ==> (#[trigger] ws[i]).finite())
        ==> near(
        count.value(),
        (sum * sum) * unity(),
        weighted_sum(base, base),
        3 * ws.len() as int + 3,
    )
}

/// The square of `bw` is 1.06 squared, times the square of `power`, times the variance, up to
/// rounding; where that gives nothing usable, `bw` is half of `dx`.
pub open spec fn follows_the_rule(
    cs: Seq<Centroid>,
    ws: Seq<Binary64>,
    dx: Binary64,
    power: Binary64,
    bw: Binary64,
) -> bool {
    let wide = product_of(of(RULE_FACTOR), root_of(spread_of(cs, ws)));
    let rule = product_of(wide, power);
    let f = thumb_factor(power);
    let base = values_of(ws);
    &&& thumb_unharmed(cs, ws, power) ==> {
        &&& bw.finite()
        &&& bw.value() > 0
        &&& near(
            bw.value() * bw.value(),
            spread_of(cs, ws).value() * (f * f),
            unity() * (unity() * unity()),
            6,
        )
        &&& near(
            spread_of(cs, ws).value(),
            weighted_sum(base, squares_about(cs, center_of(cs, ws).value())),
            unity() * sum_of_counts(base),
            2 * cs.len() as int + 5,
        )
        &&& around(
            center_of(cs, ws).value(),
            weighted_sum(base, mean_values(cs)),
            sum_of_counts(base),
            weighted_sum(base, mean_sizes(cs)),
            2 * cs.len() as int + 2,
        )
    }
    &&& of(0).lt(rule) && rule.finite() ==> bw == rule
    &&& rule.le(of(0)) || !rule.finite() ==> bw.finite() && distance(2 * bw.value() - dx.value())
        <= 1
}

/// `bw` is the bandwidth of a kernel density: the one that was asked for if it is positive, or else
/// that of the rule of thumb, with what `powf` gave for the effective count and -1/5.
pub open spec fn uses_bandwidth<P: Fn(Binary64, Binary64) -> Binary64>(
    powf: P,
    cs: Seq<Centroid>,
    ws: Seq<Binary64>,
    dx: Binary64,
    bandwidth: Binary64,
    bw: Binary64,
) -> bool {
    &&& !bandwidth.le(of(0)) ==> bw == bandwidth
    &&& bandwidth.le(of(0)) ==> exists|count: Binary64, power: Binary64|
        {
            &&& #[trigger] call_ensures(powf, (count, of(RULE_EXPONENT)), power)
            &&& counts_effectively(ws, count)
            &&& follows_the_rule(cs, ws, dx, power, bw)
        }
}

/// `exponent` is minus half the square of the distance of `x` from `mean` in units of the bandwidth,
/// up to rounding.
pub open spec fn is_exponent(
    x: Binary64,
    mean: Binary64,
    bandwidth: Binary64,
    exponent: Binary64,
) -> bool {
    let t = distance(difference_of(x, mean).value()) * unity();
    let u = quotient_of(difference_of(x, mean), bandwidth);
    &&& exponent == quotient_of(product_of(opposite(u), u), of(TWO))
    &&& exponent_unharmed(x, mean, bandwidth) ==> {
        &&& exponent.finite()
        &&& exponent.value() <= 0
        &&& near(
            -exponent.value(),
            (t * t) * unity(),
            (unity() * (bandwidth.value() * bandwidth.value())) * (2 * unity()),
            4,
        )
    }
}

/// `bin` is a hundred times the width of the bin, times the sum of the normal curves with the given
/// exponentials, each times its weight, over the bandwidth and the sum of the weights, up to
/// rounding.
pub open spec fn sums_curves(
    ws: Seq<Binary64>,
    row: Seq<Binary64>,
    bandwidth: Binary64,
    dx: Binary64,
    bin: Binary64,
) -> bool {
    let base = values_of(ws);
    let height = quotient_of(
        total_of(terms_of(ws, curves_of(row))),
        product_of(total_of(ws), bandwidth),
    );
    &&& bin == product_of(product_of(height, dx), of(HUNDRED))
    &&& bin_unharmed(ws, row, bandwidth, dx) ==> {
        &&& bin.finite()
        &&& bin.value() >= 0
        &&& near(
            bin.value(),
            exact_dividend(base, values_of(curves_of(row)), dx),
            exact_divisor(base, bandwidth.value()),
            2 * ws.len() as int + 5,
        )
    }
}

/// The bandwidth that is used follows the rule.
proof fn lemma_bandwidth<P: Fn(Binary64, Binary64) -> Binary64>(
    powf: P,
    cs: Seq<Centroid>,
    ws: Seq<Binary64>,
    dx: Binary64,
    bandwidth: Binary64,
    bw: Binary64,
)
    requires
        is_bandwidth(powf, cs, ws, dx, bandwidth, bw),
        ws.len() == cs.len(),
        dx.finite(),
    ensures
        uses_bandwidth(powf, cs, ws, dx, bandwidth, bw),
{
    if bandwidth.le(of(0)) {
        let count = effective_count_of(ws);
        let power = choose|power: Binary64|
            {
                &&& #[trigger] call_ensures(powf, (effective_count_of(ws), of(RULE_EXPONENT)), power)
                &&& bw == rule_of_thumb(cs, ws, dx, power)
            };
        if count_unharmed(ws) && (forall|i: int|
            0 <= i < ws.len() ==> (#[trigger] ws[i]).finite()) {
            law_effective_count_is_near(ws);
        }
        assert(square_terms(ws) =~= terms_of(ws, ws));
        lemma_moments(cs, ws);
        law_half_error(dx);
        if thumb_unharmed(cs, ws, power) {
            lemma_constants();
            lemma_exact_values(ws);
            lemma_thumb_is_near(cs, ws, dx, power, values_of(ws), 0);
            law_variance_is_near(cs, ws, center_of(cs, ws));
            law_mean_is_around(cs, ws);
        }
        assert(counts_effectively(ws, count));
        assert(follows_the_rule(cs, ws, dx, power, bw));
    }
}

/// A bin is the sum of its curves.
proof fn lemma_bin(
    ws: Seq<Binary64>,
    row: Seq<Binary64>,
    bandwidth: Binary64,
    dx: Binary64,
)
    requires
        row.len() == ws.len(),
    ensures
        sums_curves(ws, row, bandwidth, dx, kernel_bin(ws, row, bandwidth, dx)),
{
    lemma_kernel_terms(ws, row);
    if bin_unharmed(ws, row, bandwidth, dx) {
        let base = values_of(ws);
        let n = ws.len() as int;
        let bw = bandwidth.value();
        lemma_exact_values(ws);
        lemma_exact_values(curves_of(row));
        lemma_total_is_near(ws, base, 1, 0, n);
        assert(ws.take(n) == ws && base.take(n) == base);
        lemma_near_of_positive(total_of(ws).value(), sum_of_counts(base), 1, n);
        assert(bw * 1 == bw);
        lemma_near_exact(bw, bw, 1);
        lemma_bin_is_near(ws, row, bandwidth, dx, base, values_of(curves_of(row)), bw, 0, 0, 0);
    }
}

/// A kernel density holds, for each of `num_points` equal bins between the ends, what the normal
/// curves around the centroids add up to at the middle of the bin. The exponentials are what `exp`
/// gave for the exponents.
pub proof fn law_kernel_density_is_made_of_normal_curves<
    P: Fn(Binary64, Binary64) -> Binary64,
    X: Fn(Binary64) -> Binary64,
>(
    powf: P,
    exp: X,
    digest: TDigestView,
    ws: Seq<Binary64>,
    num_points: i32,
    x_min: Binary64,
    x_max: Binary64,
    bandwidth: Binary64,
    r: Seq<Binary64>,
) -> (res: (
    Binary64,
    Binary64,
    Seq<Binary64>,
    Seq<Binary64>,
    Seq<Seq<Binary64>>,
    Seq<Seq<Binary64>>,
))
    requires
        is_digest_kernel_density(
            powf,
            exp,
            digest,
            ws,
            num_points,
            x_min,
            x_max,
            bandwidth,
            r,
        ),
        num_points > 0,
        digest.count > 0,
        ws.len() == digest.centroids.len(),
        !total_of(ws).same(of(0)),
        x_min.finite(),
        x_max.finite(),
        step_of(num_points as int, x_min, x_max).finite(),
    ensures
        ({
            let (dx, bw, edges, points, exponents, rows) = res;
            let n = num_points as int;
            let cs = digest.centroids;
            &&& even_width(n, x_min, x_max, dx)
            &&& even_edges(n, x_min, x_max, edges)
            &&& even_points(n, x_min, x_max, edges, points)
            &&& uses_bandwidth(powf, cs, ws, dx, bandwidth, bw)
            &&& exponents.len() == n
            &&& rows.len() == n
            &&& forall|i: int|
                0 <= i < n ==> exponents[i].len() == cs.len() && (#[trigger] rows[i]).len()
                    == cs.len()
            &&& forall|i: int, j: int|
                0 <= i < n && 0 <= j < cs.len() ==> is_exponent(
                    points[i],
                    cs[j].mean,
                    bw,
                    #[trigger] exponents[i][j],
                )
            &&& forall|i: int, j: int|
                0 <= i < n && 0 <= j < cs.len() ==> call_ensures(
                    exp,
                    (exponents[i][j],),
                    #[trigger] rows[i][j],
                )
            &&& r.len() == n
            &&& forall|i: int|
                0 <= i < n ==> sums_curves(ws, rows[i], bw, dx, #[trigger] r[i])
        }),
{
    let n = num_points as int;
    let cs = digest.centroids;
    let dx = step_of(n, x_min, x_max);
    let (bw, rows) = choose|bw: Binary64, rows: Seq<Seq<Binary64>>|
        {
            &&& #[trigger] is_bandwidth(powf, cs, ws, dx, bandwidth, bw)
            &&& #[trigger] raised_rows(exp, cs, n, x_min, dx, bw, rows)
            &&& r == kernel_density_of(ws, rows, bw, dx)
        };
    let edges = grid_edges(n, x_min, x_max);
    let points = Seq::new(n as nat, |i: int| center_at(x_min, dx, i));
    let exponents = Seq::new(
        n as nat,
        |i: int| Seq::new(cs.len(), |j: int| exponent_at(center_at(x_min, dx, i), cs[j].mean, bw)),
    );
    law_bins_have_equal_widths(n, x_min, x_max);
    lemma_grid_edges(n, x_min, x_max);
    assert(even_width(n, x_min, x_max, dx)) by {
        if x_min.le(x_max) {
            lemma_width_sign(n, x_min, x_max);
        }
    }
    assert(even_points(n, x_min, x_max, edges, points)) by {
        assert forall|i: int| 0 <= i < n implies {
            &&& moderate(x_min, x_max) ==> (#[trigger] points[i]).finite()
            &&& x_min.le(x_max) ==> {
                &&& edges[i].le(points[i])
                &&& points[i].le(edges[i + 1])
                &&& x_min.le(points[i])
            }
            &&& points[i].finite() ==> distance(
                2 * n * points[i].value() - (2 * n * x_min.value() + (2 * i + 1) * (x_max.value()
                    - x_min.value())),
            ) <= 2 * n * (20 * larger(spacing(x_min), spacing(x_max)) + n)
        } by {
            assert(points[i] == center_at(x_min, dx, i));
            assert(edges[i] == grid_at(x_min, dx, i) && edges[i + 1] == grid_at(x_min, dx, i + 1));
            if moderate(x_min, x_max) {
                law_grid_between_moderate_ends_is_finite(n, x_min, x_max, i);
            }
            if x_min.le(x_max) {
                law_points_lie_between_the_edges_of_their_bins(n, x_min, x_max, i);
            }
            if points[i].finite() {
                law_points_lie_in_the_middle_of_their_bins(n, x_min, x_max, i);
            }
        }
    }
    lemma_bandwidth(powf, cs, ws, dx, bandwidth, bw);
    assert forall|i: int| 0 <= i < n implies exponents[i].len() == cs.len() && (
    #[trigger] rows[i]).len() == cs.len() by {
        assert(raised_row(exp, cs, center_at(x_min, dx, i), bw, rows[i]));
    }
    assert forall|i: int, j: int| 0 <= i < n && 0 <= j < cs.len() implies is_exponent(
        points[i],
        cs[j].mean,
        bw,
        #[trigger] exponents[i][j],
    ) by {
        let x = center_at(x_min, dx, i);
        assert(points[i] == x);
        assert(exponents[i][j] == exponent_at(x, cs[j].mean, bw));
        if exponent_unharmed(x, cs[j].mean, bw) {
            law_exponent_is_near(x, cs[j].mean, bw);
        }
    }
    assert forall|i: int, j: int| 0 <= i < n && 0 <= j < cs.len() implies call_ensures(
        exp,
        (exponents[i][j],),
        #[trigger] rows[i][j],
    ) by {
        assert(raised_row(exp, cs, center_at(x_min, dx, i), bw, rows[i]));
        assert(exponents[i][j] == exponent_at(center_at(x_min, dx, i), cs[j].mean, bw));
    }
    assert forall|i: int| 0 <= i < n implies sums_curves(ws, rows[i], bw, dx, #[trigger] r[i]) by {
        assert(raised_row(exp, cs, center_at(x_min, dx, i), bw, rows[i]));
        lemma_bin(ws, rows[i], bw, dx);
        assert(r[i] == kernel_bin(ws, rows[i], bw, dx));
    }
    (dx, bw, edges, points, exponents, rows)
}

/// The width of a bin between ordered ends is not negative.
proof fn lemma_width_sign(n: int, x_min: Binary64, x_max: Binary64)
    requires
        x_min.finite(),
        x_max.finite(),
        x_min.le(x_max),
        1 <= n <= i32::MAX,
    ensures
        step_of(n, x_min, x_max).nonnegative(),
{
    lemma_constants();
    law_whole_is_exact(n);
    law_whole_one();
    law_whole_keeps_order(1, n);
    law_difference_is_a_number(x_max, x_min);
    law_difference_of_ordered(x_max, x_min);
    law_quotient_of_nonnegative(difference_of(x_max, x_min), whole(n));
}

/// Without points there is no bin; without values, and without weight, every bin is zero.
pub proof fn law_kernel_density_of_nothing_is_zero<
    P: Fn(Binary64, Binary64) -> Binary64,
    X: Fn(Binary64) -> Binary64,
>(
    powf: P,
    exp: X,
    digest: TDigestView,
    ws: Seq<Binary64>,
    num_points: i32,
    x_min: Binary64,
    x_max: Binary64,
    bandwidth: Binary64,
    r: Seq<Binary64>,
)
    requires
        is_digest_kernel_density(
            powf,
            exp,
            digest,
            ws,
            num_points,
            x_min,
            x_max,
            bandwidth,
            r,
        ),
    ensures
        num_points <= 0 ==> r.len() == 0,
        num_points > 0 ==> r.len() == num_points,
        digest.count == 0 || total_of(ws).same(of(0)) ==> forall|i: int|
            0 <= i < r.len() ==> #[trigger] r[i] == of(0),
{
}

} // verus!
