//! The bins of a density add up to the share between the ends of the grid.

use vstd::prelude::*;

use crate::binary64::arithmetic::{difference_of, distance, product_of, quotient_of, unity, whole};
use crate::binary64::deviation::lemma_product_size;
use crate::binary64::errors::{
    law_product_error, law_quotient_error, law_sum_error, lemma_rounding_unit, lemma_spacing,
    lemma_spacing_order, rounding_unit, spacing,
};
use crate::binary64::laws::{
    law_difference_is_a_number, law_difference_of_ordered, law_finite_between,
    law_quotient_of_nonnegative, law_share_is_between_zero_and_one, law_sum_respects_bounds,
    law_whole_is_exact, law_whole_keeps_order, law_whole_one, law_whole_zero, law_zero_is_neutral,
    law_zero_product, lemma_constants,
};
use crate::binary64::number::{
    lemma_opposite, lemma_signed, lemma_value_sign, of, opposite, HUNDRED, ONE,
};
use crate::binary64::powers::{lemma_two_to_adds, lemma_two_to_step, lemma_two_to_values, two_to};
use crate::binary64::rank::{BLOCK, INFINITE};
use crate::binary64::Binary64;
use crate::cells::ordered;
use crate::density::{
    density_between, grid_at, is_estimated_density, percent_between, percent_of, sampled, step_of,
    weighted_bin, weighted_density_of,
};
use crate::digest::{Centroid, InternalTDigest, TDigestView};
use crate::distribution::{cdf_of, cumulative_of, estimated};
use crate::laws::densities::{law_grid_keeps_order, lemma_distance_below, lemma_percent};
use crate::laws::shares::{
    law_cumulative_is_between_neighbours, law_cumulative_keeps_order,
    law_full_share_from_the_last_mean, law_no_share_before_the_first_mean,
    law_share_is_a_probability,
};
use crate::weights::{lemma_total_step, total_of, weighty};

verus! {

/// How far a share lies from the exact quotient.
pub(crate) proof fn lemma_share_error(part: Binary64, all: Binary64)
    requires
        part.nonnegative(),
        part.le(all),
        all.finite(),
        of(0).lt(all),
    ensures
        quotient_of(part, all).finite(),
        distance(quotient_of(part, all).value() * all.value() - part.value() * unity())
            <= rounding_unit() * all.value(),
{
    lemma_constants();
    lemma_rounding_unit();
    law_share_is_between_zero_and_one(part, all);
    let q = quotient_of(part, all);
    law_finite_between(of(0), part, all);
    law_finite_between(of(0), q, of(ONE));
    law_quotient_error(part, all);
    lemma_spacing_order(q, of(ONE));
    let a = all.value();
    let e = rounding_unit();
    let s = spacing(q);
    assert(s * a <= 2 * (e * a)) by (nonlinear_arith)
        requires
            s <= 2 * e,
            a > 0,
    ;
}

/// How far a bin lies from a hundred times the difference of the shares at its edges.
proof fn lemma_bin_error(low: Binary64, high: Binary64, all: Binary64)
    requires
        of(0).le(low),
        low.le(high),
        high.le(all),
        all.finite(),
        of(0).lt(all),
    ensures
        ({
            let bin = percent_of(quotient_of(difference_of(high, low), all));
            &&& of(0).le(bin)
            &&& bin.le(of(HUNDRED))
            &&& distance(
                bin.value() - 100 * (quotient_of(high, all).value() - quotient_of(
                    low,
                    all,
                ).value()),
            ) <= 512 * rounding_unit()
        }),
{
    lemma_constants();
    lemma_rounding_unit();
    lemma_opposite(low);
    law_finite_between(of(0), low, all);
    law_finite_between(of(0), high, all);
    lemma_distance_below(low, high, all);
    let d = difference_of(high, low);
    law_finite_between(of(0), d, all);
    law_sum_error(high, opposite(low));
    lemma_share_error(low, all);
    lemma_share_error(high, all);
    lemma_share_error(d, all);
    law_share_is_between_zero_and_one(d, all);
    let q = quotient_of(d, all);
    lemma_percent(q);
    let b = percent_of(q);
    law_finite_between(of(0), b, of(HUNDRED));
    law_product_error(q, of(HUNDRED));
    lemma_spacing_order(b, of(HUNDRED));
    let u = unity();
    let e = rounding_unit();
    let a = all.value();
    let bv = b.value();
    let qv = q.value();
    let dv = d.value();
    let hv = high.value();
    let lv = low.value();
    let sh = quotient_of(high, all).value();
    let sl = quotient_of(low, all).value();
    let sp = spacing(b);
    // The rounding of the percentage.
    assert(qv * (100 * u) == (100 * qv) * u) by (nonlinear_arith);
    let t = bv - 100 * qv;
    assert(bv * u - (100 * qv) * u == t * u) by (nonlinear_arith)
        requires
            t == bv - 100 * qv,
    ;
    assert(-64 * e <= t <= 64 * e) by (nonlinear_arith)
        requires
            2 * (t * u) <= sp * u,
            -(2 * (t * u)) <= sp * u,
            sp <= 128 * e,
            u > 0,
    ;
    // The rounding of the difference, brought to the scale of the shares.
    let g = dv - (hv - lv);
    let gu = dv * u - hv * u + lv * u;
    assert(gu == g * u) by (nonlinear_arith)
        requires
            g == dv - (hv - lv),
            gu == dv * u - hv * u + lv * u,
    ;
    let dg = distance(g);
    assert(dv - (hv + opposite(low).value()) == g);
    assert(2 * BLOCK * dg <= a);
    assert(-(e * a) <= g * u <= e * a) by (nonlinear_arith)
        requires
            2 * BLOCK * dg <= a,
            -dg <= g <= dg,
            u == 2 * BLOCK * e,
            e >= 1,
    ;
    // The quotient against the difference of the shares.
    let y = qv - (sh - sl);
    assert(y * a == qv * a - sh * a + sl * a) by (nonlinear_arith)
        requires
            y == qv - (sh - sl),
    ;
    assert(-4 * (e * a) <= y * a <= 4 * (e * a));
    assert(-4 * e <= y <= 4 * e) by (nonlinear_arith)
        requires
            -4 * (e * a) <= y * a <= 4 * (e * a),
            a > 0,
    ;
}

/// The same of a bin of a weighted density.
proof fn lemma_weighted_bin_error(
    cs: Seq<Centroid>,
    ws: Seq<Binary64>,
    low: Binary64,
    high: Binary64,
)
    requires
        ordered(cs),
        weighty(ws),
        ws.len() == cs.len(),
        total_of(ws).finite(),
        low.le(high),
    ensures
        of(0).le(weighted_bin(cs, ws, low, high)),
        weighted_bin(cs, ws, low, high).le(of(HUNDRED)),
        distance(
            weighted_bin(cs, ws, low, high).value() - 100 * (cdf_of(cs, ws, high).value() - cdf_of(
                cs,
                ws,
                low,
            ).value()),
        ) <= 512 * rounding_unit(),
{
    lemma_constants();
    lemma_rounding_unit();
    law_cumulative_keeps_order(cs, ws, low, high);
    law_cumulative_is_between_neighbours(cs, ws, low);
    law_cumulative_is_between_neighbours(cs, ws, high);
    let all = total_of(ws);
    if !all.same(of(0)) {
        lemma_bin_error(cumulative_of(cs, ws, low), cumulative_of(cs, ws, high), all);
    }
}

/// Bins that lie close to a hundred times the differences of successive shares add up to a
/// hundred times the difference of the outer shares.
proof fn lemma_bins_add_up(bins: Seq<Binary64>, shares: Seq<int>, k: int)
    requires
        shares.len() == bins.len() + 1,
        0 <= k <= bins.len() <= i32::MAX,
        forall|i: int| 0 <= i < shares.len() ==> 0 <= #[trigger] shares[i] <= unity(),
        forall|i: int|
            0 <= i < bins.len() ==> {
                &&& (#[trigger] bins[i]).finite()
                &&& distance(bins[i].value() - 100 * (shares[i + 1] - shares[i])) <= 512
                    * rounding_unit()
            },
    ensures
        total_of(bins.take(k)).finite(),
        distance(total_of(bins.take(k)).value() - 100 * (shares[k] - shares[0])) <= k * (1024
            * rounding_unit()),
    decreases k,
{
    lemma_constants();
    lemma_rounding_unit();
    let e = rounding_unit();
    let u = unity();
    if k == 0 {
        assert(bins.take(0).len() == 0);
    } else {
        let i = k - 1;
        lemma_bins_add_up(bins, shares, i);
        lemma_total_step(bins, i);
        let before = total_of(bins.take(i));
        let bin = bins[i];
        let after = total_of(bins.take(k));
        let s0 = shares[0];
        let s1 = shares[i];
        let s2 = shares[i + 1];
        assert(0 <= s0 <= u && 0 <= s1 <= u && 0 <= s2 <= u);
        assert(bin.finite());
        // The running sum stays below 128, where the spacing is small.
        law_whole_is_exact(128);
        let limit = whole(128);
        let minus = opposite(limit);
        lemma_opposite(limit);
        lemma_spacing(limit);
        assert(i * (1024 * e) <= u) by (nonlinear_arith)
            requires
                0 <= i <= 0x7FFF_FFFF,
                u == 2 * BLOCK * e,
                BLOCK == 0x10_0000_0000_0000,
                e >= 1,
        ;
        assert(512 * e <= u) by (nonlinear_arith)
            requires
                u == 2 * BLOCK * e,
                BLOCK == 0x10_0000_0000_0000,
                e >= 1,
        ;
        let sum = before.value() + bin.value();
        assert(distance(sum - 100 * (s2 - s0)) <= i * (1024 * e) + 512 * e);
        assert(-102 * u <= sum <= 102 * u);
        law_sum_respects_bounds(before, bin, limit);
        law_sum_respects_bounds(before, bin, minus);
        law_finite_between(minus, after, limit);
        law_sum_error(before, bin);
        lemma_spacing_order(after, limit);
        let sp = spacing(limit);
        assert(sp <= 256 * e) by (nonlinear_arith)
            requires
                sp == 1 || BLOCK * sp <= 128 * u,
                u == 2 * BLOCK * e,
                BLOCK == 0x10_0000_0000_0000,
                e >= 1,
        ;
        assert(k * (1024 * e) == i * (1024 * e) + 1024 * e) by (nonlinear_arith)
            requires
                k == i + 1,
        ;
    }
}

/// Two to the power of minus 43 in rounding units.
proof fn lemma_bin_allowance()
    ensures
        two_to(1074 - 43) == 1024 * rounding_unit(),
{
    lemma_two_to_adds(1021, 10);
    lemma_two_to_values();
    assert(rounding_unit() * 1024 == 1024 * rounding_unit()) by (nonlinear_arith);
}

/// A percentage between ordered shares lies close to a hundred times their difference.
proof fn lemma_percent_between_error(low: Binary64, high: Binary64)
    requires
        of(0).le(low),
        low.le(high),
        high.le(of(ONE)),
    ensures
        percent_between(low, high).finite(),
        distance(percent_between(low, high).value() - 100 * (high.value() - low.value())) <= 512
            * rounding_unit(),
{
    lemma_constants();
    lemma_rounding_unit();
    lemma_opposite(low);
    law_finite_between(of(0), low, of(ONE));
    law_finite_between(of(0), high, of(ONE));
    lemma_distance_below(low, high, of(ONE));
    let d = difference_of(high, low);
    law_finite_between(of(0), d, of(ONE));
    law_sum_error(high, opposite(low));
    lemma_percent(d);
    let b = percent_of(d);
    law_finite_between(of(0), b, of(HUNDRED));
    law_product_error(d, of(HUNDRED));
    lemma_spacing_order(b, of(HUNDRED));
    let u = unity();
    let e = rounding_unit();
    let bv = b.value();
    let dv = d.value();
    let sp = spacing(b);
    assert(dv * (100 * u) == (100 * dv) * u) by (nonlinear_arith);
    let t = bv - 100 * dv;
    assert(bv * u - (100 * dv) * u == t * u) by (nonlinear_arith)
        requires
            t == bv - 100 * dv,
    ;
    assert(-64 * e <= t <= 64 * e) by (nonlinear_arith)
        requires
            2 * (t * u) <= sp * u,
            -(2 * (t * u)) <= sp * u,
            sp <= 128 * e,
            u > 0,
    ;
    let g = distance(dv - (high.value() + opposite(low).value()));
    assert(2 * BLOCK * g <= u);
    assert(g <= e) by (nonlinear_arith)
        requires
            2 * BLOCK * g <= u,
            u == 2 * BLOCK * e,
            BLOCK > 0,
    ;
}

/// Bins between shares that go up, each bin starting at the share at which the one before ends,
/// add up to a hundred times the share between the outer ones: they differ by two to the power
/// of minus 43 for each bin at most.
pub proof fn law_estimated_bins_add_up(lows: Seq<Binary64>, highs: Seq<Binary64>)
    requires
        lows.len() == highs.len(),
        0 < lows.len() <= i32::MAX,
        forall|i: int|
            0 <= i < lows.len() ==> {
                &&& of(0).le(#[trigger] lows[i])
                &&& lows[i].le(highs[i])
                &&& highs[i].le(of(ONE))
            },
        forall|i: int| 0 < i < lows.len() ==> (#[trigger] lows[i]).same(highs[i - 1]),
    ensures
        ({
            let sum = total_of(density_between(lows, highs));
            &&& sum.finite()
            &&& distance(sum.value() - 100 * (highs.last().value() - lows[0].value()))
                <= lows.len() * two_to(1074 - 43)
        }),
{
    lemma_constants();
    lemma_bin_allowance();
    let n = lows.len() as int;
    let bins = density_between(lows, highs);
    let shares = Seq::new(
        (n + 1) as nat,
        |i: int|
            if i < n {
                lows[i].value()
            } else {
                highs[n - 1].value()
            },
    );
    assert forall|i: int| 0 <= i < shares.len() implies 0 <= #[trigger] shares[i] <= unity() by {
        if i < n {
            assert(of(0).le(lows[i]));
        } else {
            assert(of(0).le(lows[n - 1]));
        }
    }
    assert forall|i: int| 0 <= i < bins.len() implies {
        &&& (#[trigger] bins[i]).finite()
        &&& distance(bins[i].value() - 100 * (shares[i + 1] - shares[i])) <= 512 * rounding_unit()
    } by {
        assert(of(0).le(lows[i]));
        lemma_percent_between_error(lows[i], highs[i]);
        if i + 1 < n {
            assert(lows[i + 1].same(highs[i + 1 - 1]));
        }
    }
    assert(bins.take(n) == bins);
    lemma_bins_add_up(bins, shares, n);
}

/// The estimates of shares are shares, and do not go down.
pub open spec fn sensible<E: Fn(&InternalTDigest, Binary64) -> Binary64>(
    estimate: E,
    digest: TDigestView,
) -> bool {
    forall|x: Binary64, y: Binary64, a: Binary64, b: Binary64|
        {
            &&& #[trigger] estimated(estimate, digest, x, a)
            &&& #[trigger] estimated(estimate, digest, y, b)
            &&& x.le(y)
        } ==> of(0).le(a) && a.le(b) && b.le(of(ONE))
}

/// The bins of an estimated density add up to a hundred times the share between the estimates at
/// the ends of the grid, as long as the estimates are sensible: they differ by two to the power of
/// minus 43 for each bin at most.
pub proof fn law_estimated_density_adds_up<E: Fn(&InternalTDigest, Binary64) -> Binary64>(
    estimate: E,
    digest: TDigestView,
    num_points: i32,
    x_min: Binary64,
    x_max: Binary64,
    r: Seq<Binary64>,
) -> (ends: (Binary64, Binary64))
    requires
        sensible(estimate, digest),
        num_points > 0,
        digest.count > 0,
        x_min.le(x_max),
        x_min.finite(),
        x_max.finite(),
        step_of(num_points as int, x_min, x_max).finite(),
        is_estimated_density(estimate, digest, num_points, x_min, x_max, r),
    ensures
        ({
            let n = num_points as int;
            let dx = step_of(n, x_min, x_max);
            &&& estimated(estimate, digest, grid_at(x_min, dx, 0), ends.0)
            &&& estimated(estimate, digest, grid_at(x_min, dx, n), ends.1)
            &&& total_of(r).finite()
            &&& distance(total_of(r).value() - 100 * (ends.1.value() - ends.0.value())) <= n
                * two_to(1074 - 43)
        }),
{
    let n = num_points as int;
    let dx = step_of(n, x_min, x_max);
    let (lows, highs) = choose|lows: Seq<Binary64>, highs: Seq<Binary64>|
        #[trigger] sampled(estimate, digest, n, x_min, dx, lows, highs) && r == density_between(
            lows,
            highs,
        );
    lemma_step_is_not_negative(n, x_min, x_max);
    assert forall|i: int| 0 <= i < n implies {
        &&& of(0).le(#[trigger] lows[i])
        &&& lows[i].le(highs[i])
        &&& highs[i].le(of(ONE))
    } by {
        law_grid_keeps_order(x_min, dx, i);
        assert(estimated(estimate, digest, grid_at(x_min, dx, i), lows[i]));
        assert(estimated(estimate, digest, grid_at(x_min, dx, i + 1), highs[i]));
    }
    assert forall|i: int| 0 < i < n implies (#[trigger] lows[i]).same(highs[i - 1]) by {
        law_grid_keeps_order(x_min, dx, i);
        let x = grid_at(x_min, dx, i);
        assert(estimated(estimate, digest, x, lows[i]));
        assert(estimated(estimate, digest, grid_at(x_min, dx, i - 1 + 1), highs[i - 1]));
        assert(x.le(x));
    }
    law_estimated_bins_add_up(lows, highs);
    assert(estimated(estimate, digest, grid_at(x_min, dx, 0), lows[0]));
    assert(estimated(estimate, digest, grid_at(x_min, dx, n - 1 + 1), highs[n - 1]));
    (lows[0], highs[n - 1])
}

/// The bins of a weighted density add up to a hundred times the share between the ends of the
/// grid: they differ by two to the power of minus 43 for each bin at most.
pub proof fn law_density_bins_add_up(
    cs: Seq<Centroid>,
    ws: Seq<Binary64>,
    n: int,
    x_min: Binary64,
    x_max: Binary64,
)
    requires
        ordered(cs),
        weighty(ws),
        ws.len() == cs.len(),
        total_of(ws).finite(),
        x_min.le(x_max),
        x_min.finite(),
        x_max.finite(),
        step_of(n, x_min, x_max).finite(),
        0 < n <= i32::MAX,
    ensures
        ({
            let dx = step_of(n, x_min, x_max);
            let sum = total_of(weighted_density_of(cs, ws, n, x_min, dx));
            let low = cdf_of(cs, ws, grid_at(x_min, dx, 0));
            let high = cdf_of(cs, ws, grid_at(x_min, dx, n));
            &&& sum.finite()
            &&& distance(sum.value() - 100 * (high.value() - low.value())) <= n * two_to(1074 - 43)
        }),
{
    lemma_constants();
    lemma_bin_allowance();
    let dx = step_of(n, x_min, x_max);
    let bins = weighted_density_of(cs, ws, n, x_min, dx);
    let shares = Seq::new(
        (n + 1) as nat,
        |i: int| cdf_of(cs, ws, grid_at(x_min, dx, i)).value(),
    );
    lemma_step_is_not_negative(n, x_min, x_max);
    assert forall|i: int| 0 <= i < shares.len() implies 0 <= #[trigger] shares[i] <= unity() by {
        law_share_is_a_probability(cs, ws, grid_at(x_min, dx, i));
    }
    assert forall|i: int| 0 <= i < bins.len() implies {
        &&& (#[trigger] bins[i]).finite()
        &&& distance(bins[i].value() - 100 * (shares[i + 1] - shares[i])) <= 512 * rounding_unit()
    } by {
        law_grid_keeps_order(x_min, dx, i);
        lemma_weighted_bin_error(cs, ws, grid_at(x_min, dx, i), grid_at(x_min, dx, i + 1));
        law_finite_between(of(0), bins[i], of(HUNDRED));
    }
    assert(bins.take(n) == bins);
    lemma_bins_add_up(bins, shares, n);
}

/// Each bin of a weighted density is a hundred times the difference of the shares at its edges:
/// they differ by two to the power of minus 44 at most.
pub proof fn law_density_bin_is_the_share_between_its_edges(
    cs: Seq<Centroid>,
    ws: Seq<Binary64>,
    n: int,
    x_min: Binary64,
    x_max: Binary64,
    i: int,
)
    requires
        ordered(cs),
        weighty(ws),
        ws.len() == cs.len(),
        total_of(ws).finite(),
        x_min.le(x_max),
        x_min.finite(),
        x_max.finite(),
        step_of(n, x_min, x_max).finite(),
        0 < n <= i32::MAX,
        0 <= i < n,
    ensures
        ({
            let dx = step_of(n, x_min, x_max);
            let bin = weighted_density_of(cs, ws, n, x_min, dx)[i];
            let low = cdf_of(cs, ws, grid_at(x_min, dx, i));
            let high = cdf_of(cs, ws, grid_at(x_min, dx, i + 1));
            &&& bin.finite()
            &&& distance(bin.value() - 100 * (high.value() - low.value())) <= two_to(1074 - 44)
        }),
{
    lemma_constants();
    let dx = step_of(n, x_min, x_max);
    let bin = weighted_density_of(cs, ws, n, x_min, dx)[i];
    lemma_step_is_not_negative(n, x_min, x_max);
    law_grid_keeps_order(x_min, dx, i);
    lemma_weighted_bin_error(cs, ws, grid_at(x_min, dx, i), grid_at(x_min, dx, i + 1));
    law_finite_between(of(0), bin, of(HUNDRED));
    lemma_bin_allowance();
    lemma_two_to_step(1074 - 43);
}

/// What the roundings of a bin add up to, relative to the shares at its edges. `d` is the rounded
/// difference of the weights `a` and `b` up to the edges, `q` its rounded quotient by `all`, `bin`
/// the rounded percentage; `sl` and `sh` are the rounded shares.
proof fn lemma_bin_roundings(
    u: int,
    all: int,
    a: int,
    b: int,
    d: int,
    q: int,
    sl: int,
    sh: int,
    bin: int,
    gq: int,
    gl: int,
    gh: int,
    gb: int,
)
    requires
        u >= BLOCK,
        all != 0,
        2 * distance(q * all - d * u) <= gq * distance(all),
        2 * distance(sl * all - a * u) <= gl * distance(all),
        2 * distance(sh * all - b * u) <= gh * distance(all),
        2 * BLOCK * distance(d - (b - a)) <= distance(d),
        2 * distance(bin * u - q * (100 * u)) <= gb * u,
        gq == 1 || BLOCK * gq <= distance(q),
        gl == 1 || BLOCK * gl <= distance(sl),
        gh == 1 || BLOCK * gh <= distance(sh),
        gb == 1 || BLOCK * gb <= distance(bin),
    ensures
        BLOCK * distance(bin - 100 * (sh - sl)) <= 512 * (u + distance(sl) + distance(sh)),
{
    let k: int = BLOCK as int;
    let m = distance(all);
    let size = u + distance(sl) + distance(sh);
    // The quotient against the difference of the shares, times the total.
    let x1 = q * all - d * u;
    let x2 = sl * all - a * u;
    let x3 = sh * all - b * u;
    let g = d - (b - a);
    let y = q - (sh - sl);
    assert(y * all == x1 - x3 + x2 + g * u) by (nonlinear_arith)
        requires
            x1 == q * all - d * u,
            x2 == sl * all - a * u,
            x3 == sh * all - b * u,
            g == d - (b - a),
            y == q - (sh - sl),
    ;
    let ay = distance(y);
    let aq = distance(q);
    let ad = distance(d);
    let ag = distance(g);
    lemma_product_size(y, all);
    lemma_product_size(q, all);
    lemma_product_size(d, u);
    lemma_product_size(g, u);
    assert(distance(u) == u && distance(all) == m);
    let ym = ay * m;
    let qm = aq * m;
    assert(2 * (k * (ag * u)) <= ad * u) by (nonlinear_arith)
        requires
            2 * k * ag <= ad,
            u >= 0,
    ;
    assert(2 * (ad * u) <= 2 * qm + gq * m);
    assert(2 * ym <= gq * m + gl * m + gh * m + 2 * (ag * u));
    let gu = ag * u;
    assert(4 * (k * ym) <= 2 * (k * (gq * m)) + 2 * (k * (gl * m)) + 2 * (k * (gh * m)) + 4 * (k
        * gu)) by (nonlinear_arith)
        requires
            2 * ym <= gq * m + gl * m + gh * m + 2 * gu,
            k > 0,
    ;
    let total = 2 * (k * gq) + 2 * (k * gl) + 2 * (k * gh) + 2 * aq + gq;
    assert(4 * (k * ym) <= total * m) by (nonlinear_arith)
        requires
            4 * (k * ym) <= 2 * (k * (gq * m)) + 2 * (k * (gl * m)) + 2 * (k * (gh * m)) + 4 * (k
                * gu),
            4 * (k * gu) <= 2 * qm + gq * m,
            qm == aq * m,
            total == 2 * (k * gq) + 2 * (k * gl) + 2 * (k * gh) + 2 * aq + gq,
    ;
    assert(4 * (k * ay) <= total) by (nonlinear_arith)
        requires
            4 * (k * ym) <= total * m,
            ym == ay * m,
            m > 0,
    ;
    assert(gq <= k * gq) by (nonlinear_arith)
        requires
            gq == 1 || k * gq <= aq,
            k >= 1,
            aq >= 0,
            4 * (k * ay) <= total,
            2 * distance(x1) <= gq * m,
            distance(x1) >= 0,
            m > 0,
    ;
    assert(k * gq <= k + aq && k * gl <= k + distance(sl) && k * gh <= k + distance(sh));
    assert(k * ay <= 2 * size) by (nonlinear_arith)
        requires
            4 * (k * ay) <= 7 * k + 5 * aq + 2 * (size - u),
            aq <= ay + (size - u),
            u >= k,
            size >= u,
            ay >= 0,
            k == 0x10_0000_0000_0000,
    ;
    // The percentage.
    let t = bin - 100 * q;
    assert(bin * u - q * (100 * u) == t * u) by (nonlinear_arith)
        requires
            t == bin - 100 * q,
    ;
    lemma_product_size(t, u);
    let at = distance(t);
    assert(2 * at <= gb) by (nonlinear_arith)
        requires
            2 * (at * u) <= gb * u,
            u > 0,
    ;
    assert(k * gb <= k + distance(bin));
    assert(k * at <= 150 * size) by (nonlinear_arith)
        requires
            2 * at <= gb,
            k * gb <= k + 100 * aq + at,
            aq <= ay + (size - u),
            k * ay <= 2 * size,
            u >= k,
            size >= u,
            ay >= 0,
            at >= 0,
            k == 0x10_0000_0000_0000,
    ;
    let far = distance(bin - 100 * (sh - sl));
    assert(far <= at + 100 * ay);
    assert(k * far <= k * at + 100 * (k * ay)) by (nonlinear_arith)
        requires
            far <= at + 100 * ay,
            k > 0,
    ;
}

/// Each bin of a weighted density is a hundred times the difference of the shares at its edges,
/// with centroids in any order, weights of either sign and a grid in either direction, as long as
/// nothing overflows: they differ by 512 roundings of the shares at most, at two to the power of
/// minus 52 each.
pub proof fn law_any_density_bin_is_the_share_between_its_edges(
    cs: Seq<Centroid>,
    ws: Seq<Binary64>,
    n: int,
    x_min: Binary64,
    dx: Binary64,
    i: int,
)
    requires
        0 <= i < n,
        total_of(ws).finite(),
        cumulative_of(cs, ws, grid_at(x_min, dx, i)).finite(),
        cumulative_of(cs, ws, grid_at(x_min, dx, i + 1)).finite(),
        difference_of(
            cumulative_of(cs, ws, grid_at(x_min, dx, i + 1)),
            cumulative_of(cs, ws, grid_at(x_min, dx, i)),
        ).finite(),
        cdf_of(cs, ws, grid_at(x_min, dx, i)).finite(),
        cdf_of(cs, ws, grid_at(x_min, dx, i + 1)).finite(),
        weighted_density_of(cs, ws, n, x_min, dx)[i].finite(),
    ensures
        ({
            let bin = weighted_density_of(cs, ws, n, x_min, dx)[i].value();
            let low = cdf_of(cs, ws, grid_at(x_min, dx, i)).value();
            let high = cdf_of(cs, ws, grid_at(x_min, dx, i + 1)).value();
            BLOCK * distance(bin - 100 * (high - low)) <= 512 * (unity() + distance(low)
                + distance(high))
        }),
{
    lemma_constants();
    lemma_rounding_unit();
    let all = total_of(ws);
    if !all.same(of(0)) {
        let low = cumulative_of(cs, ws, grid_at(x_min, dx, i));
        let high = cumulative_of(cs, ws, grid_at(x_min, dx, i + 1));
        let d = difference_of(high, low);
        let q = quotient_of(d, all);
        let sl = quotient_of(low, all);
        let sh = quotient_of(high, all);
        let bin = percent_of(q);
        lemma_opposite(low);
        law_sum_error(high, opposite(low));
        assert(q.finite()) by {
            reveal(product_of);
            lemma_signed(q.negative() != of(HUNDRED).negative(), INFINITE as int);
            lemma_value_sign(of(HUNDRED));
        }
        law_quotient_error(d, all);
        law_quotient_error(low, all);
        law_quotient_error(high, all);
        law_product_error(q, of(HUNDRED));
        lemma_spacing(q);
        lemma_spacing(sl);
        lemma_spacing(sh);
        lemma_spacing(bin);
        assert(unity() >= BLOCK) by (nonlinear_arith)
            requires
                unity() == 2 * BLOCK * rounding_unit(),
                rounding_unit() >= 1,
                BLOCK > 0,
        ;
        lemma_bin_roundings(
            unity(),
            all.value(),
            low.value(),
            high.value(),
            d.value(),
            q.value(),
            sl.value(),
            sh.value(),
            bin.value(),
            spacing(q),
            spacing(sl),
            spacing(sh),
            spacing(bin),
        );
    }
}

/// Over a grid that holds all means, the bins add up to a hundred, up to rounding.
pub proof fn law_density_of_everything_is_a_hundred(
    cs: Seq<Centroid>,
    ws: Seq<Binary64>,
    n: int,
    x_min: Binary64,
    x_max: Binary64,
)
    requires
        ordered(cs),
        weighty(ws),
        ws.len() == cs.len(),
        cs.len() > 0,
        total_of(ws).finite(),
        !total_of(ws).zero(),
        x_min.le(x_max),
        x_min.finite(),
        x_max.finite(),
        step_of(n, x_min, x_max).finite(),
        0 < n <= i32::MAX,
        grid_at(x_min, step_of(n, x_min, x_max), 0).lt(cs[0].mean),
        cs.last().mean.le(grid_at(x_min, step_of(n, x_min, x_max), n)),
    ensures
        distance(
            total_of(weighted_density_of(cs, ws, n, x_min, step_of(n, x_min, x_max))).value() - 100
                * unity(),
        ) <= n * two_to(1074 - 43),
{
    lemma_constants();
    let dx = step_of(n, x_min, x_max);
    law_density_bins_add_up(cs, ws, n, x_min, x_max);
    law_no_share_before_the_first_mean(cs, ws, grid_at(x_min, dx, 0));
    law_full_share_from_the_last_mean(cs, ws, grid_at(x_min, dx, n));
}

/// Over a grid before or after all means, the bins add up to nothing, up to rounding.
pub proof fn law_density_beside_everything_is_nothing(
    cs: Seq<Centroid>,
    ws: Seq<Binary64>,
    n: int,
    x_min: Binary64,
    x_max: Binary64,
)
    requires
        ordered(cs),
        weighty(ws),
        ws.len() == cs.len(),
        cs.len() > 0,
        total_of(ws).finite(),
        !total_of(ws).zero(),
        x_min.le(x_max),
        x_min.finite(),
        x_max.finite(),
        step_of(n, x_min, x_max).finite(),
        0 < n <= i32::MAX,
        grid_at(x_min, step_of(n, x_min, x_max), n).lt(cs[0].mean) || cs.last().mean.le(
            grid_at(x_min, step_of(n, x_min, x_max), 0),
        ),
    ensures
        distance(
            total_of(weighted_density_of(cs, ws, n, x_min, step_of(n, x_min, x_max))).value(),
        ) <= n * two_to(1074 - 43),
{
    lemma_constants();
    let dx = step_of(n, x_min, x_max);
    let first = grid_at(x_min, dx, 0);
    let last = grid_at(x_min, dx, n);
    law_density_bins_add_up(cs, ws, n, x_min, x_max);
    lemma_step_is_not_negative(n, x_min, x_max);
    lemma_grid_ends(x_min, dx, n);
    if last.lt(cs[0].mean) {
        law_no_share_before_the_first_mean(cs, ws, first);
        law_no_share_before_the_first_mean(cs, ws, last);
    } else {
        law_full_share_from_the_last_mean(cs, ws, first);
        law_full_share_from_the_last_mean(cs, ws, last);
    }
}

/// The width of a bin between ordered ends is not negative.
proof fn lemma_step_is_not_negative(n: int, x_min: Binary64, x_max: Binary64)
    requires
        x_min.le(x_max),
        x_min.finite(),
        x_max.finite(),
        0 < n <= i32::MAX,
    ensures
        step_of(n, x_min, x_max).nonnegative(),
{
    lemma_constants();
    law_difference_is_a_number(x_max, x_min);
    law_difference_of_ordered(x_max, x_min);
    law_whole_one();
    law_whole_keeps_order(1, n);
    law_whole_is_exact(n);
    law_quotient_of_nonnegative(difference_of(x_max, x_min), whole(n));
}

/// The last edge of a grid does not lie before the first.
proof fn lemma_grid_ends(x_min: Binary64, dx: Binary64, n: int)
    requires
        x_min.finite(),
        dx.finite(),
        dx.nonnegative(),
        0 <= n <= i32::MAX,
    ensures
        grid_at(x_min, dx, 0).le(grid_at(x_min, dx, n)),
    decreases n,
{
    law_grid_keeps_order(x_min, dx, 0);
    if n > 0 {
        lemma_grid_ends(x_min, dx, n - 1);
        law_grid_keeps_order(x_min, dx, n - 1);
    }
}

/// The first edge of a grid is its lower end.
pub proof fn law_grid_starts_at_its_lower_end(x_min: Binary64, dx: Binary64)
    requires
        x_min.finite(),
        dx.finite(),
    ensures
        grid_at(x_min, dx, 0).same(x_min),
{
    lemma_constants();
    law_whole_zero();
    law_zero_product(of(0), dx);
    law_zero_is_neutral(x_min, product_of(of(0), dx));
}

} // verus!
