//! Only relative weights matter to a kernel density: multiplying all of them by a power of two
//! changes nothing.

use vstd::prelude::*;

use crate::binary64::arithmetic::{difference_of, product_of, whole};
use crate::binary64::laws::{law_whole_is_finite, lemma_constants};
use crate::binary64::number::of;
use crate::binary64::powers::{lemma_two_to_positive, two_to};
use crate::binary64::scaling::{
    law_scaled_by_one, law_scaled_product, law_scaled_quotient, law_scaled_sum, law_scaled_whole,
    product_unharmed, scales,
};
use crate::binary64::Binary64;
use crate::density::step_of;
use crate::digest::{Centroid, TDigestView};
use crate::kernel::{
    center_at, effective_count_of, exponent_at, is_bandwidth, is_digest_kernel_density,
    is_kernel_density, kernel_bin, kernel_density_of, kernel_terms, mean_of, mean_terms, normal_of,
    raised_row, raised_rows, rule_of_thumb, square_terms, squared, variance_of, variance_terms,
    RULE_EXPONENT,
};
use crate::weights::{counts_of, lemma_total_step, total_of, weights_of};

verus! {

/// Each number of `ys` is that of `xs` times two to the power of `j`, and all are finite.
pub open spec fn all_scale(xs: Seq<Binary64>, ys: Seq<Binary64>, j: int) -> bool {
    &&& xs.len() == ys.len()
    &&& forall|i: int| 0 <= i < xs.len() ==> scales(#[trigger] xs[i], ys[i], j)
}

/// No running total overflows.
pub open spec fn bounded(xs: Seq<Binary64>) -> bool {
    forall|i: int| 0 <= i <= xs.len() ==> (#[trigger] total_of(xs.take(i))).finite()
}

/// Totals scale as their terms do.
pub proof fn law_scaled_total(xs: Seq<Binary64>, ys: Seq<Binary64>, j: int)
    requires
        j >= 0,
        all_scale(xs, ys, j),
        bounded(ys),
    ensures
        scales(total_of(xs), total_of(ys), j),
{
    let n = xs.len() as int;
    lemma_scaled_running_total(xs, ys, j, n);
    assert(xs.take(n) == xs);
    assert(ys.take(n) == ys);
}

proof fn lemma_scaled_running_total(xs: Seq<Binary64>, ys: Seq<Binary64>, j: int, k: int)
    requires
        j >= 0,
        all_scale(xs, ys, j),
        bounded(ys),
        0 <= k <= xs.len(),
    ensures
        scales(total_of(xs.take(k)), total_of(ys.take(k)), j),
    decreases k,
{
    lemma_constants();
    if k == 0 {
        assert(xs.take(0).len() == 0);
        assert(ys.take(0).len() == 0);
        assert(two_to(j) * 0 == 0);
    } else {
        lemma_scaled_running_total(xs, ys, j, k - 1);
        lemma_total_step(xs, k - 1);
        lemma_total_step(ys, k - 1);
        assert(scales(xs[k - 1], ys[k - 1], j));
        assert(total_of(ys.take(k)).finite());
        law_scaled_sum(total_of(xs.take(k - 1)), xs[k - 1], total_of(ys.take(k - 1)), ys[k - 1], j);
    }
}

/// Nothing underflows in the bin of a kernel density with weights `ws`, and nothing overflows in
/// that with weights `vs`.
pub open spec fn bin_in_range(
    ws: Seq<Binary64>,
    vs: Seq<Binary64>,
    row: Seq<Binary64>,
    bandwidth: Binary64,
) -> bool {
    &&& row.len() == ws.len()
    &&& bandwidth.finite()
    &&& bounded(vs)
    &&& bounded(kernel_terms(vs, row))
    &&& forall|i: int|
        0 <= i < ws.len() ==> {
            &&& normal_of(#[trigger] row[i]).finite()
            &&& product_unharmed(ws[i], normal_of(row[i]))
            &&& product_of(vs[i], normal_of(row[i])).finite()
        }
    &&& product_unharmed(total_of(ws), bandwidth)
    &&& product_of(total_of(vs), bandwidth).finite()
}

/// A bin of a kernel density takes no notice of a power of two in all weights.
pub proof fn law_kernel_bin_ignores_powers_of_two(
    ws: Seq<Binary64>,
    vs: Seq<Binary64>,
    row: Seq<Binary64>,
    bandwidth: Binary64,
    dx: Binary64,
    j: int,
)
    requires
        j >= 0,
        all_scale(ws, vs, j),
        bin_in_range(ws, vs, row, bandwidth),
    ensures
        kernel_bin(vs, row, bandwidth, dx) == kernel_bin(ws, row, bandwidth, dx),
{
    let xs = kernel_terms(ws, row);
    let ys = kernel_terms(vs, row);
    assert forall|i: int| 0 <= i < xs.len() implies scales(#[trigger] xs[i], ys[i], j) by {
        let n = normal_of(row[i]);
        assert(scales(ws[i], vs[i], j));
        law_scaled_by_one(n);
        law_scaled_product(ws[i], n, vs[i], n, j, 0);
    }
    law_scaled_total(xs, ys, j);
    law_scaled_total(ws, vs, j);
    law_scaled_by_one(bandwidth);
    law_scaled_product(total_of(ws), bandwidth, total_of(vs), bandwidth, j, 0);
    law_scaled_quotient(
        total_of(xs),
        product_of(total_of(ws), bandwidth),
        total_of(ys),
        product_of(total_of(vs), bandwidth),
        j,
    );
}

/// A kernel density takes no notice of a power of two in all weights.
pub proof fn law_kernel_density_ignores_powers_of_two(
    ws: Seq<Binary64>,
    vs: Seq<Binary64>,
    rows: Seq<Seq<Binary64>>,
    bandwidth: Binary64,
    dx: Binary64,
    j: int,
)
    requires
        j >= 0,
        all_scale(ws, vs, j),
        forall|i: int| 0 <= i < rows.len() ==> bin_in_range(ws, vs, #[trigger] rows[i], bandwidth),
    ensures
        kernel_density_of(vs, rows, bandwidth, dx) == kernel_density_of(ws, rows, bandwidth, dx),
{
    let r = kernel_density_of(ws, rows, bandwidth, dx);
    let s = kernel_density_of(vs, rows, bandwidth, dx);
    assert forall|i: int| 0 <= i < rows.len() implies #[trigger] s[i] == r[i] by {
        assert(bin_in_range(ws, vs, rows[i], bandwidth));
        law_kernel_bin_ignores_powers_of_two(ws, vs, rows[i], bandwidth, dx, j);
    }
    assert(s =~= r);
}

/// Nothing underflows in the effective count of weights `ws`, and nothing overflows in that of
/// weights `vs`.
pub open spec fn count_in_range(ws: Seq<Binary64>, vs: Seq<Binary64>) -> bool {
    &&& bounded(vs)
    &&& bounded(square_terms(vs))
    &&& forall|i: int|
        0 <= i < ws.len() ==> {
            &&& product_unharmed(#[trigger] ws[i], ws[i])
            &&& squared(vs[i]).finite()
        }
    &&& product_unharmed(total_of(ws), total_of(ws))
    &&& squared(total_of(vs)).finite()
}

/// The effective count takes no notice of a power of two in all weights.
pub proof fn law_effective_count_ignores_powers_of_two(
    ws: Seq<Binary64>,
    vs: Seq<Binary64>,
    j: int,
)
    requires
        j >= 0,
        all_scale(ws, vs, j),
        count_in_range(ws, vs),
    ensures
        effective_count_of(vs) == effective_count_of(ws),
{
    let xs = square_terms(ws);
    let ys = square_terms(vs);
    assert forall|i: int| 0 <= i < xs.len() implies scales(#[trigger] xs[i], ys[i], j + j) by {
        assert(scales(ws[i], vs[i], j));
        law_scaled_product(ws[i], ws[i], vs[i], vs[i], j, j);
    }
    law_scaled_total(xs, ys, j + j);
    law_scaled_total(ws, vs, j);
    law_scaled_product(total_of(ws), total_of(ws), total_of(vs), total_of(vs), j, j);
    law_scaled_quotient(
        squared(total_of(ws)),
        total_of(xs),
        squared(total_of(vs)),
        total_of(ys),
        j + j,
    );
}

/// Nothing underflows in the mean and the variance of centroids with weights `ws`, and nothing
/// overflows in those with weights `vs`.
pub open spec fn moments_in_range(
    cs: Seq<Centroid>,
    ws: Seq<Binary64>,
    vs: Seq<Binary64>,
) -> bool {
    let center = mean_of(cs, ws);
    &&& ws.len() == cs.len()
    &&& bounded(vs)
    &&& bounded(mean_terms(cs, vs))
    &&& bounded(variance_terms(cs, vs, center))
    &&& forall|i: int|
        0 <= i < cs.len() ==> {
            let spread = squared(difference_of((#[trigger] cs[i]).mean, center));
            &&& cs[i].mean.finite()
            &&& product_unharmed(cs[i].mean, ws[i])
            &&& product_of(cs[i].mean, vs[i]).finite()
            &&& spread.finite()
            &&& product_unharmed(ws[i], spread)
            &&& product_of(vs[i], spread).finite()
        }
}

/// Mean and variance take no notice of a power of two in all weights.
pub proof fn law_moments_ignore_powers_of_two(
    cs: Seq<Centroid>,
    ws: Seq<Binary64>,
    vs: Seq<Binary64>,
    j: int,
)
    requires
        j >= 0,
        all_scale(ws, vs, j),
        moments_in_range(cs, ws, vs),
    ensures
        mean_of(cs, vs) == mean_of(cs, ws),
        variance_of(cs, vs, mean_of(cs, vs)) == variance_of(cs, ws, mean_of(cs, ws)),
{
    let center = mean_of(cs, ws);
    let xs = mean_terms(cs, ws);
    let ys = mean_terms(cs, vs);
    law_scaled_total(ws, vs, j);
    assert forall|i: int| 0 <= i < xs.len() implies scales(#[trigger] xs[i], ys[i], j) by {
        let m = cs[i].mean;
        assert(scales(ws[i], vs[i], j));
        law_scaled_by_one(m);
        law_scaled_product(m, ws[i], m, vs[i], 0, j);
    }
    law_scaled_total(xs, ys, j);
    law_scaled_quotient(total_of(xs), total_of(ws), total_of(ys), total_of(vs), j);
    let ps = variance_terms(cs, ws, center);
    let qs = variance_terms(cs, vs, center);
    assert forall|i: int| 0 <= i < ps.len() implies scales(#[trigger] ps[i], qs[i], j) by {
        let spread = squared(difference_of(cs[i].mean, center));
        assert(scales(ws[i], vs[i], j));
        law_scaled_by_one(spread);
        law_scaled_product(ws[i], spread, vs[i], spread, j, 0);
    }
    law_scaled_total(ps, qs, j);
    law_scaled_quotient(total_of(ps), total_of(ws), total_of(qs), total_of(vs), j);
}

/// The bandwidth of the rule of thumb takes no notice of a power of two in all weights.
pub proof fn law_rule_of_thumb_ignores_powers_of_two(
    cs: Seq<Centroid>,
    ws: Seq<Binary64>,
    vs: Seq<Binary64>,
    dx: Binary64,
    power: Binary64,
    j: int,
)
    requires
        j >= 0,
        all_scale(ws, vs, j),
        moments_in_range(cs, ws, vs),
    ensures
        rule_of_thumb(cs, vs, dx, power) == rule_of_thumb(cs, ws, dx, power),
{
    law_moments_ignore_powers_of_two(cs, ws, vs, j);
}

/// The bandwidth that is used takes no notice of a power of two in all weights, whether it is
/// given or that of the rule of thumb.
pub proof fn law_bandwidth_ignores_powers_of_two<P: Fn(Binary64, Binary64) -> Binary64>(
    powf: P,
    cs: Seq<Centroid>,
    ws: Seq<Binary64>,
    vs: Seq<Binary64>,
    dx: Binary64,
    bandwidth: Binary64,
    bw: Binary64,
    j: int,
)
    requires
        j >= 0,
        all_scale(ws, vs, j),
        bandwidth.le(of(0)) ==> count_in_range(ws, vs) && moments_in_range(cs, ws, vs),
    ensures
        is_bandwidth(powf, cs, vs, dx, bandwidth, bw) <==> is_bandwidth(
            powf,
            cs,
            ws,
            dx,
            bandwidth,
            bw,
        ),
{
    if bandwidth.le(of(0)) {
        law_effective_count_ignores_powers_of_two(ws, vs, j);
        assert forall|power: Binary64|
            rule_of_thumb(cs, vs, dx, power) == #[trigger] rule_of_thumb(cs, ws, dx, power) by {
            law_rule_of_thumb_ignores_powers_of_two(cs, ws, vs, dx, power, j);
        }
        let asked = (effective_count_of(ws), of(RULE_EXPONENT));
        if is_bandwidth(powf, cs, vs, dx, bandwidth, bw) {
            let power = choose|power: Binary64|
                {
                    &&& #[trigger] call_ensures(powf, asked, power)
                    &&& bw == rule_of_thumb(cs, vs, dx, power)
                };
            assert(rule_of_thumb(cs, vs, dx, power) == rule_of_thumb(cs, ws, dx, power));
        }
        if is_bandwidth(powf, cs, ws, dx, bandwidth, bw) {
            let power = choose|power: Binary64|
                {
                    &&& #[trigger] call_ensures(powf, asked, power)
                    &&& bw == rule_of_thumb(cs, ws, dx, power)
                };
            assert(rule_of_thumb(cs, vs, dx, power) == rule_of_thumb(cs, ws, dx, power));
        }
    }
}

/// Nothing underflows in a kernel density with weights `ws`, and nothing overflows in that with
/// weights `vs`, whatever `powf` and `exp` give.
pub open spec fn densities_in_range<
    P: Fn(Binary64, Binary64) -> Binary64,
    X: Fn(Binary64) -> Binary64,
>(
    powf: P,
    exp: X,
    cs: Seq<Centroid>,
    ws: Seq<Binary64>,
    vs: Seq<Binary64>,
    n: int,
    x_min: Binary64,
    dx: Binary64,
    bandwidth: Binary64,
) -> bool {
    &&& bounded(vs)
    &&& bandwidth.le(of(0)) ==> count_in_range(ws, vs) && moments_in_range(cs, ws, vs)
    &&& forall|bw: Binary64, rows: Seq<Seq<Binary64>>, i: int|
        #![trigger is_bandwidth(powf, cs, ws, dx, bandwidth, bw), rows[i]]
        {
            &&& is_bandwidth(powf, cs, ws, dx, bandwidth, bw)
            &&& raised_rows(exp, cs, n, x_min, dx, bw, rows)
            &&& 0 <= i < n
        } ==> bin_in_range(ws, vs, rows[i], bw)
}

/// A kernel density with its own bandwidth takes no notice of a power of two in all weights: what
/// it can be with the ones, it can be with the others.
pub proof fn law_whole_kernel_density_ignores_powers_of_two<
    P: Fn(Binary64, Binary64) -> Binary64,
    X: Fn(Binary64) -> Binary64,
>(
    powf: P,
    exp: X,
    cs: Seq<Centroid>,
    ws: Seq<Binary64>,
    vs: Seq<Binary64>,
    n: int,
    x_min: Binary64,
    dx: Binary64,
    bandwidth: Binary64,
    r: Seq<Binary64>,
    j: int,
)
    requires
        j >= 0,
        all_scale(ws, vs, j),
        densities_in_range(powf, exp, cs, ws, vs, n, x_min, dx, bandwidth),
    ensures
        is_kernel_density(powf, exp, cs, vs, n, x_min, dx, bandwidth, r) <==> is_kernel_density(
            powf,
            exp,
            cs,
            ws,
            n,
            x_min,
            dx,
            bandwidth,
            r,
        ),
{
    lemma_constants();
    law_scaled_total(ws, vs, j);
    lemma_two_to_positive(j);
    let a = total_of(ws).value();
    let b = total_of(vs).value();
    assert(a == 0 <==> b == 0) by (nonlinear_arith)
        requires
            b == two_to(j) * a,
            two_to(j) >= 1,
    ;
    assert(total_of(vs).same(of(0)) == total_of(ws).same(of(0)));
    assert forall|bw: Binary64|
        is_bandwidth(powf, cs, vs, dx, bandwidth, bw) <==> #[trigger] is_bandwidth(
            powf,
            cs,
            ws,
            dx,
            bandwidth,
            bw,
        ) by {
        law_bandwidth_ignores_powers_of_two(powf, cs, ws, vs, dx, bandwidth, bw, j);
    }
    assert forall|bw: Binary64, rows: Seq<Seq<Binary64>>|
        is_bandwidth(powf, cs, ws, dx, bandwidth, bw) && #[trigger] raised_rows(
            exp,
            cs,
            n,
            x_min,
            dx,
            bw,
            rows,
        ) implies kernel_density_of(vs, rows, bw, dx) == kernel_density_of(ws, rows, bw, dx) by {
        assert forall|i: int| 0 <= i < rows.len() implies bin_in_range(
            ws,
            vs,
            #[trigger] rows[i],
            bw,
        ) by {}
        law_kernel_density_ignores_powers_of_two(ws, vs, rows, bw, dx, j);
    }
    if !total_of(ws).same(of(0)) {
        if is_kernel_density(powf, exp, cs, vs, n, x_min, dx, bandwidth, r) {
            let (bw, rows) = choose|bw: Binary64, rows: Seq<Seq<Binary64>>|
                {
                    &&& #[trigger] is_bandwidth(powf, cs, vs, dx, bandwidth, bw)
                    &&& #[trigger] raised_rows(exp, cs, n, x_min, dx, bw, rows)
                    &&& r == kernel_density_of(vs, rows, bw, dx)
                };
            assert(is_bandwidth(powf, cs, ws, dx, bandwidth, bw));
            assert(r == kernel_density_of(ws, rows, bw, dx));
        }
        if is_kernel_density(powf, exp, cs, ws, n, x_min, dx, bandwidth, r) {
            let (bw, rows) = choose|bw: Binary64, rows: Seq<Seq<Binary64>>|
                {
                    &&& #[trigger] is_bandwidth(powf, cs, ws, dx, bandwidth, bw)
                    &&& #[trigger] raised_rows(exp, cs, n, x_min, dx, bw, rows)
                    &&& r == kernel_density_of(ws, rows, bw, dx)
                };
            assert(is_bandwidth(powf, cs, vs, dx, bandwidth, bw));
            assert(r == kernel_density_of(vs, rows, bw, dx));
        }
    }
}

/// The centroids stand at the same places, whatever they weigh.
pub open spec fn same_means(cs: Seq<Centroid>, ds: Seq<Centroid>) -> bool {
    &&& cs.len() == ds.len()
    &&& forall|i: int| 0 <= i < cs.len() ==> (#[trigger] ds[i]).mean == cs[i].mean
}

/// A kernel density looks at the places of the centroids and at the weights that it is given.
pub(crate) proof fn lemma_kernel_density_looks_at_means<
    P: Fn(Binary64, Binary64) -> Binary64,
    X: Fn(Binary64) -> Binary64,
>(
    powf: P,
    exp: X,
    cs: Seq<Centroid>,
    ds: Seq<Centroid>,
    ws: Seq<Binary64>,
    n: int,
    x_min: Binary64,
    dx: Binary64,
    bandwidth: Binary64,
    r: Seq<Binary64>,
)
    requires
        same_means(cs, ds),
        is_kernel_density(powf, exp, cs, ws, n, x_min, dx, bandwidth, r),
    ensures
        is_kernel_density(powf, exp, ds, ws, n, x_min, dx, bandwidth, r),
{
    if !total_of(ws).same(of(0)) {
        let (bw, rows) = choose|bw: Binary64, rows: Seq<Seq<Binary64>>|
            {
                &&& #[trigger] is_bandwidth(powf, cs, ws, dx, bandwidth, bw)
                &&& #[trigger] raised_rows(exp, cs, n, x_min, dx, bw, rows)
                &&& r == kernel_density_of(ws, rows, bw, dx)
            };
        assert(mean_terms(ds, ws) =~= mean_terms(cs, ws));
        assert(variance_terms(ds, ws, mean_of(cs, ws)) =~= variance_terms(
            cs,
            ws,
            mean_of(cs, ws),
        ));
        assert(is_bandwidth(powf, ds, ws, dx, bandwidth, bw));
        assert forall|i: int| 0 <= i < n implies raised_row(
            exp,
            ds,
            center_at(x_min, dx, i),
            bw,
            #[trigger] rows[i],
        ) by {
            assert(raised_row(exp, cs, center_at(x_min, dx, i), bw, rows[i]));
            assert forall|j: int| 0 <= j < ds.len() implies call_ensures(
                exp,
                (exponent_at(center_at(x_min, dx, i), ds[j].mean, bw),),
                #[trigger] rows[i][j],
            ) by {
                assert(ds[j].mean == cs[j].mean);
            }
        }
        assert(raised_rows(exp, ds, n, x_min, dx, bw, rows));
    }
}

/// The kernel density of a digest takes no notice of a power of two in the weights of all
/// centroids.
pub proof fn law_digest_kernel_density_ignores_powers_of_two<
    P: Fn(Binary64, Binary64) -> Binary64,
    X: Fn(Binary64) -> Binary64,
>(
    powf: P,
    exp: X,
    digest: TDigestView,
    heavier: TDigestView,
    ws: Seq<Binary64>,
    vs: Seq<Binary64>,
    num_points: i32,
    x_min: Binary64,
    x_max: Binary64,
    bandwidth: Binary64,
    r: Seq<Binary64>,
    j: int,
)
    requires
        j >= 0,
        same_means(digest.centroids, heavier.centroids),
        digest.count == 0 <==> heavier.count == 0,
        all_scale(ws, vs, j),
        densities_in_range(
            powf,
            exp,
            digest.centroids,
            ws,
            vs,
            num_points as int,
            x_min,
            step_of(num_points as int, x_min, x_max),
            bandwidth,
        ),
    ensures
        is_digest_kernel_density(
            powf,
            exp,
            heavier,
            vs,
            num_points,
            x_min,
            x_max,
            bandwidth,
            r,
        ) <==> is_digest_kernel_density(
            powf,
            exp,
            digest,
            ws,
            num_points,
            x_min,
            x_max,
            bandwidth,
            r,
        ),
{
    let n = num_points as int;
    let dx = step_of(n, x_min, x_max);
    let cs = digest.centroids;
    let ds = heavier.centroids;
    if n > 0 && digest.count != 0 {
        law_whole_kernel_density_ignores_powers_of_two(
            powf,
            exp,
            cs,
            ws,
            vs,
            n,
            x_min,
            dx,
            bandwidth,
            r,
            j,
        );
        assert(same_means(ds, cs)) by {
            assert forall|i: int| 0 <= i < ds.len() implies (
            #[trigger] cs[i]).mean == ds[i].mean by {
                assert(ds[i].mean == cs[i].mean);
            }
        }
        if is_kernel_density(powf, exp, cs, vs, n, x_min, dx, bandwidth, r) {
            lemma_kernel_density_looks_at_means(
                powf,
                exp,
                cs,
                ds,
                vs,
                n,
                x_min,
                dx,
                bandwidth,
                r,
            );
        }
        if is_kernel_density(powf, exp, ds, vs, n, x_min, dx, bandwidth, r) {
            lemma_kernel_density_looks_at_means(
                powf,
                exp,
                ds,
                cs,
                vs,
                n,
                x_min,
                dx,
                bandwidth,
                r,
            );
        }
    }
}

/// Multiplying the number of values in every centroid by a power of two scales all weights.
pub proof fn law_counts_scale(cs: Seq<Centroid>, ds: Seq<Centroid>, j: int)
    requires
        j >= 0,
        ds.len() == cs.len(),
        forall|i: int|
            0 <= i < cs.len() ==> (#[trigger] ds[i]).weight == two_to(j) * cs[i].weight,
    ensures
        all_scale(counts_of(cs), counts_of(ds), j),
{
    let xs = counts_of(cs);
    let ys = counts_of(ds);
    assert forall|i: int| 0 <= i < xs.len() implies scales(#[trigger] xs[i], ys[i], j) by {
        assert(ds[i].weight == two_to(j) * cs[i].weight);
        law_whole_is_finite(ds[i].weight as int);
        law_scaled_whole(cs[i].weight as int, ds[i].weight as int, j);
    }
}

/// The same of weights that hold a power of the mean each, as long as none of them overflows or
/// underflows.
pub proof fn law_weights_scale(
    cs: Seq<Centroid>,
    ds: Seq<Centroid>,
    weight_power: Binary64,
    powers: Seq<Binary64>,
    j: int,
)
    requires
        j >= 0,
        ds.len() == cs.len(),
        powers.len() == cs.len(),
        forall|i: int|
            0 <= i < cs.len() ==> (#[trigger] ds[i]).weight == two_to(j) * cs[i].weight,
        forall|i: int|
            0 <= i < powers.len() ==> {
                &&& (#[trigger] powers[i]).finite()
                &&& product_unharmed(whole(cs[i].weight as int), powers[i])
                &&& product_of(whole(ds[i].weight as int), powers[i]).finite()
            },
    ensures
        all_scale(
            weights_of(cs, weight_power, powers),
            weights_of(ds, weight_power, powers),
            j,
        ),
{
    let xs = weights_of(cs, weight_power, powers);
    let ys = weights_of(ds, weight_power, powers);
    law_counts_scale(cs, ds, j);
    assert forall|i: int| 0 <= i < xs.len() implies scales(#[trigger] xs[i], ys[i], j) by {
        let a = counts_of(cs)[i];
        let b = counts_of(ds)[i];
        assert(scales(a, b, j));
        assert(powers[i].finite());
        law_scaled_by_one(powers[i]);
        law_scaled_product(a, powers[i], b, powers[i], j, 0);
    }
}

} // verus!
