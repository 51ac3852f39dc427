//! Kernel densities with a bandwidth of their own: what rounding does to the bandwidth changes them
//! by no more than it changes the exponentials.

use vstd::prelude::*;

use crate::binary64::arithmetic::{difference_of, distance, product_of, quotient_of, root_of, unity};
use crate::binary64::closeness::{
    above, agree, below, law_quotient_is_near, lemma_near_agrees, lemma_near_multiple,
    lemma_near_quotient, lemma_near_square, near,
};
use crate::binary64::deviation::{
    law_product_is_near_either_side, law_quotient_is_near_either_side, law_root_is_finite,
    law_root_is_near, lemma_product_size,
};
use crate::binary64::laws::{law_root_has_a_clear_sign, lemma_constants};
use crate::binary64::number::{lemma_opposite, lemma_value_sign, of, opposite, TWO};
use crate::binary64::scaling::{product_unharmed, unharmed};
use crate::binary64::Binary64;
use crate::density::step_of;
use crate::digest::{Centroid, TDigestView};
use crate::kernel::{
    exponent_at, is_bandwidth, is_digest_kernel_density, kernel_density_of, raised_rows,
    TWO_PI,
};
use crate::laws::common_factor::{
    all_agree, bin_unharmed, curves_of, lemma_bins_agree, lemma_near_positive, proportional,
};
use crate::laws::relative_weights::{lemma_kernel_density_looks_at_means, same_means};
use crate::weights::total_of;

verus! {

/// The exponent of a normal curve around `mean`, at `x`, neither overflows nor underflows on the
/// way.
pub open spec fn exponent_unharmed(x: Binary64, mean: Binary64, bandwidth: Binary64) -> bool {
    let apart = difference_of(x, mean);
    let u = quotient_of(apart, bandwidth);
    let square = product_of(opposite(u), u);
    &&& apart.finite()
    &&& bandwidth.finite()
    &&& bandwidth.value() > 0
    &&& unharmed(distance(apart.value()) * unity(), bandwidth.value())
    &&& u.finite()
    &&& product_unharmed(opposite(u), u)
    &&& square.finite()
    &&& unharmed(distance(square.value()) * unity(), 2 * unity())
    &&& quotient_of(square, of(TWO)).finite()
}

/// The size of an exponent is near the exact one for a bandwidth that its bandwidth is near.
pub(crate) proof fn lemma_exponent_is_near(
    x: Binary64,
    mean: Binary64,
    bandwidth: Binary64,
    width: int,
    q: int,
)
    requires
        exponent_unharmed(x, mean, bandwidth),
        near(bandwidth.value(), width, 1, q),
        width > 0,
        q >= 0,
    ensures
        ({
            let t = distance(difference_of(x, mean).value()) * unity();
            near(
                distance(exponent_at(x, mean, bandwidth).value()),
                (t * t) * unity(),
                (unity() * (width * width)) * (2 * unity()),
                4 + 2 * q,
            )
        }),
{
    lemma_constants();
    let one = unity();
    let apart = difference_of(x, mean);
    let u = quotient_of(apart, bandwidth);
    let minus = opposite(u);
    let square = product_of(minus, u);
    let e = exponent_at(x, mean, bandwidth);
    let t = distance(apart.value()) * one;
    assert(t >= 0) by (nonlinear_arith)
        requires
            t == distance(apart.value()) * one,
            distance(apart.value()) >= 0,
            one > 0,
    ;
    // The distance in units of the bandwidth.
    law_quotient_is_near_either_side(apart, bandwidth);
    lemma_product_size(apart.value(), one);
    let s = distance(u.value());
    lemma_near_quotient(s, t, bandwidth.value(), width, 1, 1, q);
    assert(t * 1 == t);
    // Its square.
    lemma_opposite(u);
    law_product_is_near_either_side(minus, u);
    lemma_product_size(minus.value(), u.value());
    let p = distance(square.value());
    lemma_near_square(s, t, width, 1 + q);
    let ss = s * s;
    let tt = t * t;
    let ww = width * width;
    assert(ss >= 0 && tt >= 0) by (nonlinear_arith)
        requires
            ss == s * s,
            tt == t * t,
    ;
    assert(ww > 0) by (nonlinear_arith)
        requires
            ww == width * width,
            width > 0,
    ;
    assert(ss * 1 == ss && tt * 1 == tt);
    lemma_near_multiple(p, ss, 1, one, tt, ww, 1, 2 + 2 * q);
    assert(ww * one == one * ww) by (nonlinear_arith);
    let den = one * ww;
    assert(den > 0) by (nonlinear_arith)
        requires
            den == one * ww,
            one > 0,
            ww > 0,
    ;
    // Half of it.
    law_quotient_is_near_either_side(square, of(TWO));
    lemma_product_size(square.value(), one);
    lemma_near_multiple(distance(e.value()), p, one, 2 * one, tt, den, 1, 3 + 2 * q);
}

/// Bandwidths that are equal up to `q` roundings make exponents that are equal up to `2 * q + 8`.
pub proof fn law_exponents_agree(
    x: Binary64,
    mean: Binary64,
    bandwidth: Binary64,
    width: Binary64,
    q: int,
)
    requires
        q >= 0,
        near(width.value(), bandwidth.value(), 1, q),
        exponent_unharmed(x, mean, bandwidth),
        exponent_unharmed(x, mean, width),
    ensures
        agree(
            distance(exponent_at(x, mean, bandwidth).value()),
            distance(exponent_at(x, mean, width).value()),
            2 * q + 8,
        ),
{
    lemma_constants();
    let u = unity();
    let bw = bandwidth.value();
    assert(bw * 1 == bw);
    assert(near(bw, bw, 1, 0));
    lemma_exponent_is_near(x, mean, bandwidth, bw, 0);
    lemma_exponent_is_near(x, mean, width, bw, q);
    let t = distance(difference_of(x, mean).value()) * u;
    let den = (u * (bw * bw)) * (2 * u);
    assert(den > 0) by (nonlinear_arith)
        requires
            den == (u * (bw * bw)) * (2 * u),
            bw > 0,
            u > 0,
    {
        assert(bw * bw > 0);
        assert(u * (bw * bw) > 0);
    }
    lemma_near_agrees(
        distance(exponent_at(x, mean, bandwidth).value()),
        distance(exponent_at(x, mean, width).value()),
        (t * t) * u,
        den,
        4,
        4 + 2 * q,
    );
}

/// The exponentials in `row` make normal curves without an underflow.
pub open spec fn curves_unharmed(row: Seq<Binary64>) -> bool {
    forall|i: int|
        0 <= i < row.len() ==> {
            &&& (#[trigger] row[i]).finite()
            &&& row[i].nonnegative()
            &&& quotient_of(row[i], root_of(of(TWO_PI))).finite()
            &&& unharmed(row[i].value() * unity(), root_of(of(TWO_PI)).value())
        }
}

/// The square root of two pi is a positive number.
pub(crate) proof fn lemma_root_of_two_pi()
    ensures
        root_of(of(TWO_PI)).finite(),
        root_of(of(TWO_PI)).value() > 0,
{
    lemma_constants();
    let a = of(TWO_PI);
    lemma_value_sign(a);
    law_root_is_finite(a);
    law_root_is_near(a);
    law_root_has_a_clear_sign(a);
    let r = root_of(a).value();
    let u = unity();
    lemma_value_sign(root_of(a));
    if r == 0 {
        assert(r * r == 0) by (nonlinear_arith)
            requires
                r == 0,
        ;
        assert(a.value() * u > 0) by (nonlinear_arith)
            requires
                a.value() > 0,
                u > 0,
        ;
        lemma_near_positive(0, a.value() * u, 1, 2);
    }
}

/// Exponentials that are equal up to `p` roundings make normal curves that are equal up to
/// `p + 2`.
proof fn lemma_curves_agree(row: Seq<Binary64>, line: Seq<Binary64>, p: int)
    requires
        p >= 0,
        all_agree(row, line, p),
        curves_unharmed(row),
        curves_unharmed(line),
    ensures
        all_agree(curves_of(row), curves_of(line), p + 2),
{
    lemma_constants();
    lemma_root_of_two_pi();
    let root = root_of(of(TWO_PI));
    let u = unity();
    let xs = curves_of(row);
    let ys = curves_of(line);
    assert forall|i: int| 0 <= i < xs.len() implies near(
        (#[trigger] ys[i]).value(),
        xs[i].value(),
        1,
        p + 2,
    ) by {
        let a = row[i];
        let b = line[i];
        assert(a.finite() && b.finite());
        lemma_value_sign(a);
        lemma_value_sign(b);
        law_quotient_is_near(a, root);
        law_quotient_is_near(b, root);
        lemma_near_multiple(ys[i].value(), b.value(), u, root.value(), a.value(), 1, 1, p);
        assert(1 * root.value() == root.value());
        lemma_near_agrees(xs[i].value(), ys[i].value(), a.value() * u, root.value(), 1, 1 + p);
        assert(ys[i].value() * 1 == ys[i].value());
    }
}

/// A bandwidth and exponentials for weights `ws`, and others for weights `vs`, differ by `q` and by
/// `p` roundings, and no bin overflows or underflows on the way with either.
pub open spec fn rounding_apart(
    ws: Seq<Binary64>,
    vs: Seq<Binary64>,
    rows: Seq<Seq<Binary64>>,
    lines: Seq<Seq<Binary64>>,
    bw: Binary64,
    width: Binary64,
    dx: Binary64,
    p: int,
    q: int,
) -> bool {
    &&& near(width.value(), bw.value(), 1, q)
    &&& forall|i: int|
        #![trigger rows[i]]
        #![trigger lines[i]]
        0 <= i < rows.len() ==> {
            &&& all_agree(rows[i], lines[i], p)
            &&& curves_unharmed(rows[i])
            &&& curves_unharmed(lines[i])
            &&& bin_unharmed(ws, rows[i], bw, dx)
            &&& bin_unharmed(vs, lines[i], width, dx)
        }
}

/// Multiplying all weights by a common factor, where that changes the bandwidth by `q` roundings
/// and the exponentials by `p`, changes a kernel density by rounding alone.
pub proof fn law_kernel_densities_agree(
    ws: Seq<Binary64>,
    vs: Seq<Binary64>,
    rows: Seq<Seq<Binary64>>,
    lines: Seq<Seq<Binary64>>,
    bandwidth: Binary64,
    width: Binary64,
    dx: Binary64,
    k: int,
    m: int,
    p: int,
    q: int,
)
    requires
        k >= 1,
        m >= 0,
        p >= 0,
        q >= 0,
        proportional(ws, vs, k, m),
        rows.len() == lines.len(),
        rounding_apart(ws, vs, rows, lines, bandwidth, width, dx, p, q),
    ensures
        kernel_density_of(vs, lines, width, dx).len() == kernel_density_of(
            ws,
            rows,
            bandwidth,
            dx,
        ).len(),
        forall|i: int|
            0 <= i < rows.len() ==> agree(
                (#[trigger] kernel_density_of(ws, rows, bandwidth, dx)[i]).value(),
                kernel_density_of(vs, lines, width, dx)[i].value(),
                4 * ws.len() + 2 * m + p + q + 12,
            ),
{
    let r = kernel_density_of(ws, rows, bandwidth, dx);
    let s = kernel_density_of(vs, lines, width, dx);
    assert forall|i: int| 0 <= i < rows.len() implies agree(
        (#[trigger] r[i]).value(),
        s[i].value(),
        4 * ws.len() + 2 * m + p + q + 12,
    ) by {
        assert(all_agree(rows[i], lines[i], p));
        lemma_curves_agree(rows[i], lines[i], p);
        lemma_bins_agree(ws, vs, rows[i], lines[i], bandwidth, width, dx, k, m, p + 2, q);
    }
}

/// Whatever `powf` and `exp` give: the bandwidths for weights `ws` and `vs` and the exponentials
/// that they lead to are rounding apart.
pub open spec fn steady<P: Fn(Binary64, Binary64) -> Binary64, X: Fn(Binary64) -> Binary64>(
    powf: P,
    exp: X,
    cs: Seq<Centroid>,
    ws: Seq<Binary64>,
    vs: Seq<Binary64>,
    n: int,
    x_min: Binary64,
    dx: Binary64,
    bandwidth: Binary64,
    p: int,
    q: int,
) -> bool {
    forall|bw: Binary64, width: Binary64, rows: Seq<Seq<Binary64>>, lines: Seq<Seq<Binary64>>|
        {
            &&& is_bandwidth(powf, cs, ws, dx, bandwidth, bw)
            &&& is_bandwidth(powf, cs, vs, dx, bandwidth, width)
            &&& #[trigger] raised_rows(exp, cs, n, x_min, dx, bw, rows)
            &&& #[trigger] raised_rows(exp, cs, n, x_min, dx, width, lines)
        } ==> rounding_apart(ws, vs, rows, lines, bw, width, dx, p, q)
}

/// Only relative weights matter to the kernel density of a digest, for a given bandwidth and for
/// the automatic one alike: multiplying the weights of all centroids by a common factor changes it
/// by rounding alone, as long as that changes the bandwidth and the exponentials by rounding alone.
pub proof fn law_digest_kernel_densities_agree<
    P: Fn(Binary64, Binary64) -> Binary64,
    X: Fn(Binary64) -> Binary64,
>(
    powf: P,
    exp: X,
    digest: TDigestView,
    heavier: TDigestView,
    ws: Seq<Binary64>,
    vs: Seq<Binary64>,
    num_points: i32,
    x_min: Binary64,
    x_max: Binary64,
    bandwidth: Binary64,
    r: Seq<Binary64>,
    s: Seq<Binary64>,
    k: int,
    m: int,
    p: int,
    q: int,
)
    requires
        k >= 1,
        m >= 0,
        p >= 0,
        q >= 0,
        same_means(digest.centroids, heavier.centroids),
        digest.count == 0 <==> heavier.count == 0,
        proportional(ws, vs, k, m),
        total_of(ws).value() != 0,
        total_of(vs).value() != 0,
        steady(
            powf,
            exp,
            digest.centroids,
            ws,
            vs,
            num_points as int,
            x_min,
            step_of(num_points as int, x_min, x_max),
            bandwidth,
            p,
            q,
        ),
        is_digest_kernel_density(
            powf,
            exp,
            digest,
            ws,
            num_points,
            x_min,
            x_max,
            bandwidth,
            r,
        ),
        is_digest_kernel_density(
            powf,
            exp,
            heavier,
            vs,
            num_points,
            x_min,
            x_max,
            bandwidth,
            s,
        ),
    ensures
        s.len() == r.len(),
        forall|i: int|
            0 <= i < r.len() ==> agree(
                (#[trigger] r[i]).value(),
                s[i].value(),
                4 * ws.len() + 2 * m + p + q + 12,
            ),
{
    lemma_constants();
    let n = num_points as int;
    let dx = step_of(n, x_min, x_max);
    let cs = digest.centroids;
    let ds = heavier.centroids;
    let f = 4 * ws.len() + 2 * m + p + q + 12;
    if n <= 0 || digest.count == 0 {
        assert forall|i: int| 0 <= i < r.len() implies agree(
            (#[trigger] r[i]).value(),
            s[i].value(),
            f,
        ) by {
            assert(r[i] == of(0) && s[i] == of(0));
            assert(0 * below(f) == 0 && 0 * above(f) == 0);
        }
    } else {
        assert(same_means(ds, cs)) by {
            assert forall|i: int| 0 <= i < ds.len() implies (
            #[trigger] cs[i]).mean == ds[i].mean by {
                assert(ds[i].mean == cs[i].mean);
            }
        }
        lemma_kernel_density_looks_at_means(
            powf,
            exp,
            ds,
            cs,
            vs,
            n,
            x_min,
            dx,
            bandwidth,
            s,
        );
        let (bw, rows) = choose|bw: Binary64, rows: Seq<Seq<Binary64>>|
            {
                &&& #[trigger] is_bandwidth(powf, cs, ws, dx, bandwidth, bw)
                &&& #[trigger] raised_rows(exp, cs, n, x_min, dx, bw, rows)
                &&& r == kernel_density_of(ws, rows, bw, dx)
            };
        let (width, lines) = choose|width: Binary64, lines: Seq<Seq<Binary64>>|
            {
                &&& #[trigger] is_bandwidth(powf, cs, vs, dx, bandwidth, width)
                &&& #[trigger] raised_rows(exp, cs, n, x_min, dx, width, lines)
                &&& s == kernel_density_of(vs, lines, width, dx)
            };
        assert(rounding_apart(ws, vs, rows, lines, bw, width, dx, p, q));
        law_kernel_densities_agree(ws, vs, rows, lines, bw, width, dx, k, m, p, q);
    }
}

} // verus!
