//! What holds of every fit and every score, proved over the model.

use vstd::prelude::*;
use crate::quantile_model::{
    at_or_below, den, is_quantile_slope, lemma_ratio_order_transitive, lemma_weight_bounds,
    lemma_weight_of_equal_ratios, lemma_weights_of_concat, num, reaches, same_weights,
    total_weight, weight_at_or_below,
};
use crate::goodness::{
    response_sum, scaled_deviation_ss, scaled_residual_ss, scaled_total_ss, score_den, score_num,
};

verus! {

/// The points with every response multiplied by `c`.
pub open spec fn scale_responses(pts: Seq<(int, int)>, c: int) -> Seq<(int, int)> {
    Seq::new(pts.len(), |i: int| (pts[i].0, c * pts[i].1))
}

/// `base`, followed by `k` copies of the point `p`.
pub open spec fn with_copies(base: Seq<(int, int)>, p: (int, int), k: nat) -> Seq<(int, int)>
    decreases k,
{
    if k == 0 {
        base
    } else {
        with_copies(base, p, (k - 1) as nat).push(p)
    }
}

/// A share that is reached at a ratio is reached there for every lower level too.
pub proof fn lemma_lower_level_reached(
    pts: Seq<(int, int)>,
    tn1: int,
    td1: int,
    tn2: int,
    td2: int,
    n: int,
    d: int,
)
    requires
        td1 > 0,
        td2 > 0,
        tn1 * td2 <= tn2 * td1,
        reaches(pts, tn2, td2, n, d),
    ensures
        reaches(pts, tn1, td1, n, d),
{
    lemma_weight_bounds(pts, n, d);
    let w = weight_at_or_below(pts, n, d);
    let total = total_weight(pts);
    assert(tn1 * td2 * total <= tn2 * td1 * total) by (nonlinear_arith)
        requires
            tn1 * td2 <= tn2 * td1,
            total >= 0,
    ;
    assert(tn2 * total * td1 <= w * td2 * td1) by (nonlinear_arith)
        requires
            w * td2 >= tn2 * total,
            td1 > 0,
    ;
    assert(w * td1 >= tn1 * total) by (nonlinear_arith)
        requires
            tn1 * td2 * total <= tn2 * td1 * total,
            tn2 * total * td1 <= w * td2 * td1,
            td2 > 0,
    ;
}

/// Quantile monotonicity: for fixed data, a higher quantile level never gives a
/// lower slope.
pub proof fn law_slope_monotone_in_level(
    pts: Seq<(int, int)>,
    tn1: int,
    td1: int,
    tn2: int,
    td2: int,
    n1: int,
    d1: int,
    n2: int,
    d2: int,
)
    requires
        td1 > 0,
        td2 > 0,
        tn1 * td2 <= tn2 * td1,
        is_quantile_slope(pts, tn1, td1, n1, d1),
        is_quantile_slope(pts, tn2, td2, n2, d2),
    ensures
        n1 * d2 <= n2 * d1,
{
    let k1 = choose|k: int|
        0 <= k < pts.len() && (#[trigger] pts[k]).0 != 0 && n1 * den(pts[k]) == num(pts[k]) * d1;
    let k2 = choose|k: int|
        0 <= k < pts.len() && (#[trigger] pts[k]).0 != 0 && n2 * den(pts[k]) == num(pts[k]) * d2;
    if reaches(pts, tn2, td2, n2, d2) {
        let p = pts[k2];
        lemma_weight_of_equal_ratios(pts, n2, d2, num(p), den(p));
        lemma_lower_level_reached(pts, tn1, td1, tn2, td2, num(p), den(p));
        assert(n1 * den(p) <= num(p) * d1);
        lemma_ratio_order_transitive(n1, d1, num(p), den(p), n2, d2);
    } else {
        let p = pts[k1];
        assert(num(p) * d2 <= n2 * den(p));
        lemma_ratio_order_transitive(n1, d1, num(p), den(p), n2, d2);
    }
}

/// The fitted slope is one value: two fractions that are both the quantile slope of
/// the same data at the same level are equal.
pub proof fn law_slope_unique(
    pts: Seq<(int, int)>,
    tn: int,
    td: int,
    n1: int,
    d1: int,
    n2: int,
    d2: int,
)
    requires
        td > 0,
        is_quantile_slope(pts, tn, td, n1, d1),
        is_quantile_slope(pts, tn, td, n2, d2),
    ensures
        n1 * d2 == n2 * d1,
{
    law_slope_monotone_in_level(pts, tn, td, tn, td, n1, d1, n2, d2);
    law_slope_monotone_in_level(pts, tn, td, tn, td, n2, d2, n1, d1);
}

/// Exactness on perfect lines: where every point lies on `y = (a / b) * x`, the fitted
/// slope is `a / b`, at every quantile level.
pub proof fn law_fit_exact_on_line(
    pts: Seq<(int, int)>,
    a: int,
    b: int,
    tn: int,
    td: int,
    n: int,
    d: int,
)
    requires
        b != 0,
        forall|i: int| 0 <= i < pts.len() ==> b * (#[trigger] pts[i]).1 == a * pts[i].0,
        is_quantile_slope(pts, tn, td, n, d),
    ensures
        n * b == a * d,
{
    let k = choose|k: int|
        0 <= k < pts.len() && (#[trigger] pts[k]).0 != 0 && n * den(pts[k]) == num(pts[k]) * d;
    let x = pts[k].0;
    let y = pts[k].1;
    assert(b * y == a * x);
    assert(n * x == y * d) by (nonlinear_arith)
        requires
            n * den((x, y)) == num((x, y)) * d,
            den((x, y)) == if x < 0 { -x } else { x },
            num((x, y)) == if x < 0 { -y } else { y },
    ;
    assert(n * b == a * d) by (nonlinear_arith)
        requires
            n * x == y * d,
            b * y == a * x,
            x != 0,
    ;
}

/// Every point on the line `y = (p / q) * x` leaves no residual.
pub proof fn lemma_no_residual_on_line(pts: Seq<(int, int)>, p: int, q: int)
    requires
        forall|i: int| 0 <= i < pts.len() ==> q * (#[trigger] pts[i]).1 == p * pts[i].0,
    ensures
        scaled_residual_ss(pts, p, q) == 0,
    decreases pts.len(),
{
    if pts.len() > 0 {
        let init = pts.drop_last();
        assert forall|i: int| 0 <= i < init.len() implies q * (#[trigger] init[i]).1 == p
            * init[i].0 by {
            assert(init[i] == pts[i]);
        }
        lemma_no_residual_on_line(init, p, q);
        assert(q * pts.last().1 == p * pts.last().0);
    }
}

/// Exactness on perfect lines: where every point lies on `y = (a / b) * x`, the score of
/// the slope `p / q = a / b` is one, whenever the responses vary at all.
pub proof fn law_score_one_on_line(pts: Seq<(int, int)>, a: int, b: int, p: int, q: int)
    requires
        b != 0,
        q != 0,
        p * b == a * q,
        forall|i: int| 0 <= i < pts.len() ==> b * (#[trigger] pts[i]).1 == a * pts[i].0,
    ensures
        scaled_residual_ss(pts, p, q) == 0,
        score_num(pts, p, q) == score_den(pts, q),
{
    assert forall|i: int| 0 <= i < pts.len() implies q * (#[trigger] pts[i]).1 == p * pts[i].0 by {
        let x = pts[i].0;
        let y = pts[i].1;
        assert(q * y == p * x) by (nonlinear_arith)
            requires
                b * y == a * x,
                p * b == a * q,
                b != 0,
        ;
    }
    lemma_no_residual_on_line(pts, p, q);
    assert(pts.len() * pts.len() * 0 == 0);
}

/// Scaling the responses by a positive factor scales the ratio of a point and keeps
/// its weight.
pub proof fn lemma_scaled_point(pt: (int, int), c: int, n: int, d: int)
    requires
        c > 0,
    ensures
        num((pt.0, c * pt.1)) == c * num(pt),
        den((pt.0, c * pt.1)) == den(pt),
        at_or_below((pt.0, c * pt.1), c * n, d) == at_or_below(pt, n, d),
{
    let y = pt.1;
    let w = den(pt);
    let r = num(pt);
    assert(-(c * y) == c * (-y)) by (nonlinear_arith);
    assert((c * r) * d == c * (r * d)) by (nonlinear_arith);
    assert((c * n) * w == c * (n * w)) by (nonlinear_arith);
    assert((c * (r * d) <= c * (n * w)) == (r * d <= n * w)) by (nonlinear_arith)
        requires
            c > 0,
    ;
}

/// Scaling the responses by a positive factor keeps the total weight, and keeps the
/// weight accumulated at a ratio that is scaled along.
pub proof fn lemma_scaled_weights(pts: Seq<(int, int)>, c: int, n: int, d: int)
    requires
        c > 0,
    ensures
        total_weight(scale_responses(pts, c)) == total_weight(pts),
        weight_at_or_below(scale_responses(pts, c), c * n, d) == weight_at_or_below(pts, n, d),
    decreases pts.len(),
{
    let scaled = scale_responses(pts, c);
    if pts.len() > 0 {
        lemma_scaled_weights(pts.drop_last(), c, n, d);
        assert(scaled.drop_last() =~= scale_responses(pts.drop_last(), c));
        assert(scaled.last() == (pts.last().0, c * pts.last().1));
        lemma_scaled_point(pts.last(), c, n, d);
    }
}

/// Scaling the responses by a positive factor keeps what is reached at a ratio that is
/// scaled along.
pub proof fn lemma_scaled_reaches(pts: Seq<(int, int)>, c: int, tn: int, td: int, n: int, d: int)
    requires
        c > 0,
    ensures
        reaches(scale_responses(pts, c), tn, td, c * n, d) == reaches(pts, tn, td, n, d),
{
    lemma_scaled_weights(pts, c, n, d);
}

/// Scale invariance of the fit: scaling all responses by a constant `c` that is not
/// negative scales the fitted slope by `c`. (A negative factor turns the order of the
/// ratios around, and with it the quantile.)
pub proof fn law_fit_scales_with_responses(
    pts: Seq<(int, int)>,
    c: int,
    tn: int,
    td: int,
    n: int,
    d: int,
)
    requires
        c >= 0,
        is_quantile_slope(pts, tn, td, n, d),
    ensures
        is_quantile_slope(scale_responses(pts, c), tn, td, c * n, d),
{
    if c == 0 {
        lemma_flat_responses(pts, tn, td, n, d);
    } else {
        lemma_fit_scales_up(pts, c, tn, td, n, d);
    }
}

/// With every response at zero, the fitted slope is zero.
proof fn lemma_flat_responses(pts: Seq<(int, int)>, tn: int, td: int, n: int, d: int)
    requires
        is_quantile_slope(pts, tn, td, n, d),
    ensures
        is_quantile_slope(scale_responses(pts, 0), tn, td, 0 * n, d),
{
    let flat = scale_responses(pts, 0);
    let k = choose|k: int|
        0 <= k < pts.len() && (#[trigger] pts[k]).0 != 0 && n * den(pts[k]) == num(pts[k]) * d;
    assert(0 * n == 0);
    assert forall|j: int| 0 <= j < flat.len() implies num(#[trigger] flat[j]) == 0 by {
        assert(0 * pts[j].1 == 0);
    }
    assert(flat[k].0 != 0 && 0 * den(flat[k]) == num(flat[k]) * d);
    assert forall|j: int| 0 <= j < flat.len() && (#[trigger] flat[j]).0 != 0 implies 0 * den(
        flat[j],
    ) <= num(flat[j]) * d && num(flat[j]) * d <= 0 * den(flat[j]) by {
        assert(num(flat[j]) == 0);
    }
}

/// Scaling all responses by a positive constant `c` scales the fitted slope by `c`.
proof fn lemma_fit_scales_up(pts: Seq<(int, int)>, c: int, tn: int, td: int, n: int, d: int)
    requires
        c > 0,
        is_quantile_slope(pts, tn, td, n, d),
    ensures
        is_quantile_slope(scale_responses(pts, c), tn, td, c * n, d),
{
    let scaled = scale_responses(pts, c);
    let k = choose|k: int|
        0 <= k < pts.len() && (#[trigger] pts[k]).0 != 0 && n * den(pts[k]) == num(pts[k]) * d;
    lemma_scaled_point(pts[k], c, n, d);
    assert((c * n) * den(pts[k]) == (c * num(pts[k])) * d) by (nonlinear_arith)
        requires
            n * den(pts[k]) == num(pts[k]) * d,
    ;
    assert(0 <= k < scaled.len() && scaled[k].0 != 0 && (c * n) * den(scaled[k]) == num(scaled[k])
        * d);
    lemma_scaled_reaches(pts, c, tn, td, n, d);
    assert forall|j: int| 0 <= j < scaled.len() && (#[trigger] scaled[j]).0 != 0 implies (reaches(
        scaled,
        tn,
        td,
        num(scaled[j]),
        den(scaled[j]),
    ) ==> (c * n) * den(scaled[j]) <= num(scaled[j]) * d) && ((num(pts[j]) * d <= n * den(pts[j]))
        ==> num(scaled[j]) * d <= (c * n) * den(scaled[j])) by {
        let r = num(pts[j]);
        let w = den(pts[j]);
        lemma_scaled_point(pts[j], c, n, d);
        lemma_scaled_reaches(pts, c, tn, td, r, w);
        assert(pts[j].0 != 0);
        assert((c * n) * w == c * (n * w)) by (nonlinear_arith);
        assert((c * r) * d == c * (r * d)) by (nonlinear_arith);
        assert(n * w <= r * d ==> c * (n * w) <= c * (r * d)) by (nonlinear_arith)
            requires
                c > 0,
        ;
        assert(r * d <= n * w ==> c * (r * d) <= c * (n * w)) by (nonlinear_arith)
            requires
                c > 0,
        ;
    }
    if !reaches(pts, tn, td, n, d) {
        assert forall|j: int| 0 <= j < scaled.len() && (#[trigger] scaled[j]).0 != 0 implies num(
            scaled[j],
        ) * d <= (c * n) * den(scaled[j]) by {
            assert(pts[j].0 != 0);
        }
    }
}

/// Scaling the responses and the sum they are measured against by `c` scales the
/// sums of squares by `c * c`.
pub proof fn lemma_scaled_sums(pts: Seq<(int, int)>, c: int, p: int, q: int, m: int, s: int)
    ensures
        response_sum(scale_responses(pts, c)) == c * response_sum(pts),
        scaled_residual_ss(scale_responses(pts, c), c * p, q) == c * c * scaled_residual_ss(
            pts,
            p,
            q,
        ),
        scaled_deviation_ss(scale_responses(pts, c), m, c * s) == c * c * scaled_deviation_ss(
            pts,
            m,
            s,
        ),
    decreases pts.len(),
{
    let scaled = scale_responses(pts, c);
    if pts.len() > 0 {
        let init = pts.drop_last();
        lemma_scaled_sums(init, c, p, q, m, s);
        assert(scaled.drop_last() =~= scale_responses(init, c));
        let x = pts.last().0;
        let y = pts.last().1;
        assert(scaled.last() == (x, c * y));
        let rs = response_sum(init);
        assert(c * rs + c * y == c * (rs + y)) by (nonlinear_arith);
        let e = q * y - p * x;
        let rr = scaled_residual_ss(init, p, q);
        assert(q * (c * y) - (c * p) * x == c * e) by (nonlinear_arith)
            requires
                e == q * y - p * x,
        ;
        assert(c * c * rr + (c * e) * (c * e) == c * c * (rr + e * e)) by (nonlinear_arith);
        let t = m * y - s;
        let tt = scaled_deviation_ss(init, m, s);
        assert(m * (c * y) - c * s == c * t) by (nonlinear_arith)
            requires
                t == m * y - s,
        ;
        assert(c * c * tt + (c * t) * (c * t) == c * c * (tt + t * t)) by (nonlinear_arith);
    } else {
        assert(c * 0 == 0);
        assert(c * c * 0 == 0);
    }
}

/// Scale invariance of the score: scaling all responses and the slope by a constant
/// `c` other than zero leaves the score `num / den` unchanged.
pub proof fn law_score_keeps_under_scaling(pts: Seq<(int, int)>, c: int, p: int, q: int)
    requires
        c != 0,
    ensures
        score_num(scale_responses(pts, c), c * p, q) == c * c * score_num(pts, p, q),
        score_den(scale_responses(pts, c), q) == c * c * score_den(pts, q),
        c * c > 0,
        score_num(scale_responses(pts, c), c * p, q) * score_den(pts, q) == score_num(pts, p, q)
            * score_den(scale_responses(pts, c), q),
{
    let scaled = scale_responses(pts, c);
    let len = pts.len() as int;
    lemma_scaled_sums(pts, c, p, q, len, response_sum(pts));
    let t = scaled_total_ss(pts);
    let r = scaled_residual_ss(pts, p, q);
    assert(scaled_total_ss(scaled) == c * c * t);
    assert(q * q * (c * c * t) == c * c * (q * q * t)) by (nonlinear_arith);
    assert(len * len * (c * c * r) == c * c * (len * len * r)) by (nonlinear_arith);
    assert(c * c * (q * q * t) - c * c * (len * len * r) == c * c * (q * q * t - len * len * r))
        by (nonlinear_arith);
    assert(c * c > 0) by (nonlinear_arith)
        requires
            c != 0,
    ;
    let sn = score_num(pts, p, q);
    let sd = score_den(pts, q);
    assert((c * c * sn) * sd == sn * (c * c * sd)) by (nonlinear_arith);
}

/// Appending a point adds its weight to the total, and to the weight accumulated at
/// every ratio that it does not exceed.
pub proof fn lemma_weights_of_copies(base: Seq<(int, int)>, p: (int, int), k: nat, n: int, d: int)
    ensures
        with_copies(base, p, k).len() == base.len() + k,
        forall|i: int| 0 <= i < base.len() ==> with_copies(base, p, k)[i] == base[i],
        forall|i: int| base.len() <= i < base.len() + k ==> with_copies(base, p, k)[i] == p,
        total_weight(with_copies(base, p, k)) == total_weight(base) + k * den(p),
        weight_at_or_below(with_copies(base, p, k), n, d) == weight_at_or_below(base, n, d) + if at_or_below(
            p,
            n,
            d,
        ) {
            k * den(p)
        } else {
            0
        },
    decreases k,
{
    if k > 0 {
        let init = with_copies(base, p, (k - 1) as nat);
        lemma_weights_of_copies(base, p, (k - 1) as nat, n, d);
        assert(init.push(p).drop_last() =~= init);
        assert((k - 1) * den(p) + den(p) == k * den(p)) by (nonlinear_arith);
    } else {
        assert(0 * den(p) == 0);
    }
}

/// One point `(k * x, k * y)` weighs as much as `k` copies of `(x, y)`, at every ratio.
pub proof fn lemma_merged_weights(base: Seq<(int, int)>, p: (int, int), k: nat, n: int, d: int)
    requires
        k >= 1,
    ensures
        num((k * p.0, k * p.1)) == k * num(p),
        den((k * p.0, k * p.1)) == k * den(p),
        (k * p.0 != 0) == (p.0 != 0),
        at_or_below((k * p.0, k * p.1), n, d) == at_or_below(p, n, d),
        total_weight(base.push((k * p.0, k * p.1))) == total_weight(with_copies(base, p, k)),
        weight_at_or_below(base.push((k * p.0, k * p.1)), n, d) == weight_at_or_below(
            with_copies(base, p, k),
            n,
            d,
        ),
{
    let x = p.0;
    let y = p.1;
    let kk = k as int;
    let merged = (kk * x, kk * y);
    assert((kk * x < 0) == (x < 0) && (kk * x != 0) == (x != 0)) by (nonlinear_arith)
        requires
            kk >= 1,
    ;
    assert(-(kk * y) == kk * (-y) && -(kk * x) == kk * (-x)) by (nonlinear_arith);
    let r = num(p);
    let w = den(p);
    assert(num(merged) == kk * r);
    assert(den(merged) == kk * w);
    assert(((kk * r) * d <= n * (kk * w)) == (r * d <= n * w)) by (nonlinear_arith)
        requires
            kk >= 1,
    ;
    assert(base.push(merged).drop_last() =~= base);
    lemma_weights_of_copies(base, p, k, n, d);
    if x == 0 {
        assert(w == 0);
        assert(kk * w == 0) by (nonlinear_arith)
            requires
                w == 0,
        ;
    }
}

/// Every ratio of a point of `a` with a nonzero predictor is the ratio of such a
/// point of `b`.
pub open spec fn ratios_found_in(a: Seq<(int, int)>, b: Seq<(int, int)>) -> bool {
    forall|i: int|
        0 <= i < a.len() && (#[trigger] a[i]).0 != 0 ==> exists|j: int|
            0 <= j < b.len() && (#[trigger] b[j]).0 != 0 && num(a[i]) * den(b[j]) == num(b[j]) * den(
                a[i],
            )
}

/// The fit rests on the ratios and their weights alone: two sets that hold the same
/// ratios and weigh the same up to every ratio have the same quantile slopes. The
/// order of the points, and how the weight of a ratio is spread over points, do not
/// count.
pub proof fn law_fit_rests_on_weights(
    a: Seq<(int, int)>,
    b: Seq<(int, int)>,
    tn: int,
    td: int,
    n: int,
    d: int,
)
    requires
        same_weights(a, b),
        ratios_found_in(a, b),
        ratios_found_in(b, a),
        is_quantile_slope(a, tn, td, n, d),
    ensures
        is_quantile_slope(b, tn, td, n, d),
{
    let ka = choose|k: int|
        0 <= k < a.len() && (#[trigger] a[k]).0 != 0 && n * den(a[k]) == num(a[k]) * d;
    let kb = choose|j: int|
        0 <= j < b.len() && (#[trigger] b[j]).0 != 0 && num(a[ka]) * den(b[j]) == num(b[j]) * den(
            a[ka],
        );
    assert(n * den(b[kb]) == num(b[kb]) * d) by {
        lemma_ratio_order_transitive(n, d, num(a[ka]), den(a[ka]), num(b[kb]), den(b[kb]));
        lemma_ratio_order_transitive(num(b[kb]), den(b[kb]), num(a[ka]), den(a[ka]), n, d);
    }
    assert(weight_at_or_below(a, n, d) == weight_at_or_below(b, n, d));
    assert forall|j: int| 0 <= j < b.len() && (#[trigger] b[j]).0 != 0 implies (reaches(
        b,
        tn,
        td,
        num(b[j]),
        den(b[j]),
    ) ==> n * den(b[j]) <= num(b[j]) * d) && (!reaches(a, tn, td, n, d) ==> num(b[j]) * d <= n
        * den(b[j])) by {
        let nj = num(b[j]);
        let dj = den(b[j]);
        let i = choose|i: int|
            0 <= i < a.len() && (#[trigger] a[i]).0 != 0 && nj * den(a[i]) == num(a[i]) * dj;
        let ni = num(a[i]);
        let di = den(a[i]);
        lemma_weight_of_equal_ratios(a, nj, dj, ni, di);
        assert(weight_at_or_below(a, nj, dj) == weight_at_or_below(b, nj, dj));
        if n * di <= ni * d {
            lemma_ratio_order_transitive(n, d, ni, di, nj, dj);
        }
        if ni * d <= n * di {
            lemma_ratio_order_transitive(nj, dj, ni, di, n, d);
        }
    }
}

/// Weighing the same is mutual.
pub proof fn lemma_same_weights_symmetric(a: Seq<(int, int)>, b: Seq<(int, int)>)
    requires
        same_weights(a, b),
    ensures
        same_weights(b, a),
{
    assert forall|n: int, d: int| #[trigger]
        weight_at_or_below(b, n, d) == weight_at_or_below(a, n, d) by {
        assert(weight_at_or_below(a, n, d) == weight_at_or_below(b, n, d));
    }
}

/// A set with `k` copies of a point weighs the same as the set with the one point of
/// `k` times the weight in their place.
pub proof fn lemma_copies_weigh_the_same(
    before: Seq<(int, int)>,
    after: Seq<(int, int)>,
    p: (int, int),
    k: nat,
)
    requires
        k >= 1,
    ensures
        same_weights(
            with_copies(before, p, k) + after,
            before.push((k * p.0, k * p.1)) + after,
        ),
{
    let x = with_copies(before, p, k);
    let y = before.push((k * p.0, k * p.1));
    lemma_merged_weights(before, p, k, 0, 1);
    lemma_weights_of_concat(x, after);
    lemma_weights_of_concat(y, after);
    assert forall|n: int, d: int| #[trigger]
        weight_at_or_below(x + after, n, d) == weight_at_or_below(y + after, n, d) by {
        lemma_merged_weights(before, p, k, n, d);
        assert(weight_at_or_below(y + after, n, d) == weight_at_or_below(y, n, d)
            + weight_at_or_below(after, n, d));
    }
}

/// A set with `k` copies of a point holds the same ratios as the set with the one
/// point of `k` times the weight in their place.
pub proof fn lemma_copies_hold_the_same_ratios(
    before: Seq<(int, int)>,
    after: Seq<(int, int)>,
    p: (int, int),
    k: nat,
)
    requires
        k >= 1,
    ensures
        ratios_found_in(
            with_copies(before, p, k) + after,
            before.push((k * p.0, k * p.1)) + after,
        ),
        ratios_found_in(
            before.push((k * p.0, k * p.1)) + after,
            with_copies(before, p, k) + after,
        ),
{
    let merged = (k * p.0, k * p.1);
    let x = with_copies(before, p, k);
    let a = x + after;
    let b = before.push(merged) + after;
    let first = before.len() as int;
    lemma_weights_of_copies(before, p, k, 0, 1);
    lemma_merged_weights(before, p, k, 0, 1);
    assert(num(p) * den(merged) == num(merged) * den(p)) by (nonlinear_arith)
        requires
            num(merged) == k * num(p),
            den(merged) == k * den(p),
    ;
    assert(b[first] == merged);
    assert(a[first] == p);
    assert forall|i: int| 0 <= i < a.len() && (#[trigger] a[i]).0 != 0 implies exists|j: int|
        0 <= j < b.len() && (#[trigger] b[j]).0 != 0 && num(a[i]) * den(b[j]) == num(b[j]) * den(
            a[i],
        ) by {
        if i < first {
            assert(a[i] == before[i] && b[i] == a[i]);
        } else if i < first + k {
            assert(a[i] == p);
            assert(b[first].0 != 0);
        } else {
            assert(a[i] == after[i - first - k]);
            assert(b[i - k + 1] == after[i - k + 1 - (first + 1)]);
            assert(b[i - k + 1] == a[i]);
        }
    }
    assert forall|j: int| 0 <= j < b.len() && (#[trigger] b[j]).0 != 0 implies exists|i: int|
        0 <= i < a.len() && (#[trigger] a[i]).0 != 0 && num(b[j]) * den(a[i]) == num(a[i]) * den(
            b[j],
        ) by {
        if j < first {
            assert(b[j] == before[j] && a[j] == b[j]);
        } else if j == first {
            assert(a[first].0 != 0);
        } else {
            assert(b[j] == after[j - first - 1]);
            assert(a[j + k - 1] == after[j + k - 1 - (first + k)]);
            assert(a[j + k - 1] == b[j]);
        }
    }
}

/// Weight sensitivity: `k` identical copies of a point `(x, y)` count for the fit as
/// the one point `(k * x, k * y)`, which has the same ratio and `k` times the weight,
/// wherever in the set they stand.
pub proof fn law_copies_weigh_as_one_point(
    before: Seq<(int, int)>,
    after: Seq<(int, int)>,
    p: (int, int),
    k: nat,
    tn: int,
    td: int,
    n: int,
    d: int,
)
    requires
        k >= 1,
    ensures
        is_quantile_slope(with_copies(before, p, k) + after, tn, td, n, d) == is_quantile_slope(
            before.push((k * p.0, k * p.1)) + after,
            tn,
            td,
            n,
            d,
        ),
{
    let a = with_copies(before, p, k) + after;
    let b = before.push((k * p.0, k * p.1)) + after;
    lemma_copies_weigh_the_same(before, after, p, k);
    lemma_same_weights_symmetric(a, b);
    lemma_copies_hold_the_same_ratios(before, after, p, k);
    if is_quantile_slope(a, tn, td, n, d) {
        law_fit_rests_on_weights(a, b, tn, td, n, d);
    }
    if is_quantile_slope(b, tn, td, n, d) {
        law_fit_rests_on_weights(b, a, tn, td, n, d);
    }
}

} // verus!
