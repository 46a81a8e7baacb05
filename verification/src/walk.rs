//! Why the walk along the sorted ratios ends at the weighted quantile.

use vstd::prelude::*;
use crate::quantile_model::{
    at_or_below, den, is_quantile_slope, lemma_ratio_order_transitive, lemma_weight_bounds, num,
    reaches, same_weights, total_weight, weight_at_or_below,
};
use crate::sorting::{ascending, ratio_le};

verus! {

/// Below the ratio of the point at `i`, an ascending sequence holds no more weight
/// than its first `i` points.
pub proof fn lemma_weight_below_place(sp: Seq<(int, int)>, i: int, n: int, d: int)
    requires
        ascending(sp),
        0 <= i < sp.len(),
        d > 0,
        n * den(sp[i]) < num(sp[i]) * d,
    ensures
        weight_at_or_below(sp, n, d) <= total_weight(sp.take(i)),
    decreases sp.len(),
{
    let init = sp.drop_last();
    let last = sp.last();
    assert(ratio_le(sp[i], last));
    assert(!at_or_below(last, n, d)) by {
        if num(last) * d <= n * den(last) {
            lemma_ratio_order_transitive(num(sp[i]), den(sp[i]), num(last), den(last), n, d);
        }
    }
    if i == sp.len() - 1 {
        lemma_weight_bounds(init, n, d);
        assert(sp.take(i) =~= init);
    } else {
        assert(ascending(init)) by {
            assert forall|a: int, b: int| 0 <= a <= b < init.len() implies ratio_le(
                #[trigger] init[a],
                #[trigger] init[b],
            ) by {
                assert(ratio_le(sp[a], sp[b]));
            }
            assert forall|a: int| 0 <= a < init.len() implies (#[trigger] init[a]).0 != 0 by {
                assert(sp[a].0 != 0);
            }
        }
        assert(init[i] == sp[i]);
        lemma_weight_below_place(init, i, n, d);
        assert(init.take(i) =~= sp.take(i));
    }
}

/// Up to a ratio that the point at `i` does not exceed, an ascending sequence holds at
/// least the weight of its first `i + 1` points.
pub proof fn lemma_weight_up_to_place(sp: Seq<(int, int)>, i: int, n: int, d: int)
    requires
        ascending(sp),
        0 <= i < sp.len(),
        d > 0,
        num(sp[i]) * d <= n * den(sp[i]),
    ensures
        weight_at_or_below(sp, n, d) >= total_weight(sp.take(i + 1)),
    decreases sp.len(),
{
    let init = sp.drop_last();
    let last = sp.last();
    assert(ascending(init)) by {
        assert forall|a: int, b: int| 0 <= a <= b < init.len() implies ratio_le(
            #[trigger] init[a],
            #[trigger] init[b],
        ) by {
            assert(ratio_le(sp[a], sp[b]));
        }
        assert forall|a: int| 0 <= a < init.len() implies (#[trigger] init[a]).0 != 0 by {
            assert(sp[a].0 != 0);
        }
    }
    if i == sp.len() - 1 {
        assert(sp.take(i + 1) =~= sp);
        assert(last.0 != 0);
        if init.len() > 0 {
            let prev = init.last();
            assert(prev == sp[i - 1]);
            assert(ratio_le(sp[i - 1], sp[i]));
            assert(prev.0 != 0);
            lemma_ratio_order_transitive(num(prev), den(prev), num(last), den(last), n, d);
            lemma_weight_up_to_place(init, i - 1, n, d);
            assert(init.take(i) =~= init);
        } else {
            assert(total_weight(init) == 0);
            assert(weight_at_or_below(init, n, d) == 0);
        }
    } else {
        assert(init[i] == sp[i]);
        lemma_weight_up_to_place(init, i, n, d);
        assert(init.take(i + 1) =~= sp.take(i + 1));
    }
}

/// A point with a nonzero predictor adds its weight up to every ratio that it does not
/// exceed, and is missing from the weight up to every other.
pub proof fn lemma_weight_of_point(pts: Seq<(int, int)>, j: int, n: int, d: int)
    requires
        0 <= j < pts.len(),
        pts[j].0 != 0,
    ensures
        den(pts[j]) > 0,
        at_or_below(pts[j], n, d) ==> weight_at_or_below(pts, n, d) >= den(pts[j]),
        !at_or_below(pts[j], n, d) ==> weight_at_or_below(pts, n, d) <= total_weight(pts) - den(
            pts[j],
        ),
    decreases pts.len(),
{
    let init = pts.drop_last();
    lemma_weight_bounds(init, n, d);
    if j < pts.len() - 1 {
        assert(init[j] == pts[j]);
        lemma_weight_of_point(init, j, n, d);
    }
}

/// The walk stops at the first place where the accumulated weight reaches the share:
/// the ratio there is the weighted quantile of the points that were sorted.
pub proof fn lemma_walk_stops_at_quantile(
    pts: Seq<(int, int)>,
    sp: Seq<(int, int)>,
    k: int,
    place: int,
    tn: int,
    td: int,
)
    requires
        td > 0,
        ascending(sp),
        same_weights(sp, pts),
        0 <= k < sp.len(),
        0 <= place < pts.len(),
        pts[place] == sp[k],
        total_weight(sp.take(k + 1)) * td >= tn * total_weight(pts),
        k == 0 || total_weight(sp.take(k)) * td < tn * total_weight(pts),
    ensures
        is_quantile_slope(pts, tn, td, num(sp[k]), den(sp[k])),
{
    let n = num(sp[k]);
    let d = den(sp[k]);
    assert(sp[k].0 != 0);
    assert(pts[place].0 != 0 && n * den(pts[place]) == num(pts[place]) * d);
    assert(reaches(pts, tn, td, n, d)) by {
        lemma_weight_up_to_place(sp, k, n, d);
        let w = weight_at_or_below(sp, n, d);
        let upto = total_weight(sp.take(k + 1));
        assert(w == weight_at_or_below(pts, n, d));
        assert(w * td >= upto * td) by (nonlinear_arith)
            requires
                w >= upto,
                td > 0,
        ;
    }
    assert forall|j: int|
        0 <= j < pts.len() && (#[trigger] pts[j]).0 != 0 && reaches(
            pts,
            tn,
            td,
            num(pts[j]),
            den(pts[j]),
        ) implies n * den(pts[j]) <= num(pts[j]) * d by {
        let nj = num(pts[j]);
        let dj = den(pts[j]);
        if nj * d < n * dj {
            lemma_weight_below_place(sp, k, nj, dj);
            lemma_weight_of_point(pts, j, nj, dj);
            let w = weight_at_or_below(sp, nj, dj);
            assert(w == weight_at_or_below(pts, nj, dj));
            let before = total_weight(sp.take(k));
            if k == 0 {
                assert(sp.take(0).len() == 0);
            } else {
                assert(w * td <= before * td) by (nonlinear_arith)
                    requires
                        w <= before,
                        td > 0,
                ;
            }
        }
    }
}

/// Where the walk passes every point without reaching the share, the highest ratio
/// is the weighted quantile.
pub proof fn lemma_walk_ends_at_highest(
    pts: Seq<(int, int)>,
    sp: Seq<(int, int)>,
    place: int,
    tn: int,
    td: int,
)
    requires
        td > 0,
        ascending(sp),
        same_weights(sp, pts),
        sp.len() > 0,
        0 <= place < pts.len(),
        pts[place] == sp.last(),
        total_weight(sp) * td < tn * total_weight(pts),
    ensures
        is_quantile_slope(pts, tn, td, num(sp.last()), den(sp.last())),
{
    let n = num(sp.last());
    let d = den(sp.last());
    let total = total_weight(pts);
    assert(sp[sp.len() - 1].0 != 0);
    assert(pts[place].0 != 0 && n * den(pts[place]) == num(pts[place]) * d);
    assert forall|j: int| 0 <= j < pts.len() && (#[trigger] pts[j]).0 != 0 implies !reaches(
        pts,
        tn,
        td,
        num(pts[j]),
        den(pts[j]),
    ) && num(pts[j]) * d <= n * den(pts[j]) by {
        let nj = num(pts[j]);
        let dj = den(pts[j]);
        lemma_weight_bounds(pts, nj, dj);
        let w = weight_at_or_below(pts, nj, dj);
        assert(w * td <= total * td) by (nonlinear_arith)
            requires
                w <= total,
                td > 0,
        ;
        lemma_weight_up_to_place(sp, sp.len() - 1, n, d);
        assert(sp.take(sp.len() as int) =~= sp);
        assert(weight_at_or_below(sp, n, d) == weight_at_or_below(pts, n, d));
        lemma_weight_of_point(pts, j, n, d);
    }
}

} // verus!
