//! The weighted quantile of the ratios `y / x`, stated over the integers.
//!
//! A point `(x, y)` with `x != 0` has the ratio `num / den`, where `den = |x|` is
//! also its weight and `num` is `y` with the sign of `x` moved onto it. Ratios are
//! compared by cross multiplication, so no division is ever made.

use vstd::prelude::*;

verus! {

/// The numerator of the ratio of a point, over the positive denominator `den(p)`.
pub open spec fn num(p: (int, int)) -> int {
    if p.0 < 0 {
        -p.1
    } else {
        p.1
    }
}

/// The weight of a point, `|x|`, which is also the denominator of its ratio.
pub open spec fn den(p: (int, int)) -> int {
    if p.0 < 0 {
        -p.0
    } else {
        p.0
    }
}

/// The sum of the weights of all points.
pub open spec fn total_weight(pts: Seq<(int, int)>) -> int
    decreases pts.len(),
{
    if pts.len() == 0 {
        0
    } else {
        total_weight(pts.drop_last()) + den(pts.last())
    }
}

/// The point carries information on the slope, and its ratio is at most `n / d`.
pub open spec fn at_or_below(p: (int, int), n: int, d: int) -> bool {
    p.0 != 0 && num(p) * d <= n * den(p)
}

/// The sum of the weights of the points whose ratio is at most `n / d`.
pub open spec fn weight_at_or_below(pts: Seq<(int, int)>, n: int, d: int) -> int
    decreases pts.len(),
{
    if pts.len() == 0 {
        0
    } else {
        weight_at_or_below(pts.drop_last(), n, d) + if at_or_below(pts.last(), n, d) {
            den(pts.last())
        } else {
            0
        }
    }
}

/// At the ratio `n / d` the accumulated weight has reached the share `tn / td` of the total.
pub open spec fn reaches(pts: Seq<(int, int)>, tn: int, td: int, n: int, d: int) -> bool {
    weight_at_or_below(pts, n, d) * td >= tn * total_weight(pts)
}

/// `n / d` is the weighted `tn / td` quantile of the ratios of `pts`: the ratio of one
/// of the points; the lowest at which the accumulated weight reaches the share; and
/// where no ratio reaches it (a level above one), the highest ratio.
pub open spec fn is_quantile_slope(pts: Seq<(int, int)>, tn: int, td: int, n: int, d: int) -> bool {
    &&& d > 0
    &&& exists|k: int|
        0 <= k < pts.len() && (#[trigger] pts[k]).0 != 0 && n * den(pts[k]) == num(pts[k]) * d
    &&& forall|j: int|
        0 <= j < pts.len() && (#[trigger] pts[j]).0 != 0 && reaches(
            pts,
            tn,
            td,
            num(pts[j]),
            den(pts[j]),
        ) ==> n * den(pts[j]) <= num(pts[j]) * d
    &&& (reaches(pts, tn, td, n, d) || forall|j: int|
        0 <= j < pts.len() && (#[trigger] pts[j]).0 != 0 ==> num(pts[j]) * d <= n * den(pts[j]))
}

/// Ratios with positive denominators are ordered transitively.
pub proof fn lemma_ratio_order_transitive(n1: int, d1: int, n2: int, d2: int, n3: int, d3: int)
    requires
        d1 > 0,
        d2 > 0,
        d3 > 0,
        n1 * d2 <= n2 * d1,
        n2 * d3 <= n3 * d2,
    ensures
        n1 * d3 <= n3 * d1,
{
    assert(n1 * d2 * d3 <= n2 * d1 * d3) by (nonlinear_arith)
        requires
            n1 * d2 <= n2 * d1,
            d3 > 0,
    ;
    assert(n2 * d3 * d1 <= n3 * d2 * d1) by (nonlinear_arith)
        requires
            n2 * d3 <= n3 * d2,
            d1 > 0,
    ;
    assert(n1 * d3 <= n3 * d1) by (nonlinear_arith)
        requires
            n1 * d2 * d3 <= n2 * d1 * d3,
            n2 * d3 * d1 <= n3 * d2 * d1,
            d2 > 0,
    ;
}

/// Weights are never negative, and no accumulated weight exceeds the total.
pub proof fn lemma_weight_bounds(pts: Seq<(int, int)>, n: int, d: int)
    ensures
        0 <= weight_at_or_below(pts, n, d) <= total_weight(pts),
    decreases pts.len(),
{
    if pts.len() > 0 {
        lemma_weight_bounds(pts.drop_last(), n, d);
    }
}

/// The accumulated weight depends on the value of the ratio `n / d`, not on how the
/// fraction is written.
pub proof fn lemma_weight_of_equal_ratios(pts: Seq<(int, int)>, n1: int, d1: int, n2: int, d2: int)
    requires
        d1 > 0,
        d2 > 0,
        n1 * d2 == n2 * d1,
    ensures
        weight_at_or_below(pts, n1, d1) == weight_at_or_below(pts, n2, d2),
    decreases pts.len(),
{
    if pts.len() > 0 {
        lemma_weight_of_equal_ratios(pts.drop_last(), n1, d1, n2, d2);
        let p = pts.last();
        if p.0 != 0 {
            if num(p) * d1 <= n1 * den(p) {
                lemma_ratio_order_transitive(num(p), den(p), n1, d1, n2, d2);
            }
            if num(p) * d2 <= n2 * den(p) {
                lemma_ratio_order_transitive(num(p), den(p), n2, d2, n1, d1);
            }
        }
    }
}

/// `whole` weighs what `a` and `b` weigh together, in total and up to every ratio.
pub open spec fn weights_add(
    whole: Seq<(int, int)>,
    a: Seq<(int, int)>,
    b: Seq<(int, int)>,
) -> bool {
    &&& total_weight(whole) == total_weight(a) + total_weight(b)
    &&& forall|n: int, d: int| #[trigger]
        weight_at_or_below(whole, n, d) == weight_at_or_below(a, n, d) + weight_at_or_below(b, n, d)
}

/// `a` and `b` weigh the same, in total and up to every ratio.
pub open spec fn same_weights(a: Seq<(int, int)>, b: Seq<(int, int)>) -> bool {
    &&& total_weight(a) == total_weight(b)
    &&& forall|n: int, d: int| #[trigger]
        weight_at_or_below(a, n, d) == weight_at_or_below(b, n, d)
}

/// A point appended to the whole and to the first part keeps the weights added up.
pub proof fn lemma_weights_add_first(
    whole: Seq<(int, int)>,
    a: Seq<(int, int)>,
    b: Seq<(int, int)>,
    p: (int, int),
)
    requires
        weights_add(whole, a, b),
    ensures
        weights_add(whole.push(p), a.push(p), b),
{
    assert(whole.push(p).drop_last() =~= whole);
    assert(a.push(p).drop_last() =~= a);
    assert forall|n: int, d: int| #[trigger]
        weight_at_or_below(whole.push(p), n, d) == weight_at_or_below(a.push(p), n, d)
            + weight_at_or_below(b, n, d) by {
        assert(weight_at_or_below(whole, n, d) == weight_at_or_below(a, n, d) + weight_at_or_below(
            b,
            n,
            d,
        ));
    }
}

/// A point appended to the whole and to the second part keeps the weights added up.
pub proof fn lemma_weights_add_second(
    whole: Seq<(int, int)>,
    a: Seq<(int, int)>,
    b: Seq<(int, int)>,
    p: (int, int),
)
    requires
        weights_add(whole, a, b),
    ensures
        weights_add(whole.push(p), a, b.push(p)),
{
    assert(whole.push(p).drop_last() =~= whole);
    assert(b.push(p).drop_last() =~= b);
    assert forall|n: int, d: int| #[trigger]
        weight_at_or_below(whole.push(p), n, d) == weight_at_or_below(a, n, d)
            + weight_at_or_below(b.push(p), n, d) by {
        assert(weight_at_or_below(whole, n, d) == weight_at_or_below(a, n, d) + weight_at_or_below(
            b,
            n,
            d,
        ));
    }
}

/// Two sequences, one after the other, weigh what they weigh apart.
pub proof fn lemma_weights_of_concat(a: Seq<(int, int)>, b: Seq<(int, int)>)
    ensures
        weights_add(a + b, a, b),
    decreases b.len(),
{
    if b.len() == 0 {
        assert(a + b =~= a);
        assert forall|n: int, d: int| #[trigger]
            weight_at_or_below(a + b, n, d) == weight_at_or_below(a, n, d) + weight_at_or_below(
                b,
                n,
                d,
            ) by {}
    } else {
        lemma_weights_of_concat(a, b.drop_last());
        lemma_weights_add_second(a + b.drop_last(), a, b.drop_last(), b.last());
        assert((a + b.drop_last()).push(b.last()) =~= a + b);
        assert(b.drop_last().push(b.last()) =~= b);
    }
}

} // verus!
