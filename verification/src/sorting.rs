//! Sorting the informative points by ratio.
//!
//! The points stay where they are: what is sorted is the list of their places. The
//! sort keeps the weight of the list, in total and up to every ratio, which is all
//! that the quantile asks of it.

use vstd::prelude::*;
use crate::samples::Data;
use crate::estimator::ratio_below;
use crate::quantile_model::{
    den, lemma_ratio_order_transitive, lemma_weights_add_first, lemma_weights_add_second,
    lemma_weights_of_concat, num, same_weights, weight_at_or_below, weights_add,
};

verus! {

/// The points of `pts` at the places `idx`, in the order of `idx`.
pub open spec fn picked(pts: Seq<(int, int)>, idx: Seq<usize>) -> Seq<(int, int)> {
    Seq::new(idx.len(), |i: int| pts[idx[i] as int])
}

/// Every place is one of `pts`, and its predictor is different from zero.
pub open spec fn all_informative(pts: Seq<(int, int)>, idx: Seq<usize>) -> bool {
    forall|i: int| 0 <= i < idx.len() ==> (#[trigger] idx[i]) < pts.len() && pts[idx[i] as int].0 != 0
}

/// The ratio of `a` is at most that of `b`.
pub open spec fn ratio_le(a: (int, int), b: (int, int)) -> bool {
    num(a) * den(b) <= num(b) * den(a)
}

/// No predictor is zero, and the ratios never fall along the sequence.
pub open spec fn ascending(sp: Seq<(int, int)>) -> bool {
    &&& forall|i: int| 0 <= i < sp.len() ==> (#[trigger] sp[i]).0 != 0
    &&& forall|i: int, j: int| 0 <= i <= j < sp.len() ==> ratio_le(#[trigger] sp[i], #[trigger] sp[j])
}

/// Merges two ascending lists of places into one.
fn merge_by_ratio(data: &Data, left: &Vec<usize>, right: &Vec<usize>) -> (out: Vec<usize>)
    requires
        data.paired(),
        all_informative(data@, left@),
        all_informative(data@, right@),
        ascending(picked(data@, left@)),
        ascending(picked(data@, right@)),
        left@.len() + right@.len() <= usize::MAX,
    ensures
        out@.len() == left@.len() + right@.len(),
        all_informative(data@, out@),
        ascending(picked(data@, out@)),
        weights_add(picked(data@, out@), picked(data@, left@), picked(data@, right@)),
{
    let ghost pts = data@;
    let ghost lp = picked(pts, left@);
    let ghost rp = picked(pts, right@);
    let mut out: Vec<usize> = Vec::new();
    let mut i: usize = 0;
    let mut j: usize = 0;
    proof {
        assert(weights_add(picked(pts, out@), lp.take(0), rp.take(0)));
    }
    while i < left.len() || j < right.len()
        invariant
            data.paired(),
            pts == data@,
            lp == picked(pts, left@),
            rp == picked(pts, right@),
            all_informative(pts, left@),
            all_informative(pts, right@),
            ascending(lp),
            ascending(rp),
            left@.len() + right@.len() <= usize::MAX,
            i <= left@.len(),
            j <= right@.len(),
            out@.len() == i + j,
            all_informative(pts, out@),
            ascending(picked(pts, out@)),
            weights_add(picked(pts, out@), lp.take(i as int), rp.take(j as int)),
            forall|k: int|
                0 <= k < out@.len() && i < left@.len() ==> ratio_le(
                    #[trigger] picked(pts, out@)[k],
                    lp[i as int],
                ),
            forall|k: int|
                0 <= k < out@.len() && j < right@.len() ==> ratio_le(
                    #[trigger] picked(pts, out@)[k],
                    rp[j as int],
                ),
        decreases left@.len() + right@.len() - i - j,
    {
        let ghost before = picked(pts, out@);
        let from_left: bool = if j >= right.len() {
            true
        } else if i >= left.len() {
            false
        } else {
            assert(left@[i as int] < pts.len() && right@[j as int] < pts.len());
            !ratio_below(data, right[j], left[i])
        };
        if from_left {
            let place: usize = left[i];
            out.push(place);
            proof {
                let p = lp[i as int];
                let after = picked(pts, out@);
                assert(after =~= before.push(p));
                assert(lp.take(i + 1) =~= lp.take(i as int).push(p));
                lemma_weights_add_first(before, lp.take(i as int), rp.take(j as int), p);
                assert forall|a: int, b: int| 0 <= a <= b < after.len() implies ratio_le(
                    #[trigger] after[a],
                    #[trigger] after[b],
                ) by {
                    if b < before.len() {
                        assert(ratio_le(before[a], before[b]));
                    } else if a < before.len() {
                        assert(ratio_le(before[a], p));
                    }
                }
                assert forall|k: int| 0 <= k < after.len() && i + 1 < left@.len() implies ratio_le(
                    #[trigger] after[k],
                    lp[i + 1],
                ) by {
                    let q = lp[i + 1];
                    assert(ratio_le(p, q));
                    if k < before.len() {
                        assert(ratio_le(before[k], p));
                        lemma_ratio_order_transitive(
                            num(before[k]),
                            den(before[k]),
                            num(p),
                            den(p),
                            num(q),
                            den(q),
                        );
                    }
                }
                assert forall|k: int| 0 <= k < after.len() && j < right@.len() implies ratio_le(
                    #[trigger] after[k],
                    rp[j as int],
                ) by {
                    if k < before.len() {
                        assert(ratio_le(before[k], rp[j as int]));
                    }
                }
            }
            i = i + 1;
        } else {
            let place: usize = right[j];
            out.push(place);
            proof {
                let p = rp[j as int];
                let after = picked(pts, out@);
                assert(after =~= before.push(p));
                assert(rp.take(j + 1) =~= rp.take(j as int).push(p));
                lemma_weights_add_second(before, lp.take(i as int), rp.take(j as int), p);
                assert forall|a: int, b: int| 0 <= a <= b < after.len() implies ratio_le(
                    #[trigger] after[a],
                    #[trigger] after[b],
                ) by {
                    if b < before.len() {
                        assert(ratio_le(before[a], before[b]));
                    } else if a < before.len() {
                        assert(ratio_le(before[a], p));
                    }
                }
                assert forall|k: int| 0 <= k < after.len() && j + 1 < right@.len() implies ratio_le(
                    #[trigger] after[k],
                    rp[j + 1],
                ) by {
                    let q = rp[j + 1];
                    assert(ratio_le(p, q));
                    if k < before.len() {
                        assert(ratio_le(before[k], p));
                        lemma_ratio_order_transitive(
                            num(before[k]),
                            den(before[k]),
                            num(p),
                            den(p),
                            num(q),
                            den(q),
                        );
                    }
                }
                assert forall|k: int| 0 <= k < after.len() && i < left@.len() implies ratio_le(
                    #[trigger] after[k],
                    lp[i as int],
                ) by {
                    if k < before.len() {
                        assert(ratio_le(before[k], lp[i as int]));
                    }
                }
            }
            j = j + 1;
        }
    }
    proof {
        assert(lp.take(i as int) =~= lp);
        assert(rp.take(j as int) =~= rp);
    }
    out
}

/// Sorts the places by the ratio of their points, ascending, by merging sorted halves.
pub(crate) fn sort_by_ratio(data: &Data, idx: Vec<usize>) -> (out: Vec<usize>)
    requires
        data.paired(),
        all_informative(data@, idx@),
    ensures
        out@.len() == idx@.len(),
        all_informative(data@, out@),
        ascending(picked(data@, out@)),
        same_weights(picked(data@, out@), picked(data@, idx@)),
    decreases idx@.len(),
{
    let len: usize = idx.len();
    if len <= 1 {
        return idx;
    }
    let mid: usize = len / 2;
    let mut left: Vec<usize> = Vec::new();
    let mut right: Vec<usize> = Vec::new();
    let mut k: usize = 0;
    while k < mid
        invariant
            k <= mid,
            mid < len,
            len == idx@.len(),
            left@ == idx@.take(k as int),
        decreases mid - k,
    {
        left.push(idx[k]);
        proof {
            assert(idx@.take(k + 1) =~= idx@.take(k as int).push(idx@[k as int]));
        }
        k = k + 1;
    }
    while k < len
        invariant
            mid <= k <= len,
            len == idx@.len(),
            right@ == idx@.subrange(mid as int, k as int),
        decreases len - k,
    {
        right.push(idx[k]);
        proof {
            assert(idx@.subrange(mid as int, k + 1) =~= idx@.subrange(mid as int, k as int).push(
                idx@[k as int],
            ));
        }
        k = k + 1;
    }
    let ghost pts = data@;
    proof {
        assert(idx@ =~= left@ + right@);
        assert(picked(pts, idx@) =~= picked(pts, left@) + picked(pts, right@));
        lemma_weights_of_concat(picked(pts, left@), picked(pts, right@));
        assert forall|i: int| 0 <= i < left@.len() implies (#[trigger] left@[i]) < pts.len()
            && pts[left@[i] as int].0 != 0 by {
            assert(left@[i] == idx@[i]);
        }
        assert forall|i: int| 0 <= i < right@.len() implies (#[trigger] right@[i]) < pts.len()
            && pts[right@[i] as int].0 != 0 by {
            assert(right@[i] == idx@[mid + i]);
        }
    }
    let sorted_left: Vec<usize> = sort_by_ratio(data, left);
    let sorted_right: Vec<usize> = sort_by_ratio(data, right);
    let out: Vec<usize> = merge_by_ratio(data, &sorted_left, &sorted_right);
    proof {
        let op = picked(pts, out@);
        let ip = picked(pts, idx@);
        let slp = picked(pts, sorted_left@);
        let srp = picked(pts, sorted_right@);
        assert forall|n: int, d: int| #[trigger]
            weight_at_or_below(op, n, d) == weight_at_or_below(ip, n, d) by {
            assert(weight_at_or_below(op, n, d) == weight_at_or_below(slp, n, d)
                + weight_at_or_below(srp, n, d));
            assert(weight_at_or_below(ip, n, d) == weight_at_or_below(picked(pts, left@), n, d)
                + weight_at_or_below(picked(pts, right@), n, d));
        }
    }
    out
}

} // verus!
