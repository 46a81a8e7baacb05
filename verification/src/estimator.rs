//! The slope of the line through the origin that follows a quantile of the data.

use vstd::prelude::*;
use crate::samples::{Data, FitError, Quantile};
use crate::quantile_model::{
    den, is_quantile_slope, num, same_weights, total_weight, weight_at_or_below,
};
use crate::sorting::{all_informative, ascending, picked, sort_by_ratio};
use crate::walk::{lemma_walk_ends_at_highest, lemma_walk_stops_at_quantile};

verus! {

/// A straight line that passes through the origin, `y = (num / den) * x`.
#[derive(Clone, Copy, Debug, PartialEq, Eq)]
pub struct Slope {
    pub num: i64,
    pub den: i64,
}

impl View for Slope {
    type V = (int, int);

    open spec fn view(&self) -> (int, int) {
        (self.num as int, self.den as int)
    }
}

/// `y` with the sign of `x` moved onto it.
fn signed_response(x: i32, y: i32) -> (n: i64)
    ensures
        n == num((x as int, y as int)),
        -0x8000_0000 <= n <= 0x8000_0000,
{
    if x < 0 {
        -(y as i64)
    } else {
        y as i64
    }
}

/// `|x|`.
fn magnitude(x: i32) -> (d: i64)
    ensures
        d == den((x as int, 0int)),
        0 <= d <= 0x8000_0000,
        x != 0 ==> d > 0,
{
    if x < 0 {
        -(x as i64)
    } else {
        x as i64
    }
}

/// Whether the accumulated weight `below` has reached the share `quantile` of `total`.
fn share_reached(below: u128, total: u128, quantile: Quantile) -> (hit: bool)
    requires
        below <= 0x8000_0000_0000_0000_0000_0000,
        total <= 0x8000_0000_0000_0000_0000_0000,
    ensures
        hit == (below * quantile.den >= quantile.num * total),
{
    let b: i128 = below as i128;
    let t: i128 = total as i128;
    let qn: i128 = quantile.num as i128;
    let qd: i128 = quantile.den as i128;
    proof {
        assert(0 <= b * qd <= 0x8000_0000_0000_0000_0000_0000 * 0xffff_ffff) by (nonlinear_arith)
            requires
                0 <= b <= 0x8000_0000_0000_0000_0000_0000,
                0 <= qd <= 0xffff_ffff,
        ;
        assert(-0x8000_0000_0000_0000_0000_0000 * 0x8000_0000 <= qn * t
            <= 0x8000_0000_0000_0000_0000_0000 * 0x8000_0000) by (nonlinear_arith)
            requires
                0 <= t <= 0x8000_0000_0000_0000_0000_0000,
                -0x8000_0000 <= qn <= 0x8000_0000,
        ;
    }
    b * qd >= qn * t
}

/// Whether the ratio of point `a` is below that of point `b`, strictly.
pub(crate) fn ratio_below(data: &Data, a: usize, b: usize) -> (less: bool)
    requires
        data.paired(),
        a < data.xs@.len(),
        b < data.xs@.len(),
    ensures
        less == (num(data@[a as int]) * den(data@[b as int]) < num(data@[b as int]) * den(
            data@[a as int],
        )),
{
    let an: i64 = signed_response(data.xs[a], data.ys[a]);
    let ad: i64 = magnitude(data.xs[a]);
    let bn: i64 = signed_response(data.xs[b], data.ys[b]);
    let bd: i64 = magnitude(data.xs[b]);
    proof {
        assert(-0x4000_0000_0000_0000 <= an * bd <= 0x4000_0000_0000_0000) by (nonlinear_arith)
            requires
                -0x8000_0000 <= an <= 0x8000_0000,
                0 <= bd <= 0x8000_0000,
        ;
        assert(-0x4000_0000_0000_0000 <= bn * ad <= 0x4000_0000_0000_0000) by (nonlinear_arith)
            requires
                -0x8000_0000 <= bn <= 0x8000_0000,
                0 <= ad <= 0x8000_0000,
        ;
    }
    an * bd < bn * ad
}

/// The places of the points with a nonzero predictor, in order, and the weight of
/// all points together. The points that are left out weigh nothing.
fn informative_places(data: &Data) -> (res: (Vec<usize>, u128))
    requires
        data.paired(),
    ensures
        all_informative(data@, res.0@),
        same_weights(picked(data@, res.0@), data@),
        res.1 == total_weight(data@),
        res.1 <= data.xs@.len() * 0x8000_0000,
        res.0@.len() == 0 ==> forall|i: int| 0 <= i < data.xs@.len() ==> data.xs@[i] == 0,
{
    let ghost pts = data@;
    let len: usize = data.xs.len();
    let mut idx: Vec<usize> = Vec::new();
    let mut total: u128 = 0;
    let mut i: usize = 0;
    while i < len
        invariant
            data.paired(),
            pts == data@,
            len == data.xs@.len(),
            i <= len,
            all_informative(pts, idx@),
            same_weights(picked(pts, idx@), pts.take(i as int)),
            total == total_weight(pts.take(i as int)),
            total <= i * 0x8000_0000,
            idx@.len() == 0 ==> forall|j: int| 0 <= j < i ==> data.xs@[j] == 0,
        decreases len - i,
    {
        let x: i32 = data.xs[i];
        let w: i64 = magnitude(x);
        let ghost before = picked(pts, idx@);
        let ghost p = pts[i as int];
        proof {
            assert(pts.take(i + 1).drop_last() =~= pts.take(i as int));
            assert(pts.take(i + 1).last() == p);
        }
        if x != 0 {
            idx.push(i);
            proof {
                let after = picked(pts, idx@);
                assert(after =~= before.push(p));
                assert(after.drop_last() =~= before);
                assert forall|n: int, d: int| #[trigger]
                    weight_at_or_below(after, n, d) == weight_at_or_below(pts.take(i + 1), n, d) by {
                    assert(weight_at_or_below(before, n, d) == weight_at_or_below(
                        pts.take(i as int),
                        n,
                        d,
                    ));
                }
            }
        } else {
            proof {
                assert forall|n: int, d: int| #[trigger]
                    weight_at_or_below(before, n, d) == weight_at_or_below(pts.take(i + 1), n, d) by {
                    assert(weight_at_or_below(before, n, d) == weight_at_or_below(
                        pts.take(i as int),
                        n,
                        d,
                    ));
                }
            }
        }
        total = total + (w as u128);
        i = i + 1;
    }
    proof {
        assert(pts.take(len as int) =~= pts);
    }
    (idx, total)
}

impl Slope {
    /// The slope is a fraction: its denominator is positive.
    pub open spec fn wf(&self) -> bool {
        self.den > 0
    }

    /// Fits the data to a straight line that passes through the origin using quantile
    /// regression: the slope is the weighted quantile of the ratios `y / x`, each
    /// weighted by `|x|`.
    ///
    /// Points with `x == 0` are left out. The others are sorted by ratio, and the
    /// slope is the ratio at which the accumulated weight first reaches the share
    /// `quantile` of the total weight; between two ratios nothing is interpolated. A
    /// level above one is never reached and gives the highest ratio.
    ///
    /// Fails with `InvalidInput` when the two sequences differ in length or when no
    /// predictor is different from zero.
    ///
    /// - Time: `O(length * log(length))`
    pub fn fit(data: &Data, quantile: Quantile) -> (res: Result<Slope, FitError>)
        requires
            quantile.wf(),
        ensures
            res is Err <==> !data.paired() || forall|i: int|
                0 <= i < data.xs@.len() ==> data.xs@[i] == 0,
            match res {
                Ok(slope) => {
                    &&& slope.wf()
                    &&& is_quantile_slope(
                        data@,
                        quantile.num as int,
                        quantile.den as int,
                        slope.num as int,
                        slope.den as int,
                    )
                    &&& data.scorable() ==> slope.scorable()
                },
                Err(e) => e == FitError::InvalidInput,
            },
    {
        if data.xs.len() != data.ys.len() {
            return Err(FitError::InvalidInput);
        }
        let (places, total) = informative_places(data);
        if places.len() == 0 {
            return Err(FitError::InvalidInput);
        }
        let ghost pts = data@;
        let ghost unsorted = picked(pts, places@);
        let sorted: Vec<usize> = sort_by_ratio(data, places);
        let ghost sp = picked(pts, sorted@);
        let ghost tn = quantile.num as int;
        let ghost td = quantile.den as int;
        proof {
            assert forall|n: int, d: int| #[trigger]
                weight_at_or_below(sp, n, d) == weight_at_or_below(pts, n, d) by {
                assert(weight_at_or_below(sp, n, d) == weight_at_or_below(unsorted, n, d));
            }
            assert(same_weights(sp, pts));
            assert(sp.take(0).len() == 0);
        }
        let len: usize = data.xs.len();
        let count: usize = sorted.len();
        let mut passed: u128 = 0;
        let mut k: usize = 0;
        while k < count
            invariant
                data.paired(),
                pts == data@,
                sp == picked(pts, sorted@),
                all_informative(pts, sorted@),
                ascending(sp),
                same_weights(sp, pts),
                len == data.xs@.len(),
                quantile.wf(),
                count == sorted@.len(),
                k <= count,
                total == total_weight(pts),
                total <= len * 0x8000_0000,
                tn == quantile.num as int,
                td == quantile.den as int,
                passed == total_weight(sp.take(k as int)),
                passed <= k * 0x8000_0000,
                k == 0 || passed * td < tn * total,
            decreases count - k,
        {
            let place: usize = sorted[k];
            let x: i32 = data.xs[place];
            let w: i64 = magnitude(x);
            let reached: u128 = passed + (w as u128);
            proof {
                assert(sp.take(k + 1).drop_last() =~= sp.take(k as int));
                assert(sp.take(k + 1).last() == sp[k as int]);
                assert(sp[k as int] == pts[place as int]);
                assert((k + 1) * 0x8000_0000 <= 0x8000_0000_0000_0000_0000_0000) by (nonlinear_arith)
                    requires
                        k < 0xffff_ffff_ffff_ffff,
                ;
                assert(len * 0x8000_0000 <= 0x8000_0000_0000_0000_0000_0000) by (nonlinear_arith)
                    requires
                        len <= 0xffff_ffff_ffff_ffff,
                ;
            }
            if share_reached(reached, total, quantile) {
                proof {
                    lemma_walk_stops_at_quantile(pts, sp, k as int, place as int, tn, td);
                    assert(data.xs@[place as int] != 0);
                }
                return Ok(Slope { num: signed_response(x, data.ys[place]), den: w });
            }
            passed = reached;
            k = k + 1;
        }
        let place: usize = sorted[count - 1];
        let x: i32 = data.xs[place];
        proof {
            assert(sp.take(count as int) =~= sp);
            assert(sp.last() == pts[place as int]);
            lemma_walk_ends_at_highest(pts, sp, place as int, tn, td);
            assert(data.xs@[place as int] != 0);
        }
        Ok(Slope { num: signed_response(x, data.ys[place]), den: magnitude(x) })
    }
}

} // verus!
