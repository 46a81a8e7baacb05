//! The coefficient of determination of a slope on a paired sample set.
//!
//! With the slope `p / q`, `n` points and the sum `s` of the responses, the residual
//! sum of squares is `sum (q*y - p*x)^2 / q^2` and the total sum of squares is
//! `sum (n*y - s)^2 / n^2`. The score `1 - residual / total` is kept as one fraction
//! of the two scaled sums, so that it is exact.

use vstd::prelude::*;
use crate::samples::{Data, FitError};
use crate::estimator::Slope;

verus! {

/// The longest sample set that `r_squared` takes.
pub const MAX_SCORED_LEN: usize = 1_048_576;

/// The largest magnitude of a sample, and of a part of the slope, that `r_squared` takes.
pub const MAX_SCORED_MAGNITUDE: i64 = 65_536;

/// The sum of the responses.
pub open spec fn response_sum(pts: Seq<(int, int)>) -> int
    decreases pts.len(),
{
    if pts.len() == 0 {
        0
    } else {
        response_sum(pts.drop_last()) + pts.last().1
    }
}

/// `sum (q*y - p*x)^2`: the residual sum of squares about `y = (p / q) * x`, times `q^2`.
pub open spec fn scaled_residual_ss(pts: Seq<(int, int)>, p: int, q: int) -> int
    decreases pts.len(),
{
    if pts.len() == 0 {
        0
    } else {
        scaled_residual_ss(pts.drop_last(), p, q) + (q * pts.last().1 - p * pts.last().0) * (q
            * pts.last().1 - p * pts.last().0)
    }
}

/// `sum (n*y - s)^2`: the sum of the squared deviations of the responses from `s / n`,
/// times `n^2`.
pub open spec fn scaled_deviation_ss(pts: Seq<(int, int)>, n: int, s: int) -> int
    decreases pts.len(),
{
    if pts.len() == 0 {
        0
    } else {
        scaled_deviation_ss(pts.drop_last(), n, s) + (n * pts.last().1 - s) * (n * pts.last().1
            - s)
    }
}

/// The total sum of squares of the responses about their mean, times the square of
/// the number of points.
pub open spec fn scaled_total_ss(pts: Seq<(int, int)>) -> int {
    scaled_deviation_ss(pts, pts.len() as int, response_sum(pts))
}

/// The denominator of the score of the slope `p / q`.
pub open spec fn score_den(pts: Seq<(int, int)>, q: int) -> int {
    q * q * scaled_total_ss(pts)
}

/// The numerator of the score of the slope `p / q`, over `score_den`: together they
/// are `1 - residual / total`.
pub open spec fn score_num(pts: Seq<(int, int)>, p: int, q: int) -> int {
    score_den(pts, q) - pts.len() * pts.len() * scaled_residual_ss(pts, p, q)
}

/// Every response is the same. An empty set has no two that differ.
pub open spec fn constant_responses(pts: Seq<(int, int)>) -> bool {
    forall|i: int, j: int|
        0 <= i < pts.len() && 0 <= j < pts.len() ==> (#[trigger] pts[i]).1 == (#[trigger] pts[j]).1
}

/// A sum of squared deviations is never negative, and it is zero exactly where no
/// response deviates.
pub proof fn lemma_deviation_zero(pts: Seq<(int, int)>, n: int, s: int)
    ensures
        scaled_deviation_ss(pts, n, s) >= 0,
        scaled_deviation_ss(pts, n, s) == 0 <==> forall|i: int|
            0 <= i < pts.len() ==> n * (#[trigger] pts[i]).1 == s,
    decreases pts.len(),
{
    if pts.len() > 0 {
        let init = pts.drop_last();
        lemma_deviation_zero(init, n, s);
        let t = n * pts.last().1 - s;
        assert(t * t >= 0 && (t * t == 0 <==> t == 0)) by (nonlinear_arith);
        if scaled_deviation_ss(pts, n, s) == 0 {
            assert forall|i: int| 0 <= i < pts.len() implies n * (#[trigger] pts[i]).1 == s by {
                if i < init.len() {
                    assert(init[i] == pts[i]);
                }
            }
        }
        if forall|i: int| 0 <= i < pts.len() ==> n * (#[trigger] pts[i]).1 == s {
            assert forall|i: int| 0 <= i < init.len() implies n * (#[trigger] init[i]).1 == s by {
                assert(init[i] == pts[i]);
            }
            assert(n * pts[pts.len() - 1].1 == s);
        }
    }
}

/// The sum of responses that are all `c`.
pub proof fn lemma_sum_of_constant(pts: Seq<(int, int)>, c: int)
    requires
        forall|i: int| 0 <= i < pts.len() ==> (#[trigger] pts[i]).1 == c,
    ensures
        response_sum(pts) == pts.len() * c,
    decreases pts.len(),
{
    if pts.len() > 0 {
        let init = pts.drop_last();
        assert forall|i: int| 0 <= i < init.len() implies (#[trigger] init[i]).1 == c by {
            assert(init[i] == pts[i]);
        }
        lemma_sum_of_constant(init, c);
        assert(pts[pts.len() - 1].1 == c);
        assert((pts.len() - 1) * c + c == pts.len() * c) by (nonlinear_arith);
    } else {
        assert(0 * c == 0);
    }
}

/// Zero variance: the total sum of squares is zero exactly where all responses are
/// the same, and there no score is defined.
pub proof fn law_no_variance_iff_constant(pts: Seq<(int, int)>)
    ensures
        scaled_total_ss(pts) == 0 <==> constant_responses(pts),
{
    let n = pts.len() as int;
    let s = response_sum(pts);
    lemma_deviation_zero(pts, n, s);
    if constant_responses(pts) {
        if n > 0 {
            let c = pts[0].1;
            assert forall|i: int| 0 <= i < pts.len() implies (#[trigger] pts[i]).1 == c by {
                assert(pts[i].1 == pts[0].1);
            }
            lemma_sum_of_constant(pts, c);
            assert forall|i: int| 0 <= i < pts.len() implies n * (#[trigger] pts[i]).1 == s by {
                assert(pts[i].1 == c);
            }
        }
    }
    if scaled_total_ss(pts) == 0 {
        assert forall|i: int, j: int| 0 <= i < pts.len() && 0 <= j < pts.len() implies (
        #[trigger] pts[i]).1 == (#[trigger] pts[j]).1 by {
            let a = pts[i].1;
            let b = pts[j].1;
            assert(n * a == s);
            assert(n * b == s);
            assert(a == b) by (nonlinear_arith)
                requires
                    n * a == n * b,
                    n > 0,
            ;
        }
    }
}

/// The coefficient of determination `num / den`. It is at most one and has no lower bound.
#[derive(Clone, Copy, Debug, PartialEq, Eq)]
pub struct Score {
    pub num: i128,
    pub den: i128,
}

impl View for Score {
    type V = (int, int);

    open spec fn view(&self) -> (int, int) {
        (self.num as int, self.den as int)
    }
}

impl Data {
    /// The set is short enough, and its samples are small enough, for an exact score
    /// in 128 bits.
    pub open spec fn scorable(&self) -> bool {
        &&& self.xs@.len() <= MAX_SCORED_LEN
        &&& forall|i: int|
            0 <= i < self.xs@.len() ==> -MAX_SCORED_MAGNITUDE <= #[trigger] self.xs@[i]
                <= MAX_SCORED_MAGNITUDE
        &&& forall|i: int|
            0 <= i < self.ys@.len() ==> -MAX_SCORED_MAGNITUDE <= #[trigger] self.ys@[i]
                <= MAX_SCORED_MAGNITUDE
    }

    /// Tests `scorable`.
    pub fn is_scorable(&self) -> (ok: bool)
        ensures
            ok == self.scorable(),
    {
        if self.xs.len() > MAX_SCORED_LEN {
            return false;
        }
        let mut i: usize = 0;
        while i < self.xs.len()
            invariant
                i <= self.xs@.len(),
                forall|j: int|
                    0 <= j < i ==> -MAX_SCORED_MAGNITUDE <= #[trigger] self.xs@[j]
                        <= MAX_SCORED_MAGNITUDE,
            decreases self.xs@.len() - i,
        {
            let x: i64 = self.xs[i] as i64;
            if x < -MAX_SCORED_MAGNITUDE || x > MAX_SCORED_MAGNITUDE {
                return false;
            }
            i = i + 1;
        }
        let mut k: usize = 0;
        while k < self.ys.len()
            invariant
                k <= self.ys@.len(),
                forall|j: int|
                    0 <= j < k ==> -MAX_SCORED_MAGNITUDE <= #[trigger] self.ys@[j]
                        <= MAX_SCORED_MAGNITUDE,
            decreases self.ys@.len() - k,
        {
            let y: i64 = self.ys[k] as i64;
            if y < -MAX_SCORED_MAGNITUDE || y > MAX_SCORED_MAGNITUDE {
                return false;
            }
            k = k + 1;
        }
        true
    }
}

/// The sum of the responses of a set within the limits.
fn sum_of_responses(data: &Data) -> (s: i64)
    requires
        data.paired(),
        data.scorable(),
    ensures
        s == response_sum(data@),
        -(data.xs@.len() * MAX_SCORED_MAGNITUDE) <= s <= data.xs@.len() * MAX_SCORED_MAGNITUDE,
{
    let len: usize = data.ys.len();
    let mut s: i64 = 0;
    let mut i: usize = 0;
    while i < len
        invariant
            data.paired(),
            data.scorable(),
            len == data.xs@.len(),
            i <= len,
            s == response_sum(data@.take(i as int)),
            -(i * MAX_SCORED_MAGNITUDE) <= s <= i * MAX_SCORED_MAGNITUDE,
        decreases len - i,
    {
        proof {
            assert(data@.take(i + 1).drop_last() =~= data@.take(i as int));
            assert(data@.take(i + 1).last() == data@[i as int]);
        }
        s = s + (data.ys[i] as i64);
        i = i + 1;
    }
    proof {
        assert(data@.take(len as int) =~= data@);
    }
    s
}

impl Slope {
    /// The slope is a fraction whose parts are small enough for an exact score in 128 bits.
    pub open spec fn scorable(&self) -> bool {
        &&& -MAX_SCORED_MAGNITUDE <= self.num <= MAX_SCORED_MAGNITUDE
        &&& 0 < self.den <= MAX_SCORED_MAGNITUDE
    }

    /// Tests `scorable`.
    pub fn is_scorable(&self) -> (ok: bool)
        ensures
            ok == self.scorable(),
    {
        -MAX_SCORED_MAGNITUDE <= self.num && self.num <= MAX_SCORED_MAGNITUDE && 0 < self.den
            && self.den <= MAX_SCORED_MAGNITUDE
    }

    /// `res` is the outcome of scoring this slope on `data`: the exact score, or the
    /// reason why there is none.
    pub open spec fn scored_as(&self, data: &Data, res: Result<Score, FitError>) -> bool {
        &&& res is Err <==> !data.paired() || constant_responses(data@)
        &&& match res {
            Ok(score) => {
                &&& score.num == score_num(data@, self.num as int, self.den as int)
                &&& score.den == score_den(data@, self.den as int)
                &&& 0 < score.den
                &&& score.num <= score.den
            },
            Err(e) => if data.paired() {
                e == FitError::UndefinedScore
            } else {
                e == FitError::InvalidInput
            },
        }
    }

    /// Computes the goodness of fit where the slope and the data are within the limits
    /// of `r_squared`, and gives `None` where they are not.
    pub fn checked_r_squared(&self, data: &Data) -> (res: Option<Result<Score, FitError>>)
        ensures
            res is Some <==> self.scorable() && data.scorable(),
            match res {
                Some(outcome) => self.scored_as(data, outcome),
                None => true,
            },
    {
        if self.is_scorable() && data.is_scorable() {
            Some(self.r_squared(data))
        } else {
            None
        }
    }

    /// Computes the goodness of fit (coefficient of determination) for this data set:
    /// one minus the residual sum of squares over the total sum of squares.
    ///
    /// Fails with `InvalidInput` when the two sequences differ in length, and with
    /// `UndefinedScore` when the responses have no variance: when all of them are the
    /// same, as in an empty set.
    ///
    /// - Time: `O(length)`
    pub fn r_squared(&self, data: &Data) -> (res: Result<Score, FitError>)
        requires
            self.scorable(),
            data.scorable(),
        ensures
            self.scored_as(data, res),
    {
        if data.xs.len() != data.ys.len() {
            return Err(FitError::InvalidInput);
        }
        let len: usize = data.xs.len();
        let s: i128 = sum_of_responses(data) as i128;
        let n: i128 = len as i128;
        let p: i128 = self.num as i128;
        let q: i128 = self.den as i128;
        let mut residual: i128 = 0;
        let mut total: i128 = 0;
        let mut i: usize = 0;
        while i < len
            invariant
                data.paired(),
                data.scorable(),
                self.scorable(),
                len == data.xs@.len(),
                n == len,
                p == self.num,
                q == self.den,
                -(n * 65_536) <= s <= n * 65_536,
                i <= len,
                residual == scaled_residual_ss(data@.take(i as int), p as int, q as int),
                0 <= residual <= i * 0x4_0000_0000_0000_0000,
                total == scaled_deviation_ss(data@.take(i as int), n as int, s as int),
                0 <= total <= i * 0x400_0000_0000_0000_0000,
            decreases len - i,
        {
            let x: i128 = data.xs[i] as i128;
            let y: i128 = data.ys[i] as i128;
            proof {
                assert(data@.take(i + 1).drop_last() =~= data@.take(i as int));
                assert(data@.take(i + 1).last() == data@[i as int]);
                assert(-0x1_0000_0000 <= q * y <= 0x1_0000_0000) by (nonlinear_arith)
                    requires
                        0 < q <= 65_536,
                        -65_536 <= y <= 65_536,
                ;
                assert(-0x1_0000_0000 <= p * x <= 0x1_0000_0000) by (nonlinear_arith)
                    requires
                        -65_536 <= p <= 65_536,
                        -65_536 <= x <= 65_536,
                ;
                assert(-0x10_0000_0000 <= n * y <= 0x10_0000_0000) by (nonlinear_arith)
                    requires
                        0 <= n <= 1_048_576,
                        -65_536 <= y <= 65_536,
                ;
                assert(n * 65_536 <= 0x10_0000_0000) by (nonlinear_arith)
                    requires
                        0 <= n <= 1_048_576,
                ;
            }
            let e: i128 = q * y - p * x;
            let t: i128 = n * y - s;
            proof {
                assert(0 <= e * e <= 0x4_0000_0000_0000_0000) by (nonlinear_arith)
                    requires
                        -0x2_0000_0000 <= e <= 0x2_0000_0000,
                ;
                assert(0 <= t * t <= 0x400_0000_0000_0000_0000) by (nonlinear_arith)
                    requires
                        -0x20_0000_0000 <= t <= 0x20_0000_0000,
                ;
                assert(i * 0x400_0000_0000_0000_0000 <= 0x4000_0000_0000_0000_0000_0000_0000)
                    by (nonlinear_arith)
                    requires
                        i <= 1_048_576,
                ;
            }
            residual = residual + e * e;
            total = total + t * t;
            i = i + 1;
        }
        proof {
            assert(data@.take(len as int) =~= data@);
            law_no_variance_iff_constant(data@);
        }
        if total == 0 {
            return Err(FitError::UndefinedScore);
        }
        proof {
            assert(0 < q * q <= 0x1_0000_0000) by (nonlinear_arith)
                requires
                    0 < q <= 65_536,
            ;
            assert(0 <= n * n <= 0x100_0000_0000) by (nonlinear_arith)
                requires
                    0 <= n <= 1_048_576,
            ;
            assert(len * 0x400_0000_0000_0000_0000 <= 0x4000_0000_0000_0000_0000_0000) by (nonlinear_arith)
                requires
                    len <= 1_048_576,
            ;
            assert(len * 0x4_0000_0000_0000_0000 <= 0x40_0000_0000_0000_0000_0000) by (nonlinear_arith)
                requires
                    len <= 1_048_576,
            ;
        }
        let qq: i128 = q * q;
        let nn: i128 = n * n;
        proof {
            assert(0 < qq * total <= 0x1_0000_0000 * 0x4000_0000_0000_0000_0000_0000) by (nonlinear_arith)
                requires
                    0 < qq <= 0x1_0000_0000,
                    0 < total <= 0x4000_0000_0000_0000_0000_0000,
            ;
            assert(0 <= nn * residual <= 0x100_0000_0000 * 0x40_0000_0000_0000_0000_0000) by (nonlinear_arith)
                requires
                    0 <= nn <= 0x100_0000_0000,
                    0 <= residual <= 0x40_0000_0000_0000_0000_0000,
            ;
        }
        let den: i128 = qq * total;
        let lost: i128 = nn * residual;
        Ok(Score { num: den - lost, den })
    }
}

} // verus!
