//! The paired sample set, the quantile level and the failures of the library.

use vstd::prelude::*;

verus! {

/// Paired observations: `xs[i]` is the predictor that belongs to the response `ys[i]`.
#[derive(Clone, Debug, PartialEq, Eq)]
pub struct Data {
    pub xs: Vec<i32>,
    pub ys: Vec<i32>,
}

impl View for Data {
    type V = Seq<(int, int)>;

    /// The pairs `(x, y)`, in order. Meant for sets whose two sequences have one length.
    open spec fn view(&self) -> Seq<(int, int)> {
        Seq::new(self.xs@.len(), |i: int| (self.xs@[i] as int, self.ys@[i] as int))
    }
}

impl Data {
    /// Both sequences have the same length.
    pub open spec fn paired(&self) -> bool {
        self.xs@.len() == self.ys@.len()
    }

    pub fn new(xs: Vec<i32>, ys: Vec<i32>) -> (data: Data)
        ensures
            data.xs == xs,
            data.ys == ys,
    {
        Data { xs, ys }
    }

    pub fn len(&self) -> (n: usize)
        ensures
            n == self.xs@.len(),
    {
        self.xs.len()
    }
}

/// The quantile level `num / den`. Levels outside of the unit interval are allowed:
/// at or below zero the fit follows the lowest ratio, above one the highest.
#[derive(Clone, Copy, Debug, PartialEq, Eq)]
pub struct Quantile {
    pub num: i32,
    pub den: u32,
}

impl View for Quantile {
    type V = (int, int);

    open spec fn view(&self) -> (int, int) {
        (self.num as int, self.den as int)
    }
}

impl Quantile {
    /// A level is a fraction: its denominator is positive.
    pub open spec fn wf(&self) -> bool {
        self.den > 0
    }

    /// The level `num / den`, or `None` for a zero denominator.
    pub fn new(num: i32, den: u32) -> (q: Option<Quantile>)
        ensures
            den == 0 ==> q is None,
            den != 0 ==> q == Some(Quantile { num, den }),
    {
        if den == 0 {
            None
        } else {
            Some(Quantile { num, den })
        }
    }
}

/// Why a fit or a score could not be given.
#[derive(Clone, Copy, Debug, PartialEq, Eq, Structural)]
pub enum FitError {
    /// The two sequences differ in length, or no predictor is different from zero.
    InvalidInput,
    /// The responses have no variance, so the score would divide by zero.
    UndefinedScore,
}

} // verus!
