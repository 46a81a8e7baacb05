use quantile_slope::estimator::Slope;
use quantile_slope::samples::{Data, FitError, Quantile};

fn level(num: i32, den: u32) -> Quantile {
    Quantile::new(num, den).unwrap()
}

fn fit_of(xs: Vec<i32>, ys: Vec<i32>, num: i32, den: u32) -> Result<Slope, FitError> {
    Slope::fit(&Data::new(xs, ys), level(num, den))
}

/// The slope as a fraction in lowest terms.
fn reduced(slope: Slope) -> (i64, i64) {
    let (mut a, mut b) = (slope.num.abs(), slope.den.abs());
    while b != 0 {
        let r = a % b;
        a = b;
        b = r;
    }
    (slope.num / a, slope.den / a)
}

#[test]
fn perfect_line_gives_its_slope() {
    let slope = fit_of(vec![1, 2, 3, 4], vec![2, 4, 6, 8], 1, 2).unwrap();
    assert!(slope.den > 0);
    assert_eq!(reduced(slope), (2, 1));
}

#[test]
fn outlier_does_not_move_the_median_slope() {
    let slope = fit_of(vec![1, 2, 3, 4], vec![2, 4, 6, 100], 1, 2).unwrap();
    assert_eq!(reduced(slope), (2, 1));
}

#[test]
fn upper_level_follows_the_outlier() {
    // Weights 1, 2, 3, 4 of 10: the ratio 2 holds 6, the ratio 25 the rest.
    let slope = fit_of(vec![1, 2, 3, 4], vec![2, 4, 6, 100], 7, 10).unwrap();
    assert_eq!(reduced(slope), (25, 1));
    let slope = fit_of(vec![1, 2, 3, 4], vec![2, 4, 6, 100], 6, 10).unwrap();
    assert_eq!(reduced(slope), (2, 1));
}

#[test]
fn fractional_line_is_exact_at_every_level() {
    for num in 1..10 {
        let slope = fit_of(vec![2, 4, -6, 10], vec![3, 6, -9, 15], num, 10).unwrap();
        assert_eq!(reduced(slope), (3, 2));
    }
}

#[test]
fn all_zero_predictors_are_invalid() {
    assert_eq!(fit_of(vec![0, 0, 0], vec![1, 2, 3], 1, 2), Err(FitError::InvalidInput));
}

#[test]
fn empty_set_is_invalid() {
    assert_eq!(fit_of(vec![], vec![], 1, 2), Err(FitError::InvalidInput));
}

#[test]
fn mismatched_lengths_are_invalid() {
    assert_eq!(fit_of(vec![1, 2, 3], vec![1, 2], 1, 2), Err(FitError::InvalidInput));
    assert_eq!(fit_of(vec![1], vec![1, 2], 1, 2), Err(FitError::InvalidInput));
}

#[test]
fn zero_predictors_are_left_out() {
    let slope = fit_of(vec![0, 1, 0], vec![100, 5, -100], 1, 2).unwrap();
    assert_eq!(reduced(slope), (5, 1));
}

#[test]
fn negative_predictors_keep_the_sign_of_the_ratio() {
    // Ratios 3 (weight 1) and -2 (weight 2).
    let low = fit_of(vec![-1, -2], vec![-3, 4], 1, 2).unwrap();
    assert_eq!(reduced(low), (-2, 1));
    let high = fit_of(vec![-1, -2], vec![-3, 4], 9, 10).unwrap();
    assert_eq!(reduced(high), (3, 1));
    assert!(low.den > 0 && high.den > 0);
}

#[test]
fn share_met_exactly_takes_the_lower_ratio() {
    // Half of the weight 2 is reached at the first ratio: nothing is interpolated.
    let slope = fit_of(vec![1, 1], vec![1, 3], 1, 2).unwrap();
    assert_eq!(reduced(slope), (1, 1));
    let slope = fit_of(vec![1, 1], vec![1, 3], 51, 100).unwrap();
    assert_eq!(reduced(slope), (3, 1));
}

#[test]
fn order_of_the_points_does_not_matter() {
    let a = fit_of(vec![4, 1, 3, 2], vec![100, 2, 6, 4], 1, 2).unwrap();
    let b = fit_of(vec![1, 2, 3, 4], vec![2, 4, 6, 100], 1, 2).unwrap();
    assert_eq!(reduced(a), reduced(b));
    let c = fit_of(vec![5, 1, 2], vec![5, 7, 6], 1, 3).unwrap();
    let d = fit_of(vec![2, 5, 1], vec![6, 5, 7], 1, 3).unwrap();
    assert_eq!(reduced(c), (1, 1));
    assert_eq!(reduced(c), reduced(d));
}

#[test]
fn levels_outside_of_the_unit_interval() {
    let xs = vec![1, 2, 4];
    let ys = vec![3, 2, 20];
    // Ratios 3, 1 and 5.
    assert_eq!(reduced(fit_of(xs.clone(), ys.clone(), 0, 1).unwrap()), (1, 1));
    assert_eq!(reduced(fit_of(xs.clone(), ys.clone(), -3, 2).unwrap()), (1, 1));
    assert_eq!(reduced(fit_of(xs.clone(), ys.clone(), 1, 1).unwrap()), (5, 1));
    assert_eq!(reduced(fit_of(xs.clone(), ys.clone(), 5, 2).unwrap()), (5, 1));
}

#[test]
fn raising_the_level_never_lowers_the_slope() {
    let xs = vec![3, -1, 7, 2, 5, -4, 1];
    let ys = vec![9, 4, -7, 1, 5, 10, 0];
    let mut last: Option<Slope> = None;
    for num in -2..14 {
        let slope = fit_of(xs.clone(), ys.clone(), num, 11).unwrap();
        if let Some(prev) = last {
            assert!(prev.num * slope.den <= slope.num * prev.den);
        }
        last = Some(slope);
    }
    let lowest = fit_of(xs.clone(), ys.clone(), -2, 11).unwrap();
    let highest = fit_of(xs, ys, 13, 11).unwrap();
    assert_eq!(reduced(lowest), (-4, 1));
    assert_eq!(reduced(highest), (3, 1));
}

#[test]
fn scaling_the_responses_scales_the_slope() {
    let xs = vec![3, -1, 7, 2, 5];
    let ys = vec![9, 4, -7, 1, 5];
    let scaled: Vec<i32> = ys.iter().map(|y| 6 * y).collect();
    for num in 1..8 {
        let plain = fit_of(xs.clone(), ys.clone(), num, 8).unwrap();
        let wide = fit_of(xs.clone(), scaled.clone(), num, 8).unwrap();
        assert_eq!(wide.num * plain.den, 6 * plain.num * wide.den);
    }
}

#[test]
fn copies_of_a_point_weigh_as_one_heavier_point() {
    // Three copies of (2, 6) against the one point (6, 18).
    for num in 0..6 {
        let copies = fit_of(vec![1, 5, 2, 2, 2], vec![1, 20, 6, 6, 6], num, 5).unwrap();
        let merged = fit_of(vec![1, 5, 6], vec![1, 20, 18], num, 5).unwrap();
        assert_eq!(reduced(copies), reduced(merged));
    }
    let copies = fit_of(vec![1, 5, 2, 2, 2], vec![1, 20, 6, 6, 6], 1, 2).unwrap();
    assert_eq!(reduced(copies), (3, 1));
    // The copies may stand anywhere, together or apart.
    for num in 0..6 {
        let apart = fit_of(vec![2, 1, 2, 5, 2], vec![6, 1, 6, 20, 6], num, 5).unwrap();
        let merged = fit_of(vec![1, 6, 5], vec![1, 18, 20], num, 5).unwrap();
        assert_eq!(reduced(apart), reduced(merged));
    }
    // One copy alone does not reach half of the weight.
    let single = fit_of(vec![1, 5, 2], vec![1, 20, 6], 1, 2).unwrap();
    assert_eq!(reduced(single), (4, 1));
}

#[test]
fn extreme_samples_do_not_overflow() {
    let slope = fit_of(vec![i32::MIN, i32::MAX], vec![i32::MIN, i32::MIN], 1, 2).unwrap();
    assert_eq!(reduced(slope), (1, 1));
    let slope = fit_of(vec![i32::MIN, 1], vec![i32::MAX, i32::MIN], i32::MAX, u32::MAX).unwrap();
    assert_eq!(reduced(slope), (-(i32::MAX as i64), 1i64 << 31));
    let slope = fit_of(vec![i32::MIN, 1], vec![i32::MAX, i32::MIN], i32::MIN, 1).unwrap();
    assert_eq!(reduced(slope), (i32::MIN as i64, 1));
}

#[test]
fn level_needs_a_denominator() {
    assert_eq!(Quantile::new(1, 0), None);
    assert_eq!(Quantile::new(-3, 7), Some(Quantile { num: -3, den: 7 }));
}

#[test]
fn data_keeps_what_it_is_given() {
    let data = Data::new(vec![1, 2, 3], vec![4, 5, 6]);
    assert_eq!(data.xs, vec![1, 2, 3]);
    assert_eq!(data.ys, vec![4, 5, 6]);
    assert_eq!(data.len(), 3);
}

/// The weighted quantile by its definition: the lowest ratio up to which the weight
/// reaches the share, or the highest ratio where none does.
fn by_definition(xs: &[i32], ys: &[i32], num: i32, den: u32) -> Option<(i64, i64)> {
    let points: Vec<(i128, i128)> = xs
        .iter()
        .zip(ys.iter())
        .filter(|(x, _)| **x != 0)
        .map(|(x, y)| {
            let (x, y) = (*x as i128, *y as i128);
            if x < 0 { (-y, -x) } else { (y, x) }
        })
        .collect();
    let total: i128 = points.iter().map(|p| p.1).sum();
    let mut lowest: Option<(i128, i128)> = None;
    let mut highest: Option<(i128, i128)> = None;
    for p in &points {
        let upto: i128 = points.iter().filter(|q| q.0 * p.1 <= p.0 * q.1).map(|q| q.1).sum();
        if upto * (den as i128) >= (num as i128) * total {
            if lowest.map_or(true, |l| p.0 * l.1 < l.0 * p.1) {
                lowest = Some(*p);
            }
        }
        if highest.map_or(true, |h| h.0 * p.1 < p.0 * h.1) {
            highest = Some(*p);
        }
    }
    lowest.or(highest).map(|p| reduced(Slope { num: p.0 as i64, den: p.1 as i64 }))
}

#[test]
fn long_sets_agree_with_the_definition() {
    let mut state: u64 = 0x2545_f491_4f6c_dd1d;
    let mut next = move |span: i64| -> i32 {
        state = state.wrapping_mul(6364136223846793005).wrapping_add(1442695040888963407);
        (((state >> 33) as i64) % (2 * span + 1) - span) as i32
    };
    for round in 0..40 {
        let len = 1 + (round * 7) % 97;
        let xs: Vec<i32> = (0..len).map(|_| next(12)).collect();
        let ys: Vec<i32> = (0..len).map(|_| next(1000)).collect();
        for num in [-1, 0, 1, 3, 5, 8, 10, 11] {
            let expected = by_definition(&xs, &ys, num, 10);
            let got = fit_of(xs.clone(), ys.clone(), num, 10);
            match expected {
                Some(value) => assert_eq!(reduced(got.unwrap()), value),
                None => assert_eq!(got, Err(FitError::InvalidInput)),
            }
        }
    }
}

#[test]
fn many_equal_ratios_are_one_step() {
    // A thousand points on y = -3x and one far above: the walk passes the ties one by one.
    let mut xs: Vec<i32> = (1..=1000).collect();
    let mut ys: Vec<i32> = xs.iter().map(|x| -3 * x).collect();
    xs.push(7);
    ys.push(700);
    assert_eq!(reduced(fit_of(xs.clone(), ys.clone(), 1, 2).unwrap()), (-3, 1));
    assert_eq!(reduced(fit_of(xs.clone(), ys.clone(), 999, 1000).unwrap()), (-3, 1));
    assert_eq!(reduced(fit_of(xs, ys, 999_999, 1_000_000).unwrap()), (100, 1));
}

#[test]
fn fitted_slope_of_scorable_data_is_scorable() {
    let data = Data::new(vec![65_536, -65_536, 3], vec![-65_536, 65_536, 65_536]);
    assert!(data.is_scorable());
    for num in 0..4 {
        let slope = Slope::fit(&data, level(num, 3)).unwrap();
        assert!(slope.is_scorable());
    }
}
