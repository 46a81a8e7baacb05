use quantile_slope::estimator::Slope;
use quantile_slope::goodness::{Score, MAX_SCORED_LEN, MAX_SCORED_MAGNITUDE};
use quantile_slope::samples::{Data, FitError, Quantile};

fn score_of(num: i64, den: i64, xs: Vec<i32>, ys: Vec<i32>) -> Result<Score, FitError> {
    let slope = Slope { num, den };
    let data = Data::new(xs, ys);
    assert!(slope.is_scorable() && data.is_scorable());
    slope.r_squared(&data)
}

#[test]
fn perfect_line_scores_one() {
    let score = score_of(2, 1, vec![1, 2, 3, 4], vec![2, 4, 6, 8]).unwrap();
    assert!(score.den > 0);
    assert_eq!(score.num, score.den);
    // Mean 5, deviations -3, -1, 1, 3: total 20, times the square of the length.
    assert_eq!(score.den, 16 * 20);
}

#[test]
fn fitted_perfect_line_scores_one() {
    let data = Data::new(vec![2, 4, -6, 10], vec![3, 6, -9, 15]);
    let slope = Slope::fit(&data, Quantile::new(1, 4).unwrap()).unwrap();
    assert!(slope.is_scorable());
    let score = slope.r_squared(&data).unwrap();
    assert_eq!(score.num, score.den);
}

#[test]
fn outlier_lowers_the_score() {
    let score = score_of(2, 1, vec![1, 2, 3, 4], vec![2, 4, 6, 100]).unwrap();
    // Residual 92^2 = 8464; total about the mean 28 is 6920.
    assert_eq!(score.den, 16 * 6920);
    assert_eq!(score.num, 16 * 6920 - 16 * 8464);
    assert!(score.num < score.den);
}

#[test]
fn fractional_slope_is_scored_exactly() {
    // Slope 3/2 on (2, 4) and (4, 5): residuals 1 and -1, mean 9/2, deviations -1/2, 1/2.
    let score = score_of(3, 2, vec![2, 4], vec![4, 5]).unwrap();
    // 1 - 2 / (1/2) = -3.
    assert_eq!(score.num, -3 * score.den);
    assert_eq!(score.den, 4 * 2);
    // The same slope written as 6/4.
    let same = score_of(6, 4, vec![2, 4], vec![4, 5]).unwrap();
    assert_eq!(same.num * score.den, score.num * same.den);
}

#[test]
fn identical_responses_have_no_score() {
    assert_eq!(score_of(1, 1, vec![1, 2, 3], vec![7, 7, 7]), Err(FitError::UndefinedScore));
    assert_eq!(score_of(0, 1, vec![1, 2], vec![0, 0]), Err(FitError::UndefinedScore));
}

#[test]
fn single_point_and_empty_set_have_no_score() {
    assert_eq!(score_of(5, 1, vec![1], vec![5]), Err(FitError::UndefinedScore));
    assert_eq!(score_of(5, 1, vec![], vec![]), Err(FitError::UndefinedScore));
}

#[test]
fn mismatched_lengths_cannot_be_scored() {
    assert_eq!(score_of(1, 1, vec![1, 2, 3], vec![1, 2]), Err(FitError::InvalidInput));
    assert_eq!(score_of(1, 1, vec![1], vec![1, 2]), Err(FitError::InvalidInput));
}

#[test]
fn scaling_responses_and_slope_keeps_the_score() {
    let xs = vec![3, -1, 7, 2, 5];
    let ys = vec![9, 4, -7, 1, 5];
    let plain = score_of(5, 3, xs.clone(), ys.clone()).unwrap();
    for c in [-4, -1, 2, 7] {
        let scaled: Vec<i32> = ys.iter().map(|y| c * y).collect();
        let wide = score_of(5 * (c as i64), 3, xs.clone(), scaled).unwrap();
        assert_eq!(wide.num * plain.den, plain.num * wide.den);
        assert_eq!(wide.den, (c as i128) * (c as i128) * plain.den);
    }
}

#[test]
fn score_is_at_most_one() {
    let score = score_of(-7, 5, vec![3, -1, 7, 2, 5], vec![9, 4, -7, 1, 5]).unwrap();
    assert!(score.num <= score.den);
    assert!(score.den > 0);
}

#[test]
fn largest_samples_are_scored_without_overflow() {
    let top = MAX_SCORED_MAGNITUDE as i32;
    let score = score_of(-(top as i64), top as i64, vec![top, -top], vec![top, -top]).unwrap();
    // Slope -1 on the line y = x: residuals twice the responses, mean zero.
    assert_eq!(score.num, -3 * score.den);
}

#[test]
fn limits_are_tested() {
    let top = MAX_SCORED_MAGNITUDE as i32;
    assert!(Data::new(vec![top, -top], vec![0, top]).is_scorable());
    assert!(!Data::new(vec![top + 1], vec![0]).is_scorable());
    assert!(!Data::new(vec![0], vec![-top - 1]).is_scorable());
    assert!(!Data::new(vec![0, 0], vec![0, top + 1]).is_scorable());
    assert!(Data::new(vec![0; MAX_SCORED_LEN], vec![]).is_scorable());
    assert!(!Data::new(vec![0; MAX_SCORED_LEN + 1], vec![]).is_scorable());
    assert!(Slope { num: -MAX_SCORED_MAGNITUDE, den: MAX_SCORED_MAGNITUDE }.is_scorable());
    assert!(!Slope { num: 1, den: 0 }.is_scorable());
    assert!(!Slope { num: 1, den: -1 }.is_scorable());
    assert!(!Slope { num: MAX_SCORED_MAGNITUDE + 1, den: 1 }.is_scorable());
    assert!(!Slope { num: 1, den: MAX_SCORED_MAGNITUDE + 1 }.is_scorable());
}

#[test]
fn two_different_responses_are_enough_for_a_score() {
    let score = score_of(0, 1, vec![0, 0, 0], vec![7, 7, 8]).unwrap();
    // The slope zero predicts zero: residual 49 + 49 + 64, total 2/3.
    assert_eq!(score.den, 9 * 2 / 3);
    assert_eq!(score.num, 6 - 9 * 162);
}

#[test]
fn long_set_is_scored() {
    let xs: Vec<i32> = (0..100_000).map(|i| i % 1000).collect();
    let ys: Vec<i32> = xs.iter().map(|x| 5 * x).collect();
    let score = score_of(5, 1, xs.clone(), ys.clone()).unwrap();
    assert_eq!(score.num, score.den);
    let off = score_of(4, 1, xs, ys).unwrap();
    // Residuals x^2 against deviations 25 (x - mean)^2.
    assert!(off.num < off.den);
    let sum_sq: i128 = (0..1000i128).map(|x| x * x).sum::<i128>() * 100;
    let mean_dev: i128 = (0..1000i128).map(|x| (2 * x - 999) * (2 * x - 999)).sum::<i128>() * 100;
    // 1 - sum x^2 / (25/4 * sum (2x - 999)^2)
    assert_eq!(off.num * 25 * mean_dev, off.den * (25 * mean_dev - 4 * sum_sq));
}

#[test]
fn checked_score_tells_when_the_limits_are_passed() {
    let data = Data::new(vec![1, 2, 3, 4], vec![2, 4, 6, 100]);
    let slope = Slope { num: 2, den: 1 };
    let score = slope.checked_r_squared(&data).unwrap().unwrap();
    assert_eq!((score.num, score.den), (-24_704, 110_720));
    let wide = Data::new(vec![1, 2], vec![1, 70_000]);
    assert_eq!(slope.checked_r_squared(&wide), None);
    assert_eq!(Slope { num: 1, den: 0 }.checked_r_squared(&data), None);
    assert_eq!(Slope { num: 70_000, den: 1 }.checked_r_squared(&data), None);
    let flat = Data::new(vec![1, 2], vec![3, 3]);
    assert_eq!(slope.checked_r_squared(&flat), Some(Err(FitError::UndefinedScore)));
    let odd = Data::new(vec![1, 2], vec![3]);
    assert_eq!(slope.checked_r_squared(&odd), Some(Err(FitError::InvalidInput)));
}
