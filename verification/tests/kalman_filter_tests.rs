use kalman_filter::{
    combine_measurements, covariance_matrix_from_variance,
    covariance_matrix_from_variance_vector, FilterError, KalmanFilter, Ratio, SimpleSquareMatrix,
    SimpleVector,
};

fn assert_float_eq(expected: f64, actual: f64, margin: f64) {
    assert!(
        (expected - actual).abs() < margin,
        "assertion failed: Expected {expected}, but found {actual} (margin of {margin})"
    );
}

fn ratio(numerator: i64, denominator: i64) -> Ratio {
    Ratio::new(numerator, denominator).unwrap()
}

fn whole(n: i64) -> Ratio {
    Ratio::from_integer(n)
}

fn float(r: Ratio) -> f64 {
    r.numerator() as f64 / r.denominator() as f64
}

fn vector2(a: Ratio, b: Ratio) -> SimpleVector<2> {
    SimpleVector::new([a, b])
}

fn matrix2(a: Ratio, b: Ratio, c: Ratio, d: Ratio) -> SimpleSquareMatrix<2> {
    SimpleSquareMatrix::new([[a, b], [c, d]])
}

/// Assume the value never changes.
fn evolution_func(
    state: SimpleVector<1>,
    covar: SimpleSquareMatrix<1>,
    _: Ratio,
) -> (SimpleVector<1>, SimpleSquareMatrix<1>) {
    (state, covar)
}

/// The state drifts by `dt` in its first variable, and every variance grows
/// by `dt`.
fn drifting(
    state: SimpleVector<2>,
    covar: SimpleSquareMatrix<2>,
    dt: Ratio,
) -> (SimpleVector<2>, SimpleSquareMatrix<2>) {
    let s0 = state.entry(0).unwrap().checked_add(dt).unwrap();
    let s1 = state.entry(1).unwrap();
    let c00 = covar.entry(0, 0).unwrap().checked_add(dt).unwrap();
    let c11 = covar.entry(1, 1).unwrap().checked_add(dt).unwrap();
    (
        vector2(s0, s1),
        matrix2(c00, covar.entry(0, 1).unwrap(), covar.entry(1, 0).unwrap(), c11),
    )
}

/// Tests the kalman filter's basic distribution combining
/// ability. Does not test proper affect of evolution function.
/// Uses one dimension. Check values determined externally.
#[test]
fn simple_1d() {
    let mut filter = KalmanFilter::new(
        SimpleVector::new([whole(0)]),
        SimpleSquareMatrix::new([[whole(1)]]),
        evolution_func,
    );

    // Check initial filter state
    assert_eq!(float(filter.get_current_state().entry(0).unwrap()), 0.0);
    assert_eq!(float(filter.get_current_covariance().entry(0, 0).unwrap()), 1.0);

    // Step 1
    filter
        .step_with_measurement(
            ratio(1, 10),
            &SimpleVector::new([whole(2)]),
            &SimpleSquareMatrix::new([[whole(2)]]),
        )
        .unwrap();

    assert_float_eq(
        0.6666666666666666,
        float(filter.get_current_state().entry(0).unwrap()),
        1e-6,
    );
    assert_float_eq(
        0.6666666666666666,
        float(filter.get_current_covariance().entry(0, 0).unwrap()),
        1e-6,
    );

    // Step 2
    filter
        .step_with_measurement(
            ratio(1, 10),
            &SimpleVector::new([whole(2)]),
            &SimpleSquareMatrix::new([[whole(2)]]),
        )
        .unwrap();

    assert_float_eq(1.0, float(filter.get_current_state().entry(0).unwrap()), 1e-6);
    assert_float_eq(0.5, float(filter.get_current_covariance().entry(0, 0).unwrap()), 1e-6);
}

#[test]
fn simple_1d_is_exact() {
    let mut filter = KalmanFilter::new(
        SimpleVector::new([whole(0)]),
        SimpleSquareMatrix::new([[whole(1)]]),
        evolution_func,
    );
    let measurement = SimpleVector::new([whole(2)]);
    let measurement_covariance = SimpleSquareMatrix::new([[whole(2)]]);
    filter
        .step_with_measurement(ratio(1, 10), &measurement, &measurement_covariance)
        .unwrap();
    assert_eq!(filter.get_current_state(), SimpleVector::new([ratio(2, 3)]));
    assert_eq!(filter.get_current_covariance(), SimpleSquareMatrix::new([[ratio(2, 3)]]));
    filter
        .step_with_measurement(ratio(1, 10), &measurement, &measurement_covariance)
        .unwrap();
    assert_eq!(filter.get_current_state(), SimpleVector::new([whole(1)]));
    assert_eq!(filter.get_current_covariance(), SimpleSquareMatrix::new([[ratio(1, 2)]]));
}

#[test]
fn new_filter_reports_initial_estimate() {
    let state = vector2(ratio(3, 4), whole(-2));
    let covariance = matrix2(whole(5), ratio(1, 3), ratio(1, 3), whole(7));
    let filter = KalmanFilter::new(state, covariance, drifting);
    assert_eq!(filter.get_current_state(), state);
    assert_eq!(filter.get_current_covariance(), covariance);
}

#[test]
fn fusion_matches_formula_2d() {
    let m1 = vector2(whole(1), whole(0));
    let c1 = matrix2(whole(2), whole(1), whole(1), whole(2));
    let m2 = vector2(whole(0), whole(8));
    let c2 = matrix2(whole(1), whole(0), whole(0), whole(1));
    let (mean, covariance) = combine_measurements(&m1, &c1, &m2, &c2).unwrap();
    assert_eq!(mean, vector2(ratio(11, 8), ratio(39, 8)));
    assert_eq!(
        covariance,
        matrix2(ratio(5, 8), ratio(1, 8), ratio(1, 8), ratio(5, 8))
    );
}

#[test]
fn fusion_is_commutative() {
    let m1 = vector2(ratio(1, 2), whole(-3));
    let c1 = matrix2(whole(4), whole(1), whole(1), whole(3));
    let m2 = vector2(whole(7), ratio(5, 3));
    let c2 = matrix2(ratio(3, 2), ratio(-1, 2), ratio(-1, 2), whole(2));
    let one_way = combine_measurements(&m1, &c1, &m2, &c2).unwrap();
    let other_way = combine_measurements(&m2, &c2, &m1, &c1).unwrap();
    assert_eq!(one_way, other_way);
}

#[test]
fn equal_covariances_give_mean_of_means_and_half_covariance() {
    let m1 = vector2(whole(1), whole(10));
    let m2 = vector2(whole(4), whole(-2));
    let c = matrix2(whole(4), whole(1), whole(1), whole(3));
    let (mean, covariance) = combine_measurements(&m1, &c, &m2, &c).unwrap();
    assert_eq!(mean, vector2(ratio(5, 2), whole(4)));
    assert_eq!(
        covariance,
        matrix2(whole(2), ratio(1, 2), ratio(1, 2), ratio(3, 2))
    );
}

#[test]
fn fusion_never_increases_uncertainty() {
    let m1 = vector2(whole(0), whole(0));
    let c1 = matrix2(whole(4), whole(1), whole(1), whole(3));
    let m2 = vector2(whole(1), whole(1));
    let c2 = matrix2(whole(2), whole(-1), whole(-1), whole(5));
    let (_, fused) = combine_measurements(&m1, &c1, &m2, &c2).unwrap();
    for prior in [c1, c2] {
        // The difference is symmetric, so it is positive semi-definite when
        // its diagonal and its determinant are not negative.
        let d00 = float(prior.entry(0, 0).unwrap()) - float(fused.entry(0, 0).unwrap());
        let d01 = float(prior.entry(0, 1).unwrap()) - float(fused.entry(0, 1).unwrap());
        let d10 = float(prior.entry(1, 0).unwrap()) - float(fused.entry(1, 0).unwrap());
        let d11 = float(prior.entry(1, 1).unwrap()) - float(fused.entry(1, 1).unwrap());
        assert_float_eq(d01, d10, 1e-12);
        assert!(d00 >= 0.0);
        assert!(d11 >= 0.0);
        assert!(d00 * d11 - d01 * d10 >= -1e-12);
    }
}

#[test]
fn step_is_advance_then_apply() {
    let state = vector2(whole(1), whole(2));
    let covariance = matrix2(whole(2), whole(0), whole(0), whole(2));
    let measurement = vector2(whole(3), whole(1));
    let measurement_covariance = matrix2(whole(1), ratio(1, 2), ratio(1, 2), whole(1));
    let dt = ratio(1, 4);

    let mut together = KalmanFilter::new(state, covariance, drifting);
    together
        .step_with_measurement(dt, &measurement, &measurement_covariance)
        .unwrap();

    let mut apart = KalmanFilter::new(state, covariance, drifting);
    apart.step_time(dt);
    apart
        .apply_measurement(&measurement, &measurement_covariance)
        .unwrap();

    assert_eq!(together.get_current_state(), apart.get_current_state());
    assert_eq!(
        together.get_current_covariance(),
        apart.get_current_covariance()
    );
}

#[test]
fn step_time_uses_the_evolution_function() {
    let mut filter = KalmanFilter::new(
        vector2(whole(1), whole(2)),
        matrix2(whole(2), whole(0), whole(0), whole(3)),
        drifting,
    );
    filter.step_time(ratio(1, 2));
    assert_eq!(filter.get_current_state(), vector2(ratio(3, 2), whole(2)));
    assert_eq!(
        filter.get_current_covariance(),
        matrix2(ratio(5, 2), whole(0), whole(0), ratio(7, 2))
    );
}

#[test]
fn singular_sum_is_rejected_and_estimate_kept() {
    let state = vector2(whole(1), whole(2));
    let covariance = matrix2(whole(1), whole(1), whole(1), whole(1));
    let mut filter = KalmanFilter::new(state, covariance, drifting);
    let measurement = vector2(whole(5), whole(6));
    let measurement_covariance = matrix2(whole(1), whole(1), whole(1), whole(1));
    let r = filter.apply_measurement(&measurement, &measurement_covariance);
    assert_eq!(r, Err(FilterError::SingularCovariance));
    assert_eq!(filter.get_current_state(), state);
    assert_eq!(filter.get_current_covariance(), covariance);
}

#[test]
fn zero_covariances_are_singular() {
    let zero = SimpleSquareMatrix::new([[whole(0)]]);
    let m = SimpleVector::new([whole(1)]);
    assert_eq!(
        combine_measurements(&m, &zero, &m, &zero),
        Err(FilterError::SingularCovariance)
    );
}

#[test]
fn failed_step_has_still_advanced_time() {
    let state = vector2(whole(1), whole(2));
    let covariance = matrix2(whole(0), whole(0), whole(0), whole(0));
    let mut filter = KalmanFilter::new(state, covariance, drifting);
    let measurement = vector2(whole(5), whole(6));
    // After the step in time the covariance is the identity, and the sum with
    // its negative is zero.
    let measurement_covariance = matrix2(whole(-1), whole(0), whole(0), whole(-1));
    let r = filter.step_with_measurement(whole(1), &measurement, &measurement_covariance);
    assert_eq!(r, Err(FilterError::SingularCovariance));
    assert_eq!(filter.get_current_state(), vector2(whole(2), whole(2)));
    assert_eq!(
        filter.get_current_covariance(),
        matrix2(whole(1), whole(0), whole(0), whole(1))
    );
}

#[test]
fn overflow_is_reported_and_estimate_kept() {
    let state = SimpleVector::new([whole(1)]);
    let covariance = SimpleSquareMatrix::new([[whole(i64::MAX)]]);
    let mut filter = KalmanFilter::new(state, covariance, evolution_func);
    let r = filter.apply_measurement(
        &SimpleVector::new([whole(1)]),
        &SimpleSquareMatrix::new([[whole(i64::MAX)]]),
    );
    assert_eq!(r, Err(FilterError::Overflow));
    assert_eq!(filter.get_current_state(), state);
    assert_eq!(filter.get_current_covariance(), covariance);
}

#[test]
fn fusion_finds_a_pivot_below_the_diagonal() {
    let m1 = vector2(whole(3), whole(4));
    let c1 = matrix2(whole(0), whole(1), whole(1), whole(0));
    let m2 = vector2(whole(5), whole(6));
    let c2 = matrix2(whole(0), whole(0), whole(0), whole(0));
    let (mean, covariance) = combine_measurements(&m1, &c1, &m2, &c2).unwrap();
    assert_eq!(mean, m2);
    assert_eq!(covariance, c2);
}

#[test]
fn fusion_3d_with_full_matrices() {
    let m1 = SimpleVector::new([whole(1), whole(2), whole(3)]);
    let m2 = SimpleVector::new([whole(3), whole(2), whole(1)]);
    let c = SimpleSquareMatrix::new([
        [whole(2), whole(1), whole(0)],
        [whole(1), whole(2), whole(1)],
        [whole(0), whole(1), whole(2)],
    ]);
    let (mean, covariance) = combine_measurements(&m1, &c, &m2, &c).unwrap();
    assert_eq!(mean, SimpleVector::new([whole(2), whole(2), whole(2)]));
    assert_eq!(
        covariance,
        SimpleSquareMatrix::new([
            [whole(1), ratio(1, 2), whole(0)],
            [ratio(1, 2), whole(1), ratio(1, 2)],
            [whole(0), ratio(1, 2), whole(1)],
        ])
    );
}

#[test]
fn covariance_from_variances_is_diagonal() {
    let a = ratio(1, 2);
    let b = whole(3);
    let c = ratio(7, 5);
    let m = covariance_matrix_from_variance_vector(&SimpleVector::new([a, b, c]));
    assert_eq!(
        m,
        SimpleSquareMatrix::new([
            [a, whole(0), whole(0)],
            [whole(0), b, whole(0)],
            [whole(0), whole(0), c],
        ])
    );
}

#[test]
fn covariance_from_variance_repeats_it_on_the_diagonal() {
    let v = ratio(9, 4);
    let m: SimpleSquareMatrix<4> = covariance_matrix_from_variance(v);
    for i in 0..4 {
        for j in 0..4 {
            let expected = if i == j { v } else { whole(0) };
            assert_eq!(m.entry(i, j), Some(expected));
        }
    }
}

#[test]
fn entries_outside_the_size_are_absent() {
    let v = vector2(whole(1), whole(2));
    let m = matrix2(whole(1), whole(2), whole(3), whole(4));
    assert_eq!(v.entry(1), Some(whole(2)));
    assert_eq!(v.entry(2), None);
    assert_eq!(m.entry(1, 0), Some(whole(3)));
    assert_eq!(m.entry(2, 0), None);
    assert_eq!(m.entry(0, 2), None);
}

#[test]
fn ratio_is_kept_in_lowest_terms() {
    let r = ratio(6, -4);
    assert_eq!(r.numerator(), -3);
    assert_eq!(r.denominator(), 2);
    assert_eq!(ratio(0, 5), whole(0));
    assert_eq!(whole(0).denominator(), 1);
    assert_eq!(ratio(10, 5), whole(2));
}

#[test]
fn ratio_without_denominator_is_refused() {
    assert_eq!(Ratio::new(1, 0), None);
    assert_eq!(Ratio::new(0, 0), None);
}

#[test]
fn ratio_at_the_limits() {
    assert_eq!(Ratio::new(i64::MIN, 1), Some(whole(i64::MIN)));
    assert_eq!(Ratio::new(i64::MIN, 2).unwrap().numerator(), i64::MIN / 2);
    // Minus the least integer does not fit, and neither does its reciprocal.
    assert_eq!(Ratio::new(i64::MIN, -1), None);
    assert_eq!(Ratio::new(1, i64::MIN), None);
    assert_eq!(Ratio::new(i64::MAX, i64::MAX), Some(whole(1)));
}

#[test]
fn ratio_arithmetic_is_exact() {
    assert_eq!(ratio(1, 2).checked_add(ratio(1, 3)), Some(ratio(5, 6)));
    assert_eq!(ratio(1, 2).checked_sub(ratio(1, 3)), Some(ratio(1, 6)));
    assert_eq!(ratio(2, 3).checked_mul(ratio(3, 4)), Some(ratio(1, 2)));
    assert_eq!(ratio(2, 3).checked_div(ratio(-4, 9)), Some(ratio(-3, 2)));
    assert_eq!(ratio(1, 6).checked_add(ratio(-1, 6)), Some(whole(0)));
}

#[test]
fn ratio_arithmetic_reports_what_does_not_fit() {
    assert_eq!(whole(i64::MAX).checked_add(whole(1)), None);
    assert_eq!(whole(i64::MIN).checked_sub(whole(1)), None);
    assert_eq!(whole(i64::MAX).checked_mul(whole(2)), None);
    assert_eq!(ratio(1, i64::MAX).checked_div(whole(2)), None);
    assert_eq!(ratio(1, i64::MAX).checked_mul(ratio(1, 2)), None);
    // A result that fits once it is reduced is given.
    assert_eq!(
        whole(i64::MAX).checked_mul(ratio(1, i64::MAX)),
        Some(whole(1))
    );
}

#[test]
fn ratio_division_by_zero_is_refused() {
    assert_eq!(whole(1).checked_div(whole(0)), None);
    assert_eq!(whole(0).checked_div(ratio(1, 2)), Some(whole(0)));
}

#[test]
fn ratio_knows_zero() {
    assert!(whole(0).is_zero());
    assert!(ratio(0, -7).is_zero());
    assert!(!ratio(1, i64::MAX).is_zero());
}

#[test]
fn vectors_add_entry_by_entry() {
    let x = vector2(ratio(1, 2), whole(3));
    let y = vector2(ratio(1, 3), whole(-3));
    assert_eq!(x.checked_add(&y), Some(vector2(ratio(5, 6), whole(0))));
    let big = vector2(whole(i64::MAX), whole(0));
    assert_eq!(big.checked_add(&vector2(whole(1), whole(0))), None);
}

#[test]
fn matrices_add_and_multiply() {
    let a = matrix2(whole(1), whole(2), whole(3), whole(4));
    let b = matrix2(whole(0), whole(1), ratio(1, 2), whole(-1));
    assert_eq!(
        a.checked_add(&b),
        Some(matrix2(whole(1), whole(3), ratio(7, 2), whole(3)))
    );
    assert_eq!(
        a.checked_mul(&b),
        Some(matrix2(whole(1), whole(-1), whole(2), whole(-1)))
    );
    assert_eq!(
        b.checked_mul(&a),
        Some(matrix2(whole(3), whole(4), ratio(-5, 2), whole(-3)))
    );
    assert_eq!(
        a.checked_apply(&vector2(whole(1), ratio(1, 2))),
        Some(vector2(whole(2), whole(5)))
    );
}

#[test]
fn matrix_arithmetic_reports_what_does_not_fit() {
    let big = matrix2(whole(i64::MAX), whole(0), whole(0), whole(1));
    assert_eq!(big.checked_add(&big), None);
    assert_eq!(big.checked_mul(&big), None);
    assert_eq!(big.checked_apply(&vector2(whole(2), whole(0))), None);
}

#[test]
fn inverse_is_exact() {
    let a = matrix2(whole(2), whole(1), whole(1), whole(1));
    let inverse = a.try_inverse().unwrap();
    assert_eq!(inverse, matrix2(whole(1), whole(-1), whole(-1), whole(2)));
    let identity = matrix2(whole(1), whole(0), whole(0), whole(1));
    assert_eq!(a.checked_mul(&inverse), Some(identity));
    assert_eq!(inverse.checked_mul(&a), Some(identity));
}

#[test]
fn inverse_3d() {
    let a = SimpleSquareMatrix::new([
        [whole(0), whole(2), whole(0)],
        [whole(1), whole(0), whole(0)],
        [whole(0), whole(0), whole(4)],
    ]);
    let inverse = a.try_inverse().unwrap();
    assert_eq!(
        inverse,
        SimpleSquareMatrix::new([
            [whole(0), whole(1), whole(0)],
            [ratio(1, 2), whole(0), whole(0)],
            [whole(0), whole(0), ratio(1, 4)],
        ])
    );
}

#[test]
fn inverse_of_singular_matrix_is_refused() {
    let a = matrix2(whole(1), whole(2), whole(2), whole(4));
    assert_eq!(a.try_inverse(), Err(FilterError::SingularCovariance));
    let zero_row = SimpleSquareMatrix::new([
        [whole(1), whole(2), whole(3)],
        [whole(0), whole(0), whole(0)],
        [whole(4), whole(5), whole(6)],
    ]);
    assert_eq!(zero_row.try_inverse(), Err(FilterError::SingularCovariance));
}

#[test]
fn inverse_that_does_not_fit_is_given_up() {
    let a = matrix2(whole(i64::MIN), whole(0), whole(0), whole(1));
    assert_eq!(a.try_inverse(), Err(FilterError::Overflow));
}

#[test]
fn filter_without_variables() {
    let empty_vector: SimpleVector<0> = SimpleVector::new([]);
    let empty_matrix: SimpleSquareMatrix<0> = SimpleSquareMatrix::new([]);
    assert_eq!(
        combine_measurements(&empty_vector, &empty_matrix, &empty_vector, &empty_matrix),
        Ok((empty_vector, empty_matrix))
    );
}
