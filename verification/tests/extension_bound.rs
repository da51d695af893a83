use num_integer::Roots;
use vega_small_value::errors::SpartanError;
use vega_small_value::extension_bound::{
    check_extension_bound, check_extension_bound_values_for_rounds, checked_pow,
    extension_step_growth, field_values_to_small_or_zero_with_bound, max_abs,
    max_extension_fit_input_abs, max_extension_input_abs, max_extension_input_abs_for_rounds,
    ExtensionBoundedPoly, SMALL_VALUE_T_DEGREE,
};
use vega_small_value::field::Scalar;
use vega_small_value::multilinear::MultilinearPolynomial;

type F = Scalar;

#[test]
fn test_extension_step_growth() {
    assert_eq!(extension_step_growth::<i64, 2>(), Some(2));
    assert_eq!(extension_step_growth::<i64, 3>(), Some(3));
    assert_eq!(extension_step_growth::<i64, 4>(), Some(5));
}

#[test]
fn test_extension_bound_uses_spartan_growth_i32() {
    const D: usize = 2;
    const LB: usize = 3;
    let bound = max_extension_input_abs::<i32, i64, D, LB>();
    let growth = checked_pow(extension_step_growth::<i64, D>().unwrap(), LB).unwrap();
    let limit = max_abs::<i32, i64>()
        .unwrap()
        .min(max_abs::<i64, i64>().unwrap().sqrt());

    assert_eq!(bound, limit / growth);
}

#[test]
fn test_runtime_extension_bound_matches_const_i32() {
    const D: usize = 2;
    const LB: usize = 3;

    assert_eq!(
        max_extension_input_abs_for_rounds::<i32, i64, D>(LB),
        max_extension_input_abs::<i32, i64, D, LB>()
    );
}

#[test]
fn test_extension_bound_uses_product_limit() {
    const D: usize = 2;
    const LB: usize = 2;
    let product_limit = max_abs::<i16, i16>().unwrap().sqrt();
    let growth = checked_pow(extension_step_growth::<i16, D>().unwrap(), LB).unwrap();

    assert_eq!(product_limit, 181);
    assert_eq!(
        max_extension_input_abs::<i32, i16, D, LB>(),
        product_limit / growth
    );
}

#[test]
fn test_extension_bound_accepts_exact_bound_i32() {
    const D: usize = 2;
    const LB: usize = 3;
    let bound = max_extension_input_abs::<i32, i64, D, LB>();
    let poly = MultilinearPolynomial::new(vec![bound as i32, -(bound as i32), 0, 1]);

    assert!(ExtensionBoundedPoly::<i32, i64, D, LB>::new(poly).is_ok());
}

#[test]
fn test_runtime_extension_bound_accepts_exact_bound_i32() {
    const D: usize = 2;
    const LB: usize = 3;
    let bound = max_extension_input_abs_for_rounds::<i32, i64, D>(LB);

    assert!(check_extension_bound_values_for_rounds::<i32, i64, D>(
        &[bound as i32, -(bound as i32), 0, 1],
        LB,
        "runtime values",
    )
    .is_ok());
}

#[test]
fn test_check_extension_bound_rejects_above_bound_i32() {
    const D: usize = 2;
    const LB: usize = 3;
    let bound = max_extension_input_abs::<i32, i64, D, LB>();
    let poly = MultilinearPolynomial::new(vec![(bound + 1) as i32]);

    assert!(matches!(
        check_extension_bound::<i32, i64, D, LB>(&poly),
        Err(SpartanError::SmallValueOverflow { .. })
    ));
}

#[test]
fn test_runtime_extension_bound_rejects_above_bound_i32() {
    const D: usize = 2;
    const LB: usize = 3;
    let bound = max_extension_input_abs_for_rounds::<i32, i64, D>(LB);

    assert!(matches!(
        check_extension_bound_values_for_rounds::<i32, i64, D>(
            &[(bound + 1) as i32],
            LB,
            "runtime values",
        ),
        Err(SpartanError::SmallValueOverflow { .. })
    ));
}

#[test]
fn test_field_values_to_small_or_zero_with_bound_marks_values_above_bound() {
    let l0 = 2;
    let bound = max_extension_input_abs_for_rounds::<i64, i128, SMALL_VALUE_T_DEGREE>(l0);
    let at_bound = F::from_u64(u64::try_from(bound).unwrap());
    let above_bound = F::from_u64(u64::try_from(bound + 1).unwrap());

    let (small, field_positions) = field_values_to_small_or_zero_with_bound::<i64, i128>(
        &[F::from_u64(7u64), at_bound, above_bound],
        bound,
    );

    assert_eq!(small, vec![7, i64::try_from(bound).unwrap(), 0]);
    assert_eq!(field_positions.into_iter().collect::<Vec<_>>(), vec![2]);
}

#[test]
fn test_extension_bounded_poly_new_rejects_above_bound() {
    const D: usize = 2;
    const LB: usize = 3;
    let bound = max_extension_input_abs::<i32, i64, D, LB>();
    let poly = MultilinearPolynomial::new(vec![(bound + 1) as i32]);

    assert!(matches!(
        ExtensionBoundedPoly::<i32, i64, D, LB>::new(poly),
        Err(SpartanError::SmallValueOverflow { .. })
    ));
}

#[test]
fn test_extension_bounded_poly_new_unchecked_skips_bound_check() {
    const D: usize = 2;
    const LB: usize = 3;
    let bound = max_extension_input_abs::<i32, i64, D, LB>();
    let poly = MultilinearPolynomial::new(vec![(bound + 1) as i32]);

    let bounded = ExtensionBoundedPoly::<i32, i64, D, LB>::new_unchecked(poly.clone());
    assert_eq!(bounded.as_poly().Z, poly.Z);
}

#[test]
fn test_try_new_with_field_positions_keeps_in_bound_values() {
    const D: usize = 2;
    const LB: usize = 1;
    let bound = max_extension_input_abs::<i32, i16, D, LB>() as i32;
    let poly = MultilinearPolynomial::new(vec![bound, -bound, 0, 1]);
    let (bounded, field_positions) =
        ExtensionBoundedPoly::<i32, i16, D, LB>::try_new_with_field_positions(&poly);

    assert!(field_positions.is_empty());
    assert_eq!(bounded.as_poly().Z, poly.Z);
}

#[test]
fn test_try_new_with_field_positions_zeroes_out_of_bound_values() {
    const D: usize = 2;
    const LB: usize = 1;
    let bound = max_extension_input_abs::<i32, i16, D, LB>() as i32;
    let poly = MultilinearPolynomial::new(vec![bound, bound + 1, -(bound + 1), 7]);
    let (bounded, field_positions) =
        ExtensionBoundedPoly::<i32, i16, D, LB>::try_new_with_field_positions(&poly);

    assert_eq!(field_positions.into_iter().collect::<Vec<_>>(), vec![1, 2]);
    assert_eq!(bounded.as_poly().Z, vec![bound, 0, 0, 7]);
    assert_eq!(poly.Z, vec![bound, bound + 1, -(bound + 1), 7]);
}

#[test]
fn test_from_field_values_with_product_bound_zeroes_out_of_bound_values() {
    const D: usize = 2;
    const LB: usize = 1;
    let bound = max_extension_input_abs::<i64, i128, D, LB>();
    let at_bound = F::from_u64(u64::try_from(bound).unwrap());
    let above_bound = F::from_u64(u64::try_from(bound + 1).unwrap());

    let (bounded, field_positions) =
        ExtensionBoundedPoly::<i64, i128, D, LB>::from_field_values_with_product_bound(&[
            F::from_u64(3u64),
            at_bound,
            above_bound,
            F::from_u64(5u64),
        ]);

    assert_eq!(field_positions.into_iter().collect::<Vec<_>>(), vec![2]);
    assert_eq!(bounded.as_poly().Z, vec![3, bound as i64, 0, 5]);
}

#[test]
fn test_extension_only_bound_is_weaker_than_product_bound() {
    const D: usize = 1;
    const LB: usize = 1;
    let product_bound = max_extension_input_abs::<i32, i16, D, LB>() as i32;
    let extension_only_bound = max_extension_fit_input_abs::<i32, i16, D, LB>() as i32;
    assert!(product_bound < extension_only_bound);

    let poly = MultilinearPolynomial::new(vec![product_bound + 1]);
    assert!(matches!(
        ExtensionBoundedPoly::<i32, i16, D, LB>::new(poly.clone()),
        Err(SpartanError::SmallValueOverflow { .. })
    ));
    assert!(ExtensionBoundedPoly::<i32, i16, D, LB>::new_extension_only(poly).is_ok());
}

#[test]
fn test_try_new_extension_only_with_field_positions_uses_extension_bound() {
    const D: usize = 1;
    const LB: usize = 1;
    let bound = max_extension_fit_input_abs::<i32, i16, D, LB>() as i32;
    let poly = MultilinearPolynomial::new(vec![bound, bound + 1]);
    let (bounded, field_positions) =
        ExtensionBoundedPoly::<i32, i16, D, LB>::try_new_extension_only_with_field_positions(&poly);

    assert_eq!(field_positions.into_iter().collect::<Vec<_>>(), vec![1]);
    assert_eq!(bounded.as_poly().Z, vec![bound, 0]);
}

#[test]
fn test_from_field_values_with_extension_bound_uses_extension_bound() {
    const D: usize = 1;
    const LB: usize = 1;
    let bound = max_extension_fit_input_abs::<i64, i128, D, LB>();
    let at_bound = F::from_u64(u64::try_from(bound).unwrap());
    let above_bound = F::from_u64(u64::try_from(bound + 1).unwrap());

    let (bounded, field_positions) =
        ExtensionBoundedPoly::<i64, i128, D, LB>::from_field_values_with_extension_bound(&[
            at_bound,
            above_bound,
        ]);

    assert_eq!(field_positions.into_iter().collect::<Vec<_>>(), vec![1]);
    assert_eq!(bounded.as_poly().Z, vec![bound as i64, 0]);
}

#[test]
fn test_extension_bound_uses_spartan_growth_i64() {
    const D: usize = 2;
    const LB: usize = 4;
    let bound = max_extension_input_abs::<i64, i128, D, LB>();
    let growth = checked_pow(extension_step_growth::<i128, D>().unwrap(), LB).unwrap();
    let limit = max_abs::<i64, i128>()
        .unwrap()
        .min(max_abs::<i128, i128>().unwrap().sqrt());

    assert_eq!(bound, limit / growth);
}

#[test]
fn test_runtime_extension_bound_matches_const_i64() {
    const D: usize = 2;
    const LB: usize = 4;

    assert_eq!(
        max_extension_input_abs_for_rounds::<i64, i128, D>(LB),
        max_extension_input_abs::<i64, i128, D, LB>()
    );
}

#[test]
fn test_extension_bound_accepts_exact_bound_i64() {
    const D: usize = 2;
    const LB: usize = 4;
    let bound = max_extension_input_abs::<i64, i128, D, LB>();
    let poly = MultilinearPolynomial::new(vec![bound as i64, -(bound as i64), 0, 1]);

    assert!(ExtensionBoundedPoly::<i64, i128, D, LB>::new(poly).is_ok());
}

#[test]
fn test_runtime_extension_bound_accepts_exact_bound_i64() {
    const D: usize = 2;
    const LB: usize = 4;
    let bound = max_extension_input_abs_for_rounds::<i64, i128, D>(LB);

    assert!(check_extension_bound_values_for_rounds::<i64, i128, D>(
        &[bound as i64, -(bound as i64), 0, 1],
        LB,
        "runtime values",
    )
    .is_ok());
}

#[test]
fn test_check_extension_bound_rejects_above_bound_i64() {
    const D: usize = 2;
    const LB: usize = 4;
    let bound = max_extension_input_abs::<i64, i128, D, LB>();
    let poly = MultilinearPolynomial::new(vec![(bound + 1) as i64]);

    assert!(matches!(
        check_extension_bound::<i64, i128, D, LB>(&poly),
        Err(SpartanError::SmallValueOverflow { .. })
    ));
}

#[test]
fn test_runtime_extension_bound_rejects_above_bound_i64() {
    const D: usize = 2;
    const LB: usize = 4;
    let bound = max_extension_input_abs_for_rounds::<i64, i128, D>(LB);

    assert!(matches!(
        check_extension_bound_values_for_rounds::<i64, i128, D>(
            &[(bound + 1) as i64],
            LB,
            "runtime values",
        ),
        Err(SpartanError::SmallValueOverflow { .. })
    ));
}

#[test]
fn test_check_extension_bound_rejects_i64_min_without_overflowing_abs() {
    let poly = MultilinearPolynomial::new(vec![i64::MIN]);

    assert!(matches!(
        check_extension_bound::<i64, i128, 2, 1>(&poly),
        Err(SpartanError::SmallValueOverflow { .. })
    ));
}
