use vega_small_value::extension_bound::{
    max_extension_fit_input_abs_for_rounds, max_extension_input_abs, max_extension_input_abs_for_rounds,
    ExtensionBoundedPoly,
};
use vega_small_value::multilinear::MultilinearPolynomial;
use vega_small_value::field::Scalar;
use vega_small_value::neutronnova_zk::fold_layer_pair_into;
use vega_small_value::small_int::SmallValue;
use vega_small_value::small_value::{
    i128_to_field, i32_to_field, i64_to_field, to_small_vec_or_zero, try_field_to_i128,
    try_field_to_i32, try_field_to_i64,
};

#[test]
fn small_values_survive_the_trip_through_the_field() {
    for x in [0i64, 1, -1, 42, -42, i64::MAX, i64::MIN] {
        assert_eq!(try_field_to_i64(&i64_to_field(x)), Some(x));
        assert_eq!(<i64 as SmallValue>::try_field_to_small(&x.small_to_field()), Some(x));
    }
    for x in [0i32, 7, -7, i32::MAX, i32::MIN] {
        assert_eq!(try_field_to_i32(&i32_to_field(x)), Some(x));
        assert_eq!(<i32 as SmallValue>::try_field_to_small(&x.small_to_field()), Some(x));
    }
    for x in [0i128, -5, i128::MAX, i128::MIN] {
        assert_eq!(try_field_to_i128(&i128_to_field(x)), Some(x));
    }
    // A value just outside the i64 range does not read as an i64.
    assert_eq!(try_field_to_i64(&i128_to_field(i64::MAX as i128 + 1)), None);
}

#[test]
fn extension_step_stays_within_growth() {
    // D = 3: H = max(2, 2 * 3 - 3) = 3.
    let h = 3i64;
    let bound = 10i64;
    for a in [-10i64, -3, 0, 4, 10] {
        for b in [-10i64, -1, 0, 7, 10] {
            for t in 0..3i64 {
                let p = (1 - t) * a + t * b;
                assert!(p.abs() <= h * bound);
            }
            assert!((b - a).abs() <= h * bound);
        }
    }
}

#[test]
fn product_bound_keeps_extended_products_in_range() {
    for rounds in 0..4usize {
        let bound = max_extension_input_abs_for_rounds::<i64, i128, 2>(rounds);
        let growth = 2i128.pow(rounds as u32);
        let extended = bound * growth;
        assert!(extended <= i64::MAX as i128);
        assert!(extended.checked_mul(extended).is_some());
    }
}

#[test]
fn folding_at_zero_and_one_picks_the_endpoints() {
    let lo = vec![Scalar::from_u64(3), Scalar::from_u64(8)];
    let hi = vec![Scalar::from_u64(5), Scalar::from_u64(1)];
    let mut layers = vec![lo.clone(), hi.clone()];
    fold_layer_pair_into(&mut layers, 0, 1, 0, Scalar::zero());
    assert_eq!(layers[0], lo);
    let mut layers = vec![lo.clone(), hi.clone()];
    fold_layer_pair_into(&mut layers, 0, 1, 0, Scalar::one());
    assert_eq!(layers[0], hi);
}

#[test]
fn small_layer_cache_marks_values_beyond_the_small_range() {
    let big = Scalar::from_u64(1 << 62);
    let layer = vec![Scalar::from_u64(5), big, Scalar::zero().sub(&Scalar::from_u64(9))];
    let (small, large) = to_small_vec_or_zero(&layer);
    assert_eq!(small, vec![5, 0, -9]);
    assert_eq!(large, vec![1]);
}

#[test]
fn input_bounds_never_grow_with_more_rounds() {
    let mut prev_product = max_extension_input_abs_for_rounds::<i32, i64, 3>(0);
    let mut prev_fit = max_extension_fit_input_abs_for_rounds::<i32, i64, 3>(0);
    assert_eq!(prev_product, i32::MAX as i64);
    for rounds in 1..70 {
        let product = max_extension_input_abs_for_rounds::<i32, i64, 3>(rounds);
        let fit = max_extension_fit_input_abs_for_rounds::<i32, i64, 3>(rounds);
        assert!(0 <= product && product <= prev_product);
        assert!(0 <= fit && fit <= prev_fit);
        prev_product = product;
        prev_fit = fit;
    }
    // The growth factor 3^40 exceeds every i32 value, so the bound is 0.
    assert_eq!(max_extension_input_abs_for_rounds::<i32, i64, 3>(40), 0);
}

#[test]
fn owned_and_borrowed_certificates_agree() {
    const D: usize = 2;
    const LB: usize = 1;
    let bound = max_extension_input_abs::<i32, i64, D, LB>() as i32;
    let poly = MultilinearPolynomial::new(vec![bound + 1, 2, -(bound + 1), bound]);
    let (borrowed, borrowed_positions) =
        ExtensionBoundedPoly::<i32, i64, D, LB>::try_new_with_field_positions(&poly);
    let (owned, owned_positions) =
        ExtensionBoundedPoly::<i32, i64, D, LB>::try_new_owned_with_field_positions(poly.duplicate());
    assert_eq!(borrowed.as_poly().Z, owned.as_poly().Z);
    assert_eq!(borrowed_positions, owned_positions);
    assert_eq!(owned_positions.into_iter().collect::<Vec<_>>(), vec![0, 2]);
    assert_eq!(owned.as_poly().Z, vec![0, 2, 0, bound]);
}
