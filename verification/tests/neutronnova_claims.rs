use vega_small_value::errors::SpartanError;
use vega_small_value::field::Scalar;
use vega_small_value::round_claims::{
    compute_ab_c_claim_round, compute_field_round_claim, prove_helper, prove_helper_ab_cross,
    prove_helper_ab_only, prove_helper_small,
};
use vega_small_value::small_c::{
    compute_field_c_claims, compute_small_c_claims_with_field_corrections,
    dot_field_layer_with_split_eq, fold_small_c_with_field_corrections,
};
use vega_small_value::small_neutronnova::fold_field_layers_with_weights;

fn f(v: u64) -> Scalar {
    Scalar::from_u64(v)
}

fn fs(vs: &[u64]) -> Vec<Scalar> {
    vs.iter().map(|&v| f(v)).collect()
}

fn reason(err: SpartanError) -> String {
    match err {
        SpartanError::InvalidInputLength { reason } => reason,
        SpartanError::SmallValueOverflow { context, .. } => context,
        SpartanError::DivisionByZero => String::from("division by zero"),
        SpartanError::InternalError { reason } => reason,
    }
}

/// `sum_i e_right[i] * sum_j e_left[j] * layer[i * left + j]`, written out.
fn dot_split(layer: &[Scalar], e: &[Scalar], left: usize, right: usize) -> Scalar {
    let mut acc = Scalar::zero();
    for i in 0..right {
        let mut inner = Scalar::zero();
        for j in 0..left {
            inner = inner.add(&e[j].mul(&layer[i * left + j]));
        }
        acc = acc.add(&e[left + i].mul(&inner));
    }
    acc
}

#[test]
fn test_regular_round0_small_helper_matches_field_claim() {
    let left = 2;
    let right = 2;
    let e = fs(&[2, 3, 5, 7]);
    let rhos = fs(&[11]);
    let az = vec![fs(&[1, 2, 3, 4]), fs(&[2, 4, 6, 8])];
    let bz = vec![fs(&[5, 6, 7, 8]), fs(&[3, 6, 9, 12])];
    let cz = vec![vec![Scalar::zero(); left * right]; 2];

    let (_field_e0, field_quad) =
        compute_field_round_claim(&az, &bz, &cz, &e, left, right, &rhos, 0).unwrap();

    let mut az_small: Vec<Vec<i64>> = vec![vec![1, 2, 3, 4], vec![2, 4, 6, 8]];
    let mut bz_small: Vec<Vec<i64>> = vec![vec![5, 6, 7, 8], vec![3, 6, 9, 12]];
    let large_positions = vec![2usize];
    for layer in az_small.iter_mut().chain(bz_small.iter_mut()) {
        layer[2] = 0;
    }

    let small_quad = prove_helper_small(
        left,
        right,
        &e,
        &az[0],
        &bz[0],
        &az[1],
        &bz[1],
        &az_small[0],
        &bz_small[0],
        &az_small[1],
        &bz_small[1],
        &large_positions,
    );

    assert_eq!(field_quad, small_quad);
}

#[test]
fn test_regular_small_c_claims_match_field_with_large_correction() {
    let left = 2;
    let right = 2;
    let e = fs(&[2, 3, 5, 7]);
    let c_field = vec![fs(&[1, 2, 30, 4]), fs(&[5, 6, 70, 8])];
    let mut c_small: Vec<Vec<i64>> = vec![vec![1, 2, 30, 4], vec![5, 6, 70, 8]];
    let large_positions = vec![2usize];
    for layer in &mut c_small {
        layer[2] = 0;
    }

    let field_claims = compute_field_c_claims(&c_field, &e, left, right).unwrap();
    let small_claims = compute_small_c_claims_with_field_corrections(
        &c_small,
        &c_field,
        &large_positions,
        &e,
        left,
        right,
    )
    .unwrap();

    assert_eq!(field_claims, small_claims);
}

#[test]
fn test_regular_final_small_c_fold_matches_field_with_large_correction() {
    let c_field = vec![fs(&[1, 20, 3]), fs(&[4, 50, 6]), fs(&[7, 80, 9])];
    let mut c_small: Vec<Vec<i64>> = vec![vec![1, 20, 3], vec![4, 50, 6], vec![7, 80, 9]];
    let large_positions = vec![1usize];
    for layer in &mut c_small {
        layer[1] = 0;
    }
    let weights = fs(&[2, 3, 5]);

    let field_fold = fold_field_layers_with_weights(&c_field, &weights).unwrap();
    let small_fold =
        fold_small_c_with_field_corrections(&c_small, &c_field, &large_positions, &weights)
            .unwrap();

    assert_eq!(field_fold, small_fold);
}

#[test]
fn split_eq_dot_of_small_layer_has_exact_value() {
    // e_left = [2, 3], e_right = [5, 7]; layer rows [1, 2] and [3, 4]:
    // 5 * (2 * 1 + 3 * 2) + 7 * (2 * 3 + 3 * 4) = 40 + 126 = 166.
    let e = fs(&[2, 3, 5, 7]);
    let layer = fs(&[1, 2, 3, 4]);
    let v = dot_field_layer_with_split_eq(&layer, &e, 2, 2).unwrap();
    assert_eq!(v, f(166));
}

#[test]
fn split_eq_dot_rejects_wrong_lengths() {
    let e = fs(&[2, 3, 5]);
    let layer = fs(&[1, 2, 3, 4]);
    let err = dot_field_layer_with_split_eq(&layer, &e, 2, 2).unwrap_err();
    assert_eq!(reason(err), "split equality table has wrong length");
    let e = fs(&[2, 3, 5, 7]);
    let err = dot_field_layer_with_split_eq(&layer[..3], &e, 2, 2).unwrap_err();
    assert_eq!(reason(err), "field layer has wrong length");
}

#[test]
fn small_c_claims_report_each_error() {
    let e = fs(&[2, 3, 5, 7]);
    let c_field = vec![fs(&[1, 2, 3, 4])];
    let err = compute_small_c_claims_with_field_corrections(&[], &c_field, &[], &e, 2, 2)
        .unwrap_err();
    assert_eq!(reason(err), "cannot compute C claims for empty layer list");
    let err = compute_small_c_claims_with_field_corrections(
        &[vec![1, 2, 3, 4], vec![1, 2, 3, 4]],
        &c_field,
        &[],
        &e,
        2,
        2,
    )
    .unwrap_err();
    assert_eq!(reason(err), "small C and field C layer counts do not match");
    let err = compute_small_c_claims_with_field_corrections(
        &[vec![1, 2, 3, 4]],
        &c_field,
        &[],
        &e[..3],
        2,
        2,
    )
    .unwrap_err();
    assert_eq!(reason(err), "E_eq length 3 does not match left + right 4");
    let err = compute_small_c_claims_with_field_corrections(
        &[vec![1, 2, 3]],
        &c_field,
        &[],
        &e,
        2,
        2,
    )
    .unwrap_err();
    assert_eq!(reason(err), "all small C layers must have length 4");
    let err = compute_small_c_claims_with_field_corrections(
        &[vec![1, 2, 3, 4]],
        &[fs(&[1, 2])],
        &[],
        &e,
        2,
        2,
    )
    .unwrap_err();
    assert_eq!(reason(err), "all field C layers must have length 4");
    let err = compute_small_c_claims_with_field_corrections(
        &[vec![1]],
        &[fs(&[1])],
        &[],
        &e,
        usize::MAX,
        2,
    )
    .unwrap_err();
    assert_eq!(reason(err), "left * right overflows");
}

#[test]
fn small_c_fold_report_each_error() {
    let weights = fs(&[2, 3]);
    let err = fold_small_c_with_field_corrections(&[], &[], &[], &weights).unwrap_err();
    assert_eq!(reason(err), "cannot fold empty small C layer list");
    let err = fold_small_c_with_field_corrections(&[vec![1]], &[fs(&[1])], &[], &weights)
        .unwrap_err();
    assert_eq!(reason(err), "small C, field C, and weight counts do not match");
    let err = fold_small_c_with_field_corrections(
        &[vec![1, 2], vec![1]],
        &[fs(&[1, 2]), fs(&[1, 2])],
        &[],
        &weights,
    )
    .unwrap_err();
    assert_eq!(reason(err), "all small C layers must have length 2");
    let err = fold_small_c_with_field_corrections(
        &[vec![1, 2], vec![1, 2]],
        &[fs(&[1, 2]), fs(&[1])],
        &[],
        &weights,
    )
    .unwrap_err();
    assert_eq!(reason(err), "all field C layers must have length 2");
}

#[test]
fn prove_helper_matches_direct_sums() {
    let left = 2;
    let right = 2;
    let e = fs(&[2, 3, 5, 7]);
    let a1 = fs(&[1, 2, 3, 4]);
    let b1 = fs(&[5, 6, 7, 8]);
    let c1 = fs(&[5, 12, 21, 30]);
    let a2 = fs(&[2, 4, 6, 8]);
    let b2 = fs(&[3, 6, 9, 12]);
    let (e0, quad) = prove_helper(1, left, right, &e, &a1, &b1, &c1, &a2, &b2);
    let resid: Vec<Scalar> = (0..4).map(|k| a1[k].mul(&b1[k]).sub(&c1[k])).collect();
    let diff: Vec<Scalar> = (0..4)
        .map(|k| a2[k].sub(&a1[k]).mul(&b2[k].sub(&b1[k])))
        .collect();
    assert_eq!(e0, dot_split(&resid, &e, left, right));
    assert_eq!(quad, dot_split(&diff, &e, left, right));
    // Position 3: 4 * 8 - 30 = 2, weight 3 * 7 = 21, so e0 = 42.
    assert_eq!(e0, f(42));
    let (e0_round0, quad0) = prove_helper(0, left, right, &e, &a1, &b1, &c1, &a2, &b2);
    assert_eq!(e0_round0, Scalar::zero());
    assert_eq!(quad0, quad);
}

#[test]
fn prove_helper_ab_only_matches_direct_sums() {
    let left = 2;
    let right = 2;
    let e = fs(&[2, 3, 5, 7]);
    let a1 = fs(&[1, 2, 3, 4]);
    let b1 = fs(&[5, 6, 7, 8]);
    let a2 = fs(&[2, 4, 6, 8]);
    let b2 = fs(&[3, 6, 9, 12]);
    let (e0_ab, quad) = prove_helper_ab_only(left, right, &e, &a1, &b1, &a2, &b2);
    let prod: Vec<Scalar> = (0..4).map(|k| a1[k].mul(&b1[k])).collect();
    let diff: Vec<Scalar> = (0..4)
        .map(|k| a2[k].sub(&a1[k]).mul(&b2[k].sub(&b1[k])))
        .collect();
    assert_eq!(e0_ab, dot_split(&prod, &e, left, right));
    assert_eq!(quad, dot_split(&diff, &e, left, right));
}

#[test]
fn ab_cross_matches_folded_field_layers() {
    let left = 2;
    let right = 2;
    let e = fs(&[2, 3, 5, 7]);
    let r0 = f(9);
    let one_minus = Scalar::one().sub(&r0);
    let a_small: Vec<Vec<i64>> = vec![
        vec![1, -2, 3, 0],
        vec![4, 5, -6, 0],
        vec![-7, 8, 9, 0],
        vec![10, -11, 12, 0],
    ];
    let b_small: Vec<Vec<i64>> = vec![
        vec![2, 3, -4, 0],
        vec![-5, 6, 7, 0],
        vec![8, -9, 10, 0],
        vec![11, 12, -13, 0],
    ];
    let to_field = |v: i64| {
        if v < 0 {
            Scalar::zero().sub(&f((-v) as u64))
        } else {
            f(v as u64)
        }
    };
    // Position 3 is large: its field values are not represented above.
    let mut a_field: Vec<Vec<Scalar>> = a_small
        .iter()
        .map(|l| l.iter().map(|&v| to_field(v)).collect())
        .collect();
    let mut b_field: Vec<Vec<Scalar>> = b_small
        .iter()
        .map(|l| l.iter().map(|&v| to_field(v)).collect())
        .collect();
    for (t, layer) in a_field.iter_mut().enumerate() {
        layer[3] = f(1000 + t as u64);
    }
    for (t, layer) in b_field.iter_mut().enumerate() {
        layer[3] = f(2000 + t as u64);
    }
    let c00 = one_minus.mul(&one_minus);
    let c01 = one_minus.mul(&r0);
    let c11 = r0.mul(&r0);
    let (e0, quad) = prove_helper_ab_cross(
        left,
        right,
        &e,
        [&a_small[0], &a_small[1], &a_small[2], &a_small[3]],
        [&b_small[0], &b_small[1], &b_small[2], &b_small[3]],
        [&a_field[0], &a_field[1], &a_field[2], &a_field[3]],
        [&b_field[0], &b_field[1], &b_field[2], &b_field[3]],
        &c00,
        &c01,
        &c11,
        &r0,
        &[3],
    );
    let fold = |lo: &Vec<Scalar>, hi: &Vec<Scalar>| -> Vec<Scalar> {
        (0..4)
            .map(|k| one_minus.mul(&lo[k]).add(&r0.mul(&hi[k])))
            .collect()
    };
    let a_lo = fold(&a_field[0], &a_field[1]);
    let a_hi = fold(&a_field[2], &a_field[3]);
    let b_lo = fold(&b_field[0], &b_field[1]);
    let b_hi = fold(&b_field[2], &b_field[3]);
    let (e0_field, quad_field) = prove_helper_ab_only(left, right, &e, &a_lo, &b_lo, &a_hi, &b_hi);
    assert_eq!(e0, e0_field);
    assert_eq!(quad, quad_field);
}

#[test]
fn ab_c_claim_round_subtracts_c_claims() {
    let left = 2;
    let right = 2;
    let e = fs(&[2, 3, 5, 7]);
    let rhos = fs(&[11]);
    let a = vec![fs(&[1, 2, 3, 4]), fs(&[2, 4, 6, 8])];
    let b = vec![fs(&[5, 6, 7, 8]), fs(&[3, 6, 9, 12])];
    let c_layers = vec![fs(&[5, 12, 21, 30]), fs(&[6, 24, 54, 96])];
    let c_claims: Vec<Scalar> = c_layers
        .iter()
        .map(|l| dot_split(l, &e, left, right))
        .collect();
    let (e0_mat, quad_mat) =
        compute_field_round_claim(&a, &b, &c_layers, &e, left, right, &rhos, 0).unwrap();
    let (e0_claims, quad_claims) =
        compute_ab_c_claim_round(&a, &b, &c_claims, &e, left, right, &rhos, 0).unwrap();
    assert_eq!(quad_mat, quad_claims);
    // Round 0 leaves the materialized e0 at zero; the claim path computes
    // the A*B - C sum, which is 2 at position 3 weighted by 21.
    assert_eq!(e0_mat, Scalar::zero());
    assert_eq!(e0_claims, f(42));
}

#[test]
fn claim_round_matches_materialized_round_after_round_zero() {
    let left = 2;
    let right = 2;
    let e = fs(&[2, 3, 5, 7]);
    let rhos = fs(&[11, 13]);
    let a = vec![
        fs(&[1, 2, 3, 4]),
        fs(&[2, 4, 6, 8]),
        fs(&[9, 1, 1, 2]),
        fs(&[0, 3, 5, 1]),
    ];
    let b = vec![
        fs(&[5, 6, 7, 8]),
        fs(&[3, 6, 9, 12]),
        fs(&[1, 1, 4, 2]),
        fs(&[7, 0, 2, 2]),
    ];
    // C differs from A * B, so the residual is not zero.
    let c_layers = vec![
        fs(&[5, 12, 21, 30]),
        fs(&[6, 24, 54, 96]),
        fs(&[9, 2, 4, 5]),
        fs(&[1, 0, 10, 2]),
    ];
    let c_claims: Vec<Scalar> = c_layers
        .iter()
        .map(|l| dot_split(l, &e, left, right))
        .collect();
    let materialized =
        compute_field_round_claim(&a, &b, &c_layers, &e, left, right, &rhos, 1).unwrap();
    let claims = compute_ab_c_claim_round(&a, &b, &c_claims, &e, left, right, &rhos, 1).unwrap();
    assert_eq!(materialized, claims);
    assert_ne!(materialized.0, Scalar::zero());
}

#[test]
fn field_round_claim_rejects_odd_layer_counts() {
    let e = fs(&[2, 3, 5, 7]);
    let rhos = fs(&[11]);
    let a = vec![fs(&[1, 2, 3, 4])];
    let r = compute_field_round_claim(&a, &a, &a, &e, 2, 2, &rhos, 0);
    assert_eq!(reason(r.unwrap_err()), "round claim layer count must be non-empty and even");
    let r = compute_field_round_claim(&[a[0].clone(), a[0].clone()], &a, &a, &e, 2, 2, &rhos, 0);
    assert_eq!(reason(r.unwrap_err()), "A/B/C layer counts do not match");
}

#[test]
fn round_claims_report_the_first_failed_check() {
    let e = fs(&[2, 3, 5, 7]);
    let rhos = fs(&[11]);
    let a = vec![fs(&[1, 2, 3, 4]), fs(&[5, 6, 7, 8])];
    let short = vec![fs(&[1, 2, 3, 4]), fs(&[5, 6, 7])];
    let claims = fs(&[1, 2]);

    let r = compute_field_round_claim(&a, &a, &a, &e, 2, 2, &rhos, 1);
    assert_eq!(reason(r.unwrap_err()), "round 1 is out of range for 1 rho challenges");
    let r = compute_field_round_claim(&a, &a, &a, &e[..3], 2, 2, &rhos, 0);
    assert_eq!(reason(r.unwrap_err()), "E_eq length 3 does not match left + right 4");
    let r = compute_field_round_claim(&a, &a, &short, &e, 2, 2, &rhos, 0);
    assert_eq!(reason(r.unwrap_err()), "all C layers must have length 4");
    let r = compute_field_round_claim(&a, &short, &short, &e, 2, 2, &rhos, 0);
    assert_eq!(reason(r.unwrap_err()), "all B layers must have length 4");

    let r = compute_ab_c_claim_round(&a, &a, &claims[..1], &e, 2, 2, &rhos, 0);
    assert_eq!(reason(r.unwrap_err()), "A/B layer and C-claim counts do not match");
    let r = compute_ab_c_claim_round(&a[..1], &a[..1], &claims[..1], &e, 2, 2, &rhos, 0);
    assert_eq!(reason(r.unwrap_err()), "suffix layer count must be non-empty and even");
    let r = compute_ab_c_claim_round(&short, &a, &claims, &e, 2, 2, &rhos, 0);
    assert_eq!(reason(r.unwrap_err()), "all A layers must have length 4");
    let r = compute_ab_c_claim_round(&a, &a, &claims, &e, usize::MAX, 2, &rhos, 0);
    assert_eq!(reason(r.unwrap_err()), "left * right overflows");
}
