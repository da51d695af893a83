use vega_small_value::errors::SpartanError;
use vega_small_value::field::Scalar;
use vega_small_value::neutronnova_zk::fold_c_claim_pair_into;
use vega_small_value::neutronnova_zk::fold_layer_pair_into;
use vega_small_value::small_c::dot_field_layer_with_split_eq;
use vega_small_value::small_neutronnova::{
    apply_large_final_corrections, fold_field_layers_with_weights, fold_final_abc_with_weights,
    fold_small_final_abc_with_weights,
    materialize_prefix_abc_with_c_claims, validate_layer_arrays, PrefixAbcWithCClaims,
};

fn f(v: u64) -> Scalar {
    Scalar::from_u64(v)
}

fn fi(v: i64) -> Scalar {
    if v < 0 {
        Scalar::zero().sub(&f((-v) as u64))
    } else {
        f(v as u64)
    }
}

fn reason(err: SpartanError) -> String {
    match err {
        SpartanError::InvalidInputLength { reason } => reason,
        SpartanError::SmallValueOverflow { context, .. } => context,
        SpartanError::DivisionByZero => String::from("division by zero"),
        SpartanError::InternalError { reason } => reason,
    }
}

/// Small `A/B/C` layers with `C = A * B`.
fn synthetic_small_abc(num_instances: usize, num_constraints: usize) -> (Vec<Vec<i32>>, Vec<Vec<i32>>, Vec<Vec<i32>>) {
    let mut a = Vec::new();
    let mut b = Vec::new();
    let mut c = Vec::new();
    for instance in 0..num_instances {
        let mut av = Vec::new();
        let mut bv = Vec::new();
        let mut cv = Vec::new();
        for k in 0..num_constraints {
            let x = ((13 * instance as i64 + 5 * k as i64 + 7) % 23) - 11;
            let y = ((17 * instance as i64 + 3 * k as i64 + 2) % 29) - 14;
            av.push(x as i32);
            bv.push(y as i32);
            cv.push((x * y) as i32);
        }
        a.push(av);
        b.push(bv);
        c.push(cv);
    }
    (a, b, c)
}

fn to_field(layers: &[Vec<i32>]) -> Vec<Vec<Scalar>> {
    layers
        .iter()
        .map(|l| l.iter().map(|&v| fi(v as i64)).collect())
        .collect()
}

fn refs<T>(layers: &[Vec<T>]) -> Vec<&[T]> {
    layers.iter().map(|l| l.as_slice()).collect()
}

#[test]
fn test_prefix_c_claims_match_materialized_c_dot_e() {
    let num_instances = 8usize;
    let left = 4;
    let right = 2;
    let (a, b, c) = synthetic_small_abc(num_instances, left * right);
    let (af, bf, cf) = (to_field(&a), to_field(&b), to_field(&c));
    let e_eq: Vec<Scalar> = (0..left + right).map(|i| f(i as u64 + 3)).collect();
    let prefix_weights = vec![f(2), f(3), f(5), f(7)];
    let prefix = materialize_prefix_abc_with_c_claims::<i32>(
        &refs(&a),
        &refs(&b),
        &refs(&c),
        &refs(&af),
        &refs(&bf),
        &refs(&cf),
        &[],
        &[],
        &prefix_weights,
        4,
        &e_eq,
        left,
        right,
    )
    .expect("prefix materialization should succeed");
    assert_eq!(prefix.c_claims.len(), prefix.c_layers.len());
    assert_eq!(prefix.c_layers.len(), 2);
    for (claim, c_layer) in prefix.c_claims.iter().zip(prefix.c_layers.iter()) {
        assert_eq!(*claim, dot_field_layer_with_split_eq(c_layer, &e_eq, left, right).unwrap());
    }
}

#[test]
fn test_c_claim_folding_matches_materialized_c_folding() {
    let num_instances = 8usize;
    let left = 4;
    let right = 2;
    let (a, b, c) = synthetic_small_abc(num_instances, left * right);
    let (af, bf, cf) = (to_field(&a), to_field(&b), to_field(&c));
    let e_eq: Vec<Scalar> = (0..left + right).map(|i| f(i as u64 + 13)).collect();
    let prefix_weights = vec![f(7), f(11)];
    let PrefixAbcWithCClaims {
        a_layers,
        b_layers,
        c_layers: mut c_materialized,
        mut c_claims,
    } = materialize_prefix_abc_with_c_claims::<i32>(
        &refs(&a),
        &refs(&b),
        &refs(&c),
        &refs(&af),
        &refs(&bf),
        &refs(&cf),
        &[],
        &[],
        &prefix_weights,
        2,
        &e_eq,
        left,
        right,
    )
    .unwrap();
    assert_eq!(a_layers.len(), c_claims.len());
    assert_eq!(b_layers.len(), c_claims.len());
    for r in [f(11), f(13)] {
        let pairs = c_claims.len() / 2;
        for i in 0..pairs {
            fold_layer_pair_into(&mut c_materialized, 2 * i, 2 * i + 1, i, r);
            fold_c_claim_pair_into(&mut c_claims, 2 * i, 2 * i + 1, i, r);
        }
        c_materialized.truncate(pairs);
        c_claims.truncate(pairs);
        for (claim, c_layer) in c_claims.iter().zip(c_materialized.iter()) {
            assert_eq!(*claim, dot_field_layer_with_split_eq(c_layer, &e_eq, left, right).unwrap());
        }
    }
}

#[test]
fn prefix_materialization_corrects_listed_positions() {
    let num_instances = 4usize;
    let left = 2;
    let right = 2;
    let (a, b, mut c) = synthetic_small_abc(num_instances, left * right);
    let (af, bf, mut cf) = (to_field(&a), to_field(&b), to_field(&c));
    // Position 3 of every C layer holds a value the small layers cannot.
    for (i, layer) in cf.iter_mut().enumerate() {
        layer[3] = f(1 << 40).mul(&f(1 << 40)).add(&f(i as u64));
    }
    for layer in c.iter_mut() {
        layer[3] = 0;
    }
    let e_eq = vec![f(2), f(3), f(5), f(7)];
    let weights = vec![f(4), f(9)];
    let prefix = materialize_prefix_abc_with_c_claims::<i32>(
        &refs(&a),
        &refs(&b),
        &refs(&c),
        &refs(&af),
        &refs(&bf),
        &refs(&cf),
        &[],
        &[3],
        &weights,
        2,
        &e_eq,
        left,
        right,
    )
    .unwrap();
    for (g, c_layer) in prefix.c_layers.iter().enumerate() {
        for k in 0..4 {
            let expected = weights[0].mul(&cf[2 * g][k]).add(&weights[1].mul(&cf[2 * g + 1][k]));
            assert_eq!(c_layer[k], expected);
        }
        assert_eq!(
            prefix.c_claims[g],
            dot_field_layer_with_split_eq(c_layer, &e_eq, left, right).unwrap()
        );
    }
}

#[test]
fn prefix_materialization_reports_errors() {
    let (a, b, c) = synthetic_small_abc(4, 4);
    let (af, bf, cf) = (to_field(&a), to_field(&b), to_field(&c));
    let e_eq = vec![f(2), f(3), f(5), f(7)];
    let w = vec![f(1), f(1)];
    let run = |ps: usize, w: &[Scalar], e: &[Scalar], left: usize, right: usize| {
        materialize_prefix_abc_with_c_claims::<i32>(
            &refs(&a),
            &refs(&b),
            &refs(&c),
            &refs(&af),
            &refs(&bf),
            &refs(&cf),
            &[],
            &[],
            w,
            ps,
            e,
            left,
            right,
        )
    };
    assert_eq!(reason(run(3, &w, &e_eq, 2, 2).unwrap_err()), "invalid small prefix group size");
    assert_eq!(
        reason(run(2, &w[..1], &e_eq, 2, 2).unwrap_err()),
        "prefix weight length 1 does not match prefix size 2"
    );
    assert_eq!(
        reason(run(2, &w, &e_eq, 0, 2).unwrap_err()),
        "prefix materialization requires non-empty tensor factors"
    );
    assert_eq!(
        reason(run(2, &w, &e_eq, 4, 2).unwrap_err()),
        "prefix layer length 4 does not match left * right 8"
    );
    assert_eq!(
        reason(run(2, &w, &e_eq[..3], 2, 2).unwrap_err()),
        "e_eq length 3 does not match left + right 4"
    );
    let empty: Vec<&[i32]> = Vec::new();
    let err = materialize_prefix_abc_with_c_claims::<i32>(
        &empty, &empty, &empty, &[], &[], &[], &[], &[], &w, 2, &e_eq, 2, 2,
    )
    .unwrap_err();
    assert_eq!(reason(err), "cannot materialize empty prefix layer list");
}

#[test]
fn final_fold_corrects_large_positions() {
    let (a, b, mut c) = synthetic_small_abc(3, 3);
    let (af, bf, mut cf) = (to_field(&a), to_field(&b), to_field(&c));
    for (i, layer) in cf.iter_mut().enumerate() {
        layer[1] = f(1 << 50).add(&f(i as u64));
    }
    for layer in c.iter_mut() {
        layer[1] = 0;
    }
    let weights = vec![f(2), f(3), f(5)];
    let (a_fin, b_fin, c_fin) = fold_final_abc_with_weights::<i32>(
        &refs(&a),
        &refs(&b),
        &refs(&c),
        &refs(&af),
        &refs(&bf),
        &refs(&cf),
        &[],
        &[1],
        &weights,
    )
    .unwrap();
    for k in 0..3 {
        let fold = |layers: &Vec<Vec<Scalar>>| {
            weights[0]
                .mul(&layers[0][k])
                .add(&weights[1].mul(&layers[1][k]))
                .add(&weights[2].mul(&layers[2][k]))
        };
        assert_eq!(a_fin[k], fold(&af));
        assert_eq!(b_fin[k], fold(&bf));
        assert_eq!(c_fin[k], fold(&cf));
    }
    let err = fold_small_final_abc_with_weights::<i32>(&refs(&a), &refs(&b), &refs(&c), &weights[..2])
        .unwrap_err();
    assert_eq!(reason(err), "weight length 2 does not match layer count 3");
}

#[test]
fn final_corrections_only_touch_listed_positions() {
    let mut a = vec![f(1), f(2), f(3)];
    let mut b = vec![f(4), f(5), f(6)];
    let mut c = vec![f(7), f(8), f(9)];
    let field_a = vec![f(10), f(20), f(30)];
    let field_b = vec![f(40), f(50), f(60)];
    let field_c = vec![f(70), f(80), f(90)];
    let weights = vec![f(2)];
    apply_large_final_corrections(
        &mut a,
        &mut b,
        &mut c,
        &[field_a.as_slice()],
        &[field_b.as_slice()],
        &[field_c.as_slice()],
        &[0, 5],
        &[2],
        &weights,
    );
    assert_eq!(a, vec![f(20), f(2), f(3)]);
    assert_eq!(b, vec![f(80), f(5), f(6)]);
    assert_eq!(c, vec![f(7), f(8), f(180)]);
}

#[test]
fn layer_arrays_report_each_check() {
    let small: Vec<Vec<i32>> = vec![vec![0; 4]; 2];
    let field: Vec<Vec<Scalar>> = vec![vec![Scalar::zero(); 4]; 2];
    let e = vec![f(1); 4];
    let rhos = vec![f(3)];
    let s = refs(&small);
    let fl = refs(&field);
    assert_eq!(
        validate_layer_arrays::<i32>(&s, &s, &s, &fl, &fl, &fl, &[1], &[2], &e, 2, 2, &rhos, 1)
            .unwrap(),
        2
    );
    let run = |ab: &[usize], c: &[usize], e: &[Scalar], l0: usize, rhos: &[Scalar]| {
        validate_layer_arrays::<i32>(&s, &s, &s, &fl, &fl, &fl, ab, c, e, 2, 2, rhos, l0)
    };
    assert_eq!(reason(run(&[], &[], &e, 0, &rhos).unwrap_err()), "small NeutronNova NIFS requires l0 > 0");
    assert_eq!(
        reason(run(&[], &[], &e, 2, &rhos).unwrap_err()),
        "small NeutronNova l0 2 exceeds ell_b 1"
    );
    assert_eq!(
        reason(run(&[], &[], &e, 1, &[f(1), f(2)]).unwrap_err()),
        "layer count 2 does not match padded count 4"
    );
    assert_eq!(
        reason(run(&[2, 1], &[], &e, 1, &rhos).unwrap_err()),
        "A/B large positions must be sorted and unique"
    );
    assert_eq!(
        reason(run(&[], &[4], &e, 1, &rhos).unwrap_err()),
        "C large positions contains out-of-range position 4 for layer length 4"
    );
    assert_eq!(
        reason(run(&[], &[], &e[..3], 1, &rhos).unwrap_err()),
        "e_eq length 3 does not match left + right 4"
    );
    let empty: Vec<&[i32]> = Vec::new();
    let err = validate_layer_arrays::<i32>(&empty, &s, &s, &fl, &fl, &fl, &[], &[], &e, 2, 2, &rhos, 1)
        .unwrap_err();
    assert_eq!(reason(err), "small NeutronNova NIFS requires at least one layer");
    let err = validate_layer_arrays::<i32>(&s, &s[..1], &s, &fl, &fl, &fl, &[], &[], &e, 2, 2, &rhos, 1)
        .unwrap_err();
    assert_eq!(reason(err), "A/B/C layer counts must match");
    let short: Vec<Vec<Scalar>> = vec![vec![Scalar::zero(); 3]; 2];
    let sh = refs(&short);
    let err = validate_layer_arrays::<i32>(&s, &s, &s, &sh, &fl, &fl, &[1], &[], &e, 2, 2, &rhos, 1)
        .unwrap_err();
    assert_eq!(reason(err), "all A/B field correction layers must have length left * right 4");
    // Short field layers are accepted when no position needs them.
    assert!(validate_layer_arrays::<i32>(&s, &s, &s, &sh, &sh, &sh, &[], &[], &e, 2, 2, &rhos, 1).is_ok());
    let short_small: Vec<Vec<i32>> = vec![vec![0; 3]; 2];
    let ss = refs(&short_small);
    let err = validate_layer_arrays::<i32>(&ss, &s, &s, &fl, &fl, &fl, &[], &[], &e, 2, 2, &rhos, 1)
        .unwrap_err();
    assert_eq!(reason(err), "all small layers must have length left * right 4");
}

#[test]
fn prefix_then_suffix_fold_equals_final_fold() {
    let num_instances = 8usize;
    let left = 4;
    let right = 2;
    let (a, b, mut c) = synthetic_small_abc(num_instances, left * right);
    let (af, bf, mut cf) = (to_field(&a), to_field(&b), to_field(&c));
    // Position 3 of C is large: its small entries are zero and the field
    // entries are far outside every small range.
    let big = f(1 << 40).mul(&f(1 << 40)).mul(&f(1 << 40));
    for (i, (small, field)) in c.iter_mut().zip(cf.iter_mut()).enumerate() {
        small[3] = 0;
        field[3] = big.add(&f(i as u64));
    }
    let e_eq: Vec<Scalar> = (0..left + right).map(|i| f(i as u64 + 29)).collect();
    let prefix_weights = vec![f(3), f(5)];
    let suffix_weights = vec![f(7), f(11), f(13), f(17)];
    let mut final_weights = Vec::new();
    for s in &suffix_weights {
        for p in &prefix_weights {
            final_weights.push(p.mul(s));
        }
    }
    let prefix = materialize_prefix_abc_with_c_claims::<i32>(
        &refs(&a),
        &refs(&b),
        &refs(&c),
        &refs(&af),
        &refs(&bf),
        &refs(&cf),
        &[],
        &[3],
        &prefix_weights,
        2,
        &e_eq,
        left,
        right,
    )
    .unwrap();
    for (g, c_layer) in prefix.c_layers.iter().enumerate() {
        let expected = prefix_weights[0]
            .mul(&cf[2 * g][3])
            .add(&prefix_weights[1].mul(&cf[2 * g + 1][3]));
        assert_eq!(c_layer[3], expected);
    }
    let c_folded = fold_field_layers_with_weights(&prefix.c_layers, &suffix_weights).unwrap();
    let (_, _, expected_c) = fold_final_abc_with_weights::<i32>(
        &refs(&a),
        &refs(&b),
        &refs(&c),
        &refs(&af),
        &refs(&bf),
        &refs(&cf),
        &[],
        &[3],
        &final_weights,
    )
    .unwrap();
    assert_eq!(c_folded, expected_c);
}
