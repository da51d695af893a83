use vega_small_value::field::Scalar;
use vega_small_value::small_neutronnova_workspace::{
    beta_indices_with_infty, effective_nonzero_prefix, fold_prefix_workspace_final_table,
    fold_prefix_workspace_table, fold_small_layers_by_prefix, fold_small_value_vectors,
    multilinear_with_effective_halves, PrefixWorkspace, SmallAbc,
};
use vega_small_value::neutronnova_zk::padded_map_by_repeating_first;

fn make_table(num_instances: usize, num_constraints: usize, salt: i32) -> Vec<i32> {
    (0..num_instances)
        .flat_map(|layer| {
            (0..num_constraints)
                .map(move |idx| ((layer as i32 * 13 + idx as i32 * 5 + salt) % 31) - 15)
        })
        .collect()
}

#[test]
fn test_prefix_workspace_fold_matches_layer_fold_with_padding() {
    let l0 = 2;
    let prefix_size = 1usize << l0;
    let n_padded = 8;
    let num_instances = 6;
    let num_constraints = 7;
    let small_abc = SmallAbc {
        l0,
        num_instances,
        num_constraints,
        a: make_table(num_instances, num_constraints, 0),
        b: make_table(num_instances, num_constraints, 3),
        c: make_table(num_instances, num_constraints, 7),
    };
    let suffix_groups = n_padded / prefix_size;
    let mut workspace_a = vec![0i32; suffix_groups * num_constraints * prefix_size];
    PrefixWorkspace::<i32, i64>::transpose_table(
        &small_abc,
        &small_abc.a,
        &mut workspace_a,
        prefix_size,
        suffix_groups,
    );
    let weights = vec![
        Scalar::from_u64(2u64),
        Scalar::from_u64(3u64),
        Scalar::from_u64(5u64),
        Scalar::from_u64(7u64),
    ];

    let mut a_layers = Vec::with_capacity(n_padded);
    for idx in 0..n_padded {
        let row_idx = small_abc.padded_row_idx(idx).unwrap();
        a_layers.push(small_abc.a_row(row_idx));
    }

    let layer_fold = fold_small_layers_by_prefix::<i32>(&weights, &a_layers, prefix_size);
    let workspace_fold = fold_prefix_workspace_table::<i32>(&weights, &workspace_a, num_constraints);

    assert_eq!(layer_fold, workspace_fold);
}

#[test]
fn transpose_places_prefix_values_contiguously() {
    let small_abc = SmallAbc {
        l0: 1,
        num_instances: 3,
        num_constraints: 2,
        a: vec![10i32, 11, 20, 21, 30, 31],
        b: vec![0; 6],
        c: vec![0; 6],
    };
    // Two suffix groups of two prefix slots; the fourth instance repeats row 0.
    let mut dest = vec![0i32; 8];
    PrefixWorkspace::<i32, i64>::transpose_table(&small_abc, &small_abc.a, &mut dest, 2, 2);
    assert_eq!(dest, vec![10, 20, 11, 21, 30, 10, 31, 11]);
}

#[test]
fn padded_row_idx_rejects_empty_batch() {
    let empty = SmallAbc::<i32> {
        l0: 1,
        num_instances: 0,
        num_constraints: 2,
        a: vec![],
        b: vec![],
        c: vec![],
    };
    assert!(empty.padded_row_idx(0).is_err());
    let small_abc = SmallAbc::<i32> {
        l0: 1,
        num_instances: 3,
        num_constraints: 1,
        a: vec![1, 2, 3],
        b: vec![1, 2, 3],
        c: vec![1, 2, 3],
    };
    assert_eq!(small_abc.padded_row_idx(2).unwrap(), 2);
    assert_eq!(small_abc.padded_row_idx(5).unwrap(), 0);
    assert_eq!(small_abc.b_row(1), &[2]);
}

#[test]
fn beta_indices_have_an_infinity_coordinate() {
    assert_eq!(beta_indices_with_infty(0), Vec::<usize>::new());
    assert_eq!(beta_indices_with_infty(1), vec![0]);
    // Indices below 9 with a zero base-3 digit: 0, 1, 2, 3, 6.
    assert_eq!(beta_indices_with_infty(2), vec![0, 1, 2, 3, 6]);
    assert_eq!(beta_indices_with_infty(3).len(), 27 - 8);
}

#[test]
fn fold_small_value_vectors_weights_columns() {
    let w = vec![Scalar::from_u64(2), Scalar::from_u64(3)];
    let v0: &[i64] = &[1, -4];
    let v1: &[i64] = &[5, 1];
    let out = fold_small_value_vectors::<i64>(&w, &[v0, v1]);
    // 2*1 + 3*5 = 17 and 2*(-4) + 3*1 = -5.
    assert_eq!(out[0], Scalar::from_u64(17));
    assert_eq!(out[1], Scalar::from_u64(5).neg());
}

#[test]
fn effective_prefix_ignores_trailing_zeros() {
    let z = Scalar::zero();
    let o = Scalar::one();
    assert_eq!(effective_nonzero_prefix(&[o, z, o, z, z]), 3);
    assert_eq!(effective_nonzero_prefix(&[z, z]), 0);
    assert_eq!(effective_nonzero_prefix(&[]), 0);
}

#[test]
fn final_table_fold_sums_all_suffix_groups() {
    // Two suffix groups, one constraint, prefix size 2.
    let w = vec![
        Scalar::from_u64(1),
        Scalar::from_u64(2),
        Scalar::from_u64(3),
        Scalar::from_u64(4),
    ];
    let table: Vec<i32> = vec![5, 6, 7, 8];
    let out = fold_prefix_workspace_final_table::<i32>(&w, &table, 1, 2);
    // 1*5 + 2*6 + 3*7 + 4*8 = 70.
    assert_eq!(out, vec![Scalar::from_u64(70)]);
}

#[test]
fn effective_halves_trim_each_half_separately() {
    let f = Scalar::from_u64;
    let values = vec![f(3), f(0), f(5), f(0), f(7), f(0), f(0), f(0)];
    let (poly, lo_eff, hi_eff) = multilinear_with_effective_halves(values.clone());
    assert_eq!(poly.Z, values);
    assert_eq!(lo_eff, 3);
    assert_eq!(hi_eff, 1);

    let zeros = vec![f(0); 4];
    let (_, lo_eff, hi_eff) = multilinear_with_effective_halves(zeros);
    assert_eq!((lo_eff, hi_eff), (0, 0));
}

#[test]
fn padded_map_repeats_the_first_value() {
    let values = vec![10u64, 20, 30];
    let mapped = padded_map_by_repeating_first(&values, 2, 5, |v: &u64| *v + 1);
    assert_eq!(mapped, vec![11, 21, 11, 11, 11]);
    let none: Vec<u64> = padded_map_by_repeating_first(&values, 3, 0, |v: &u64| *v);
    assert!(none.is_empty());
}

#[test]
fn prefix_workspace_final_fold_matches_padded_row_fold() {
    let prefix_size = 2usize;
    let n_padded = 8usize;
    let num_instances = 5usize;
    let num_constraints = 3usize;
    let small_abc = SmallAbc {
        l0: 1,
        num_instances,
        num_constraints,
        a: make_table(num_instances, num_constraints, 4),
        b: make_table(num_instances, num_constraints, 9),
        c: make_table(num_instances, num_constraints, 1),
    };
    let suffix_groups = n_padded / prefix_size;
    let mut workspace_b = vec![0i32; suffix_groups * num_constraints * prefix_size];
    PrefixWorkspace::<i32, i64>::transpose_table(
        &small_abc,
        &small_abc.b,
        &mut workspace_b,
        prefix_size,
        suffix_groups,
    );
    let weights: Vec<Scalar> = (0..n_padded).map(|i| Scalar::from_u64(3 * i as u64 + 2)).collect();
    let rows: Vec<&[i32]> = (0..n_padded)
        .map(|idx| small_abc.b_row(small_abc.padded_row_idx(idx).unwrap()))
        .collect();
    let row_fold = fold_small_value_vectors::<i32>(&weights, &rows);
    let workspace_fold =
        fold_prefix_workspace_final_table::<i32>(&weights, &workspace_b, num_constraints, prefix_size);
    assert_eq!(row_fold, workspace_fold);
}
