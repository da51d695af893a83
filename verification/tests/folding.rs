use vega_small_value::errors::SpartanError;
use vega_small_value::extension_bound::{max_extension_input_abs, ExtensionBoundedPoly};
use vega_small_value::field::Scalar;
use vega_small_value::multilinear::{small_poly_to_field, MultilinearPolynomial};
use vega_small_value::neutronnova_zk::{
    compact_c_claims, compact_folded_layers, compute_tensor_decomp, extend_with_first_clones,
    fold_ab_c_claim_pairs, fold_abc_pairs, fold_abc_pairs_in_range, fold_layer_pairs,
    fold_quad_c_claim_chunk, fold_quad_chunk, padded_layer_slices, suffix_weight_full,
    validate_instance_witness_counts,
};
use vega_small_value::small_neutronnova::{
    empty_fold_error, padded_bounded_layer_evals, padded_plain_layer_evals,
};
use vega_small_value::small_neutronnova_workspace::{
    compact_folded_layers_ab, compact_folded_scalars, fold_ab_pair_into, fold_final_ab_pairs,
    fold_prefix_workspace_pair_values, fold_scalar_pair_into, PrefixWorkspace, SmallAbc,
};

fn f(v: u64) -> Scalar {
    Scalar::from_u64(v)
}

fn fi(v: i64) -> Scalar {
    if v < 0 {
        Scalar::zero().sub(&f((-v) as u64))
    } else {
        f(v as u64)
    }
}

fn fv(vs: &[i64]) -> Vec<Scalar> {
    vs.iter().map(|&v| fi(v)).collect()
}

fn reason(err: SpartanError) -> String {
    match err {
        SpartanError::InvalidInputLength { reason } => reason,
        SpartanError::SmallValueOverflow { context, .. } => context,
        SpartanError::DivisionByZero => String::from("division by zero"),
        SpartanError::InternalError { reason } => reason,
    }
}

#[test]
fn layer_pairs_fold_into_the_front_and_empty_the_even_sources() {
    // lo + 3 * (hi - lo)
    let mut layers = vec![
        fv(&[1, 2]),
        fv(&[4, 6]),
        fv(&[10, 0]),
        fv(&[11, 1]),
        fv(&[9, 9]),
    ];
    fold_layer_pairs(&mut layers, 2, f(3));
    assert_eq!(layers[0], fv(&[10, 14]));
    assert_eq!(layers[1], fv(&[13, 3]));
    // Position 2 was the even source of pair 1 and is left empty; position 3
    // is an odd source and is kept; positions past the pairs are untouched.
    assert!(layers[2].is_empty());
    assert_eq!(layers[3], fv(&[11, 1]));
    assert_eq!(layers[4], fv(&[9, 9]));
}

#[test]
fn abc_pairs_fold_all_three_families() {
    let mut a = vec![fv(&[0, 1]), fv(&[2, 5])];
    let mut b = vec![fv(&[7]), fv(&[3])];
    let mut c = vec![fv(&[1, 1, 1]), fv(&[1, 2, 3])];
    fold_abc_pairs(&mut a, &mut b, &mut c, 1, f(2));
    assert_eq!(a[0], fv(&[4, 9]));
    assert_eq!(b[0], fv(&[-1]));
    assert_eq!(c[0], fv(&[1, 3, 5]));
    assert_eq!(a[1], fv(&[2, 5]));
}

#[test]
fn abc_pairs_in_range_leave_earlier_layers_alone() {
    let mut a = vec![fv(&[100]), fv(&[0]), fv(&[1]), fv(&[3]), fv(&[5]), fv(&[6])];
    let mut b = a.clone();
    let mut c = a.clone();
    fold_abc_pairs_in_range(&mut a, &mut b, &mut c, 1, 3, f(1));
    // r = 1 takes the odd layer of each pair.
    assert_eq!(a[0], fv(&[100]));
    assert_eq!(a[1], fv(&[3]));
    assert_eq!(a[2], fv(&[6]));
    assert_eq!(a[3], fv(&[3]));
    assert!(a[4].is_empty());
    assert_eq!(a[5], fv(&[6]));
    assert_eq!(b, a);
    assert_eq!(c, a);
}

#[test]
fn ab_layers_and_c_claims_fold_together() {
    let mut a = vec![fv(&[1]), fv(&[3]), fv(&[0]), fv(&[10])];
    let mut b = vec![fv(&[2]), fv(&[2]), fv(&[4]), fv(&[0])];
    let mut claims = fv(&[5, 7, 1, 9]);
    fold_ab_c_claim_pairs(&mut a, &mut b, &mut claims, 2, f(5));
    assert_eq!(a[0], fv(&[11]));
    assert_eq!(a[1], fv(&[50]));
    assert_eq!(b[0], fv(&[2]));
    assert_eq!(b[1], fv(&[-16]));
    assert_eq!(claims, fv(&[15, 41, 1, 9]));
}

#[test]
fn quad_chunks_fold_slots_zero_and_two() {
    let mut chunk = vec![fv(&[1, 1]), fv(&[3, 5]), fv(&[2]), fv(&[0]), fv(&[8])];
    fold_quad_chunk(&mut chunk, f(2));
    assert_eq!(chunk[0], fv(&[5, 9]));
    assert_eq!(chunk[1], fv(&[3, 5]));
    assert_eq!(chunk[2], fv(&[-2]));
    assert_eq!(chunk[4], fv(&[8]));

    let mut claims = fv(&[1, 3, 2, 0]);
    fold_quad_c_claim_chunk(&mut claims, f(2));
    assert_eq!(claims, fv(&[5, 3, -2, 0]));
}

#[test]
fn compaction_moves_every_other_pair_to_the_front() {
    let mut layers: Vec<u32> = (0..8).collect();
    compact_folded_layers(&mut layers, 2);
    assert_eq!(&layers[..4], &[0, 2, 4, 6]);

    let mut claims = fv(&[10, 11, 12, 13, 14, 15, 16]);
    compact_c_claims(&mut claims, 2);
    assert_eq!(&claims[..4], &fv(&[10, 12, 14, 16])[..]);

    // One pair: entry 2 moves to slot 1 by a swap.
    let mut scalars = fv(&[1, 2, 3]);
    compact_folded_scalars(&mut scalars, 1);
    assert_eq!(scalars, fv(&[1, 3, 2]));

    let mut a = vec![fv(&[0]), fv(&[1]), fv(&[2]), fv(&[3]), fv(&[4]), fv(&[5]), fv(&[6])];
    let mut b = a.clone();
    compact_folded_layers_ab(&mut a, &mut b, 2);
    assert_eq!(&a[..4], &[fv(&[0]), fv(&[2]), fv(&[4]), fv(&[6])]);
    assert_eq!(a, b);
}

#[test]
fn workspace_pair_folds_match_the_formula() {
    let mut a = vec![fv(&[1, 2]), fv(&[5, 2]), fv(&[9])];
    let mut b = vec![fv(&[0, 0]), fv(&[4, 4]), fv(&[9])];
    fold_ab_pair_into(&mut a, &mut b, 0, 1, 0, f(3));
    assert_eq!(a[0], fv(&[13, 2]));
    assert_eq!(b[0], fv(&[12, 12]));

    let mut values = fv(&[2, 10, 4]);
    fold_scalar_pair_into(&mut values, 0, 1, 2, f(4));
    assert_eq!(values, fv(&[2, 10, 34]));

    let mut a = vec![fv(&[1]), fv(&[2]), fv(&[3]), fv(&[5])];
    let mut b = vec![fv(&[0]), fv(&[1]), fv(&[0]), fv(&[-1])];
    fold_final_ab_pairs(&mut a, &mut b, 2, f(2));
    assert_eq!(a[0], fv(&[3]));
    assert_eq!(a[1], fv(&[7]));
    assert_eq!(b[0], fv(&[2]));
    assert_eq!(b[1], fv(&[-2]));
}

#[test]
fn workspace_pair_values_weight_each_prefix_slice() {
    // One constraint, prefix size 2, two suffix groups.
    let workspace = PrefixWorkspace::<i32, i64> {
        l0: 1,
        prefix_size: 2,
        ext_size: 3,
        suffix_groups: 2,
        num_constraints: 1,
        beta_indices: vec![0, 1, 2],
        a: vec![1, 2, 3, 4],
        b: vec![-1, 0, 5, 6],
        c: vec![7, 8, 9, 10],
        ab_ext: vec![],
    };
    let weights = [f(10), f(100)];
    let r = fold_prefix_workspace_pair_values(&weights, &workspace, 0, 1, 0, 1);
    assert_eq!(r.0, fi(210));
    assert_eq!(r.1, fi(430));
    assert_eq!(r.2, fi(-10));
    assert_eq!(r.3, fi(650));
    assert_eq!(r.4, fi(870));
    assert_eq!(r.5, fi(1090));
}

#[test]
fn suffix_weight_reads_the_pair_index_bits() {
    let rhos = [f(0), f(3), f(5)];
    // Round 0 with three rounds: bits of pair 2 are (0, 1) for rounds 1 and 2.
    assert_eq!(suffix_weight_full(0, 3, 2, &rhos), fi((1 - 3) * 5));
    assert_eq!(suffix_weight_full(0, 3, 1, &rhos), fi(3 * (1 - 5)));
    // No rounds after the last one.
    assert_eq!(suffix_weight_full(2, 3, 7, &rhos), f(1));
}

#[test]
fn tensor_decomposition_splits_the_padded_size() {
    assert_eq!(compute_tensor_decomp(1), (0, 1, 1));
    assert_eq!(compute_tensor_decomp(5), (3, 4, 2));
    assert_eq!(compute_tensor_decomp(16), (4, 4, 4));
}

#[test]
fn instance_witness_counts_must_match() {
    assert!(validate_instance_witness_counts(3, 3, 3).is_ok());
    assert_eq!(
        reason(validate_instance_witness_counts(3, 2, 3).unwrap_err()),
        "instance count 2 does not match num_instances 3"
    );
    assert_eq!(
        reason(validate_instance_witness_counts(3, 3, 4).unwrap_err()),
        "witness count 4 does not match num_instances 3"
    );
}

#[test]
fn padding_repeats_the_first_layer() {
    let layers = vec![vec![1u8, 2], vec![3, 4], vec![5, 6]];
    let padded = padded_layer_slices(&layers, 2, 4);
    assert_eq!(padded, vec![&[1u8, 2][..], &[3, 4][..], &[1, 2][..], &[1, 2][..]]);

    let polys = vec![
        MultilinearPolynomial::new(vec![1i32, -1]),
        MultilinearPolynomial::new(vec![2i32, -2]),
    ];
    let evals = padded_plain_layer_evals(&polys, 1, 3);
    assert_eq!(evals, vec![&[1i32, -1][..], &[1, -1][..], &[1, -1][..]]);

    const D: usize = 2;
    const LB: usize = 1;
    let bounded: Vec<ExtensionBoundedPoly<i32, i64, D, LB>> = polys
        .iter()
        .map(|p| ExtensionBoundedPoly::new_unchecked(p.duplicate()))
        .collect();
    let evals = padded_bounded_layer_evals(&bounded, 2, 4);
    assert_eq!(evals, vec![&[1i32, -1][..], &[2, -2][..], &[1, -1][..], &[1, -1][..]]);
}

#[test]
fn first_value_clones_extend_a_vector() {
    let mut values = vec![7u64, 8];
    extend_with_first_clones(&mut values, 3);
    assert_eq!(values, vec![7, 8, 7, 7, 7]);
    let mut empty: Vec<u64> = Vec::new();
    extend_with_first_clones(&mut empty, 0);
    assert!(empty.is_empty());
}

#[test]
fn small_polynomials_map_to_field_values() {
    let poly = MultilinearPolynomial::new(vec![3i64, -4, 0]);
    let field = small_poly_to_field(&poly);
    assert_eq!(field.Z, fv(&[3, -4, 0]));
}

#[test]
fn bounded_poly_zeroes_listed_positions() {
    const D: usize = 2;
    const LB: usize = 1;
    let bound = max_extension_input_abs::<i32, i64, D, LB>() as i32;
    let poly = MultilinearPolynomial::new(vec![bound + 1, 2, -(bound + 1), 3]);
    let (mut bounded, positions) =
        ExtensionBoundedPoly::<i32, i64, D, LB>::try_new_owned_with_field_positions(poly);
    assert_eq!(positions.into_iter().collect::<Vec<_>>(), vec![0, 2]);
    assert_eq!(bounded.as_poly().Z, vec![0, 2, 0, 3]);
    bounded.zero_positions(&std::collections::BTreeSet::from([1]));
    assert_eq!(bounded.into_poly().Z, vec![0, 0, 0, 3]);
}

#[test]
fn c_rows_and_empty_fold_error() {
    let abc = SmallAbc {
        l0: 1,
        num_instances: 2,
        num_constraints: 2,
        a: vec![1i32, 2, 3, 4],
        b: vec![5, 6, 7, 8],
        c: vec![9, 10, 11, 12],
    };
    assert_eq!(abc.c_row(1), &[11, 12]);
    assert_eq!(
        reason(empty_fold_error()),
        "small NeutronNova NIFS produced no folded layer"
    );
}
