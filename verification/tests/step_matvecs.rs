use vega_small_value::errors::SpartanError;
use vega_small_value::field::Scalar;
use vega_small_value::sha256_chain::SmallSha256ChainCircuit;
use vega_small_value::step_matvecs::{
    build_small_ab_from_field, build_small_abc_from_field, check_small_abc_cache,
    check_small_value_step_matvecs, debug_validate_small_abc_cache,
    debug_validate_small_value_step_matvecs, FieldStepMatvecs, NeutronNovaNIFS,
    SmallValueNeutronNovaNIFS,
};

fn f(v: u64) -> Scalar {
    Scalar::from_u64(v)
}

fn neg(v: u64) -> Scalar {
    Scalar::zero().sub(&f(v))
}

fn reason(err: SpartanError) -> String {
    match err {
        SpartanError::InvalidInputLength { reason } => reason,
        SpartanError::SmallValueOverflow { context, .. } => context,
        SpartanError::DivisionByZero => String::from("division by zero"),
        SpartanError::InternalError { reason } => reason,
    }
}

/// Per-instance `(Az, Bz, Cz)` tables with `Cz = Az * Bz`; position 1 of
/// instance 0 holds a value far outside every small range.
fn synthetic_matvecs(num_instances: usize, len: usize) -> Vec<(Vec<Scalar>, Vec<Scalar>, Vec<Scalar>)> {
    let big = neg(1).mul(&f(1 << 40)).mul(&f(1 << 40)).mul(&f(1 << 40));
    (0..num_instances)
        .map(|i| {
            let az: Vec<Scalar> = (0..len)
                .map(|k| {
                    if i == 0 && k == 1 {
                        big
                    } else if (i + k) % 3 == 0 {
                        neg((i + k) as u64)
                    } else {
                        f((i * 7 + k) as u64)
                    }
                })
                .collect();
            let bz: Vec<Scalar> = (0..len).map(|k| f((i + 2 * k + 1) as u64)).collect();
            let cz: Vec<Scalar> = (0..len).map(|k| az[k].mul(&bz[k])).collect();
            (az, bz, cz)
        })
        .collect()
}

#[test]
fn test_regular_false_skips_small_conversion() {
    let matvecs = synthetic_matvecs(2, 4);
    let cached = NeutronNovaNIFS::build_step_matvecs_from_field(matvecs, &false).unwrap();
    assert!(cached.small_abc.is_none());
    assert_eq!(cached.field.az.len(), 2);
    assert_eq!(cached.field.bz.len(), 2);
    assert_eq!(cached.field.cz.len(), 2);
    assert!(!NeutronNovaNIFS::is_small(&false));
}

#[test]
fn test_regular_true_builds_small_abc_cache() {
    let matvecs = synthetic_matvecs(2, 4);
    let cached = NeutronNovaNIFS::build_step_matvecs_from_field(matvecs, &true).unwrap();
    let small_abc = cached.small_abc.as_ref().expect("small A/B/C matvecs");
    assert_eq!(small_abc.ab.l0, 1);
    assert_eq!(small_abc.ab.az_small.len(), 2);
    assert_eq!(small_abc.ab.bz_small.len(), 2);
    assert_eq!(small_abc.cz_small.len(), 2);
    assert!(check_small_abc_cache(&cached.field, small_abc).is_ok());
    debug_validate_small_abc_cache(&cached.field, small_abc);
}

#[test]
fn test_small_value_neutronnova_nifs_rejects_zero_l0() {
    let matvecs = synthetic_matvecs(2, 4);
    let err = SmallValueNeutronNovaNIFS::build_step_matvecs_from_field(matvecs, &0).unwrap_err();
    assert!(reason(err).contains("small-value NeutronNova NIFS requires l0 > 0"));
    assert!(SmallValueNeutronNovaNIFS::is_small(&0));
}

#[test]
fn small_ab_conversion_rejects_zero_l0() {
    let field = FieldStepMatvecs::from_triples(synthetic_matvecs(2, 4));
    let err = build_small_ab_from_field(&field, 0).unwrap_err();
    assert_eq!(reason(err), "small A/B matvec conversion requires l0 > 0");
}

#[test]
fn large_positions_are_zeroed_in_every_layer() {
    let field = FieldStepMatvecs::from_triples(synthetic_matvecs(3, 5));
    let abc = build_small_abc_from_field(&field, 2).unwrap();
    assert_eq!(abc.ab.large_positions, vec![1]);
    assert_eq!(abc.c_large_positions, vec![1]);
    for layer in abc.ab.az_small.iter().chain(abc.ab.bz_small.iter()) {
        assert_eq!(layer[1], 0);
    }
    for layer in &abc.cz_small {
        assert_eq!(layer[1], 0);
    }
    // Other small entries are the values they denote, negatives included.
    assert_eq!(abc.ab.az_small[0][0], 0);
    assert_eq!(abc.ab.az_small[0][3], -3);
    assert_eq!(abc.ab.az_small[1][2], -3);
    assert_eq!(abc.ab.az_small[1][3], 10);
    assert_eq!(abc.ab.bz_small[2][4], 11);
    assert!(check_small_abc_cache(&field, &abc).is_ok());
    debug_validate_small_abc_cache(&field, &abc);
}

#[test]
fn small_value_step_matvecs_validate() {
    let step = SmallValueNeutronNovaNIFS::build_step_matvecs_from_field(synthetic_matvecs(4, 6), &2)
        .unwrap();
    assert_eq!(step.small_abc.ab.l0, 2);
    assert!(check_small_value_step_matvecs(&step).is_ok());
    debug_validate_small_value_step_matvecs(&step);
}

#[test]
#[should_panic(expected = "small Az cache mismatch")]
fn test_debug_cache_validation_rejects_non_large_small_entry_corruption() {
    let mut step =
        SmallValueNeutronNovaNIFS::build_step_matvecs_from_field(synthetic_matvecs(4, 8), &1)
            .unwrap();
    assert!(!step.small_abc.ab.large_positions.contains(&0));
    step.small_abc.ab.az_small[0][0] += 1;
    check_small_value_step_matvecs(&step).unwrap();
}

#[test]
#[should_panic(expected = "field-position small Az entry must be zero")]
fn test_debug_cache_validation_rejects_large_position_small_entry_corruption() {
    let mut step =
        SmallValueNeutronNovaNIFS::build_step_matvecs_from_field(synthetic_matvecs(4, 8), &1)
            .unwrap();
    let large_position = step.small_abc.ab.large_positions[0];
    step.small_abc.ab.az_small[0][large_position] = 1;
    check_small_value_step_matvecs(&step).unwrap();
}

#[test]
#[should_panic(expected = "field Az*Bz != Cz")]
fn test_debug_cache_validation_rejects_field_cz_relation_corruption() {
    let mut step =
        SmallValueNeutronNovaNIFS::build_step_matvecs_from_field(synthetic_matvecs(4, 8), &1)
            .unwrap();
    assert!(!step.small_abc.ab.large_positions.contains(&0));
    step.field.cz[0][0] = step.field.cz[0][0].add(&Scalar::one());
    step.small_abc.cz_small[0][0] += 1;
    check_small_value_step_matvecs(&step).unwrap();
}

#[test]
fn debug_cache_validation_names_the_first_failed_check() {
    let build = || {
        SmallValueNeutronNovaNIFS::build_step_matvecs_from_field(synthetic_matvecs(4, 8), &1)
            .unwrap()
    };

    let mut step = build();
    step.small_abc.ab.az_small[0][0] += 1;
    assert_eq!(
        check_small_value_step_matvecs(&step).unwrap_err(),
        "small Az cache mismatch at layer 0 index 0"
    );

    let mut step = build();
    let large_position = step.small_abc.ab.large_positions[0];
    step.small_abc.ab.az_small[0][large_position] = 1;
    assert_eq!(
        check_small_value_step_matvecs(&step).unwrap_err(),
        format!("A/B field-position small Az entry must be zero at layer 0 index {}", large_position)
    );

    let mut step = build();
    step.field.cz[2][3] = step.field.cz[2][3].add(&Scalar::one());
    step.small_abc.cz_small[2][3] += 1;
    assert_eq!(
        check_small_value_step_matvecs(&step).unwrap_err(),
        "field Az*Bz != Cz at layer 2 index 3"
    );

    let mut step = build();
    step.small_abc.cz_small.pop();
    assert_eq!(
        check_small_value_step_matvecs(&step).unwrap_err(),
        "small Cz layer count mismatch"
    );

    let mut step = build();
    step.small_abc.ab.large_positions = vec![3, 3];
    assert_eq!(
        check_small_value_step_matvecs(&step).unwrap_err(),
        "A/B large positions must be sorted and unique"
    );

    let mut step = build();
    step.small_abc.c_large_positions = vec![9];
    assert_eq!(
        check_small_value_step_matvecs(&step).unwrap_err(),
        "C large position 9 is out of range for layer length 8"
    );

    let mut step = build();
    step.field.bz[1].pop();
    assert_eq!(
        check_small_value_step_matvecs(&step).unwrap_err(),
        "field Bz layer 1 length mismatch"
    );
}

#[test]
fn sha256_chain_expected_output() {
    let zero = SmallSha256ChainCircuit::new([0u8; 32], 0);
    assert_eq!(zero.expected_output(), [0u8; 32]);
    assert_eq!(zero.num_challenges(), 0);
    // SHA-256 of 32 zero bytes.
    let one = SmallSha256ChainCircuit::new([0u8; 32], 1);
    let expected: [u8; 32] = [
        0x66, 0x68, 0x7a, 0xad, 0xf8, 0x62, 0xbd, 0x77, 0x6c, 0x8f, 0xc1, 0x8b, 0x8e, 0x9f, 0x8e,
        0x20, 0x08, 0x97, 0x14, 0x85, 0x6e, 0xe2, 0x33, 0xb3, 0x90, 0x2a, 0x59, 0x1d, 0x0d, 0x5f,
        0x29, 0x25,
    ];
    assert_eq!(one.expected_output(), expected);
    let two = SmallSha256ChainCircuit::new([0u8; 32], 2);
    let again = SmallSha256ChainCircuit::new(expected, 1);
    assert_eq!(two.expected_output(), again.expected_output());
}
