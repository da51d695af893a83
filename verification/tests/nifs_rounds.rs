use vega_small_value::errors::SpartanError;
use vega_small_value::field::Scalar;
use vega_small_value::neutronnova_zk::{check_step_matvec_cache, check_step_public_values};
use vega_small_value::nifs_rounds::{
    evaluate_poly, generate_nifs_field_round_polynomial, validate_nifs_step_inputs, NifsClaimState,
    NifsFoldState,
};
use vega_small_value::small_c::compute_field_c_claims;
use vega_small_value::step_matvecs::{
    FieldStepMatvecs, NeutronNovaStepMatvecs, SmallAbStepMatvecs, SmallAbcStepMatvecs,
};

fn f(v: u64) -> Scalar {
    Scalar::from_u64(v)
}

fn fi(v: i64) -> Scalar {
    if v < 0 {
        Scalar::zero().sub(&f((-v) as u64))
    } else {
        f(v as u64)
    }
}

fn fv(vs: &[i64]) -> Vec<Scalar> {
    vs.iter().map(|&v| fi(v)).collect()
}

fn reason<T>(r: Result<T, SpartanError>) -> String {
    match r {
        Err(SpartanError::InvalidInputLength { reason }) => reason,
        Err(SpartanError::InternalError { reason }) => reason,
        Err(other) => format!("{:?}", other),
        Ok(_) => String::from("ok"),
    }
}

fn sum_at_zero_and_one(poly: &[Scalar]) -> Scalar {
    evaluate_poly(poly, &Scalar::zero()).add(&evaluate_poly(poly, &Scalar::one()))
}

#[test]
fn round_polynomial_needs_nonzero_rho() {
    let r = generate_nifs_field_round_polynomial(&f(0), &f(1), &f(4), &f(0), &f(0));
    assert_eq!(r, Err(SpartanError::DivisionByZero));
}

#[test]
fn round_polynomial_has_exact_coefficients() {
    // rho = 2: l(X) = -1 + 3X; q(0) = 0, q(inf) = 0 and 4 = l(1) q(1) gives
    // q(1) = 2, so q(X) = 2X and the product is -2X + 6X^2.
    let p = generate_nifs_field_round_polynomial(&f(2), &f(1), &f(4), &f(0), &f(0)).unwrap();
    assert_eq!(p, vec![f(0), fi(-2), f(6), f(0)]);
    assert_eq!(evaluate_poly(&p, &f(3)), f(48));
}

#[test]
fn round_polynomial_sums_to_running_claim() {
    let p = generate_nifs_field_round_polynomial(&f(5), &f(3), &f(7), &f(11), &f(13)).unwrap();
    assert_eq!(p.len(), 4);
    assert_eq!(sum_at_zero_and_one(&p), f(7));
    // q(0) = e0 * acc_eq = 33 and l(0) = 1 - rho = -4.
    assert_eq!(p[0], fi(-132));
}

#[test]
fn evaluate_poly_uses_horner_order() {
    // 1 + 2X + 3X^2 at X = 2 is 17.
    assert_eq!(evaluate_poly(&[f(1), f(2), f(3)], &f(2)), f(17));
    assert_eq!(evaluate_poly(&[], &f(2)), f(0));
}

fn two_instance_state() -> NifsFoldState {
    let a = vec![fv(&[1, 2]), fv(&[3, 5])];
    let b = vec![fv(&[2, 1]), fv(&[4, 3])];
    let c = vec![fv(&[2, 2]), fv(&[12, 15])];
    let e_eq = fv(&[1, 7, 1]);
    NifsFoldState::start(2, a, b, c, &e_eq, 2, 1, &[f(3)]).unwrap()
}

#[test]
fn start_reports_mismatched_layer_counts() {
    let a = vec![fv(&[1])];
    let b = vec![fv(&[1]), fv(&[2])];
    let c = vec![fv(&[1]), fv(&[2])];
    let r = NifsFoldState::start(2, a, b, c, &fv(&[1, 1]), 1, 1, &[f(3)]);
    assert_eq!(
        reason(r),
        "NIFS received step matvec layer lengths A=1, B=2, C=2 but 2 instances"
    );
}

#[test]
fn start_pads_with_copies_of_the_first_layer() {
    let a = vec![fv(&[1]), fv(&[2]), fv(&[3])];
    let b = vec![fv(&[4]), fv(&[5]), fv(&[6])];
    let c = vec![fv(&[7]), fv(&[8]), fv(&[9])];
    let s = NifsFoldState::start(3, a, b, c, &fv(&[1, 1]), 1, 1, &[f(2), f(5)]).unwrap();
    assert_eq!(s.a_layers.len(), 4);
    assert_eq!(s.a_layers[3], fv(&[1]));
    assert_eq!(s.b_layers[3], fv(&[4]));
    assert_eq!(s.c_layers[3], fv(&[7]));
    assert_eq!(s.round, 0);
    assert_eq!(s.t_cur, f(0));
    assert_eq!(s.acc_eq, f(1));
}

#[test]
fn start_reports_first_round_layer_length() {
    let a = vec![fv(&[1]), fv(&[2, 3])];
    let b = vec![fv(&[1]), fv(&[2])];
    let c = vec![fv(&[1]), fv(&[2])];
    let r = NifsFoldState::start(2, a, b, c, &fv(&[1, 1]), 1, 1, &[f(3)]);
    assert_eq!(reason(r), "all A layers must have length 1");
}

#[test]
fn round_step_folds_pairs_and_advances_claim() {
    let s = two_instance_state();
    let r_b = f(10);
    let (next, poly) = s.nifs_round_step(&r_b).unwrap();
    assert_eq!(sum_at_zero_and_one(&poly), f(0));
    // a' = a0 + r (a1 - a0) entry-wise.
    assert_eq!(next.a_layers, vec![fv(&[21, 32])]);
    assert_eq!(next.b_layers, vec![fv(&[22, 21])]);
    assert_eq!(next.c_layers, vec![fv(&[102, 132])]);
    assert_eq!(next.round, 1);
    assert_eq!(next.r_bs, vec![r_b]);
    assert_eq!(next.t_cur, evaluate_poly(&poly, &r_b));
    // (1 - 10)(1 - 3) + 10 * 3 = 48.
    assert_eq!(next.acc_eq, f(48));
}

#[test]
fn round_step_quadratic_matches_pair_products() {
    let s = two_instance_state();
    let poly = s.nifs_round_polynomial().unwrap();
    // quad = e[2] * (e[0] (3 - 1)(4 - 2) + e[1] (5 - 2)(3 - 1)) = 4 + 42 = 46
    // and the cubic coefficient is (2 rho - 1) * quad = 5 * 46.
    assert_eq!(poly[3], f(230));
}

#[test]
fn round_step_rejects_zero_rho() {
    let a = vec![fv(&[1]), fv(&[2])];
    let s = NifsFoldState::start(2, a.clone(), a.clone(), a, &fv(&[1, 1]), 1, 1, &[f(0)]).unwrap();
    assert!(matches!(s.nifs_round_step(&f(4)), Err(SpartanError::DivisionByZero)));
}

#[test]
fn small_round_matches_field_round() {
    // Position 1 is listed: the small cache holds zero there and the field
    // layers carry the values; elsewhere the small entries are the values.
    let positions = vec![1usize];
    let a = vec![fv(&[1, 2]), fv(&[3, 5])];
    let b = vec![fv(&[2, 1]), fv(&[0, 3])];
    let c = vec![fv(&[2, 2]), fv(&[0, 15])];
    let a_small: Vec<Vec<i64>> = vec![vec![1, 0], vec![3, 0]];
    let b_small: Vec<Vec<i64>> = vec![vec![2, 0], vec![0, 0]];
    let e_eq = fv(&[1, 7, 1]);
    let field = NifsFoldState::start(2, a.clone(), b.clone(), c.clone(), &e_eq, 2, 1, &[f(3)]).unwrap();
    let small = NifsFoldState::start(2, a, b, c, &e_eq, 2, 1, &[f(3)]).unwrap();
    let (field_next, field_poly) = field.nifs_round_step(&f(9)).unwrap();
    let (small_next, small_poly) = small
        .small_nifs_round_step(&a_small, &b_small, &positions, &f(9))
        .unwrap();
    assert_eq!(small_poly, field_poly);
    assert_eq!(small_next.a_layers, field_next.a_layers);
    assert_eq!(small_next.t_cur, field_next.t_cur);
    assert_eq!(small_next.acc_eq, field_next.acc_eq);
}

fn step_matvecs(n: usize, small_layers: usize, small_len: usize, l0: usize) -> NeutronNovaStepMatvecs {
    let field = FieldStepMatvecs {
        az: vec![fv(&[1, 2]); n],
        bz: vec![fv(&[1, 2]); n],
        cz: vec![fv(&[1, 4]); n],
    };
    let small_abc = SmallAbcStepMatvecs {
        ab: SmallAbStepMatvecs {
            az_small: vec![vec![1; small_len]; small_layers],
            bz_small: vec![vec![1; small_len]; small_layers],
            large_positions: vec![],
            l0,
        },
        cz_small: vec![vec![1; small_len]; small_layers],
        c_large_positions: vec![],
    };
    NeutronNovaStepMatvecs { field, small_abc: Some(small_abc) }
}

#[test]
fn step_input_checks_report_each_failure() {
    let mut missing = step_matvecs(2, 2, 2, 1);
    missing.small_abc = None;
    assert_eq!(
        reason(validate_nifs_step_inputs(&missing, true, 2, 2, 1)),
        "regular small optimization requested but small A/B/C matvecs are missing"
    );
    assert!(validate_nifs_step_inputs(&missing, false, 2, 2, 1).is_ok());
    assert_eq!(
        reason(validate_nifs_step_inputs(&step_matvecs(2, 2, 2, 3), true, 2, 2, 1)),
        "regular NeutronNova small path requires l0=1 but received 3"
    );
    assert_eq!(
        reason(validate_nifs_step_inputs(&step_matvecs(2, 2, 2, 1), true, 3, 2, 1)),
        "NIFS received step matvec layer lengths A=2, B=2, C=2 but 3 instances"
    );
    assert_eq!(
        reason(validate_nifs_step_inputs(&step_matvecs(2, 1, 2, 1), true, 2, 2, 1)),
        "regular small path received small layer lengths A=1, B=1, C=1 but 2 instances"
    );
    assert_eq!(
        reason(validate_nifs_step_inputs(&step_matvecs(2, 2, 3, 1), true, 2, 2, 1)),
        "regular small path requires small layers of length 2"
    );
    assert!(validate_nifs_step_inputs(&step_matvecs(2, 2, 2, 1), true, 2, 2, 1).is_ok());
}

fn four_instance_state(rhos: &[Scalar]) -> NifsFoldState {
    let a = vec![fv(&[1, 2]), fv(&[3, 5]), fv(&[2, 2]), fv(&[7, 1])];
    let b = vec![fv(&[2, 1]), fv(&[4, 3]), fv(&[1, 6]), fv(&[0, 2])];
    let c = vec![fv(&[2, 2]), fv(&[12, 15]), fv(&[2, 12]), fv(&[0, 2])];
    let e_eq = fv(&[1, 7, 1]);
    NifsFoldState::start(4, a, b, c, &e_eq, 2, 1, rhos).unwrap()
}

#[test]
fn claim_rounds_match_field_rounds_after_the_first() {
    let rhos = vec![f(3), f(5)];
    let e_eq = fv(&[1, 7, 1]);
    let s0 = four_instance_state(&rhos);
    let (s1, _) = s0.nifs_round_step(&f(9)).unwrap();
    let claims = compute_field_c_claims(&s1.c_layers, &e_eq, 2, 1).unwrap();
    let cs = NifsClaimState {
        a_layers: s1.a_layers.clone(),
        b_layers: s1.b_layers.clone(),
        c_claims: claims,
        e_eq: &e_eq,
        left: 2,
        right: 1,
        rhos: &rhos,
        round: 1,
        t_cur: s1.t_cur,
        acc_eq: s1.acc_eq,
        r_bs: s1.r_bs.clone(),
    };
    let (s2, field_poly) = s1.nifs_round_step(&f(4)).unwrap();
    let (cs2, claim_poly) = cs.claim_round_step(&f(4)).unwrap();
    assert_eq!(claim_poly, field_poly);
    assert_eq!(cs2.a_layers, s2.a_layers);
    assert_eq!(cs2.t_cur, s2.t_cur);
    assert_eq!(cs2.acc_eq, s2.acc_eq);
    assert_eq!(cs2.c_claims, compute_field_c_claims(&s2.c_layers, &e_eq, 2, 1).unwrap());
    assert_eq!(cs2.round, 2);
}

#[test]
fn claim_round_reports_odd_layer_count() {
    let rhos = vec![f(3)];
    let e_eq = fv(&[1, 1]);
    let cs = NifsClaimState {
        a_layers: vec![fv(&[1])],
        b_layers: vec![fv(&[1])],
        c_claims: vec![f(1)],
        e_eq: &e_eq,
        left: 1,
        right: 1,
        rhos: &rhos,
        round: 0,
        t_cur: f(0),
        acc_eq: f(1),
        r_bs: vec![],
    };
    assert_eq!(reason(cs.claim_round_step(&f(2))), "suffix layer count must be non-empty and even");
}

#[test]
fn claim_round_reports_round_past_the_challenges() {
    let rhos = vec![f(3)];
    let e_eq = fv(&[1, 1]);
    let cs = NifsClaimState {
        a_layers: vec![fv(&[1]), fv(&[2])],
        b_layers: vec![fv(&[1]), fv(&[2])],
        c_claims: vec![f(1), f(4)],
        e_eq: &e_eq,
        left: 1,
        right: 1,
        rhos: &rhos,
        round: 1,
        t_cur: f(0),
        acc_eq: f(1),
        r_bs: vec![],
    };
    assert_eq!(reason(cs.claim_round_step(&f(2))), "round 1 is out of range for 1 rho challenges");
}

#[test]
fn step_cache_checks_follow_the_recorded_public_values() {
    assert_eq!(check_step_matvec_cache(true, 0, 3), Ok(false));
    assert_eq!(check_step_matvec_cache(false, 0, 3), Ok(false));
    assert_eq!(check_step_matvec_cache(true, 3, 3), Ok(true));
    assert_eq!(
        reason(check_step_matvec_cache(true, 2, 3)),
        "Cached matvec was computed for 2 step circuits, but prove received 3"
    );
    assert_eq!(
        reason(check_step_matvec_cache(false, 2, 2)),
        "Cached step matvecs were consumed by a previous prove; rerun prep_prove to rebuild them"
    );
}

#[test]
fn step_public_values_must_match_the_cache() {
    assert!(check_step_public_values(0, &fv(&[1, 2]), &fv(&[1, 2])).is_ok());
    assert_eq!(
        reason(check_step_public_values(4, &fv(&[1, 2]), &fv(&[1, 3]))),
        "Step circuit 4 public values changed between prep_prove and prove"
    );
    assert_eq!(
        reason(check_step_public_values(1, &fv(&[1, 2]), &fv(&[1]))),
        "Step circuit 1 public values changed between prep_prove and prove"
    );
}
