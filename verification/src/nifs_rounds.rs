//! The rounds of the NeutronNova folding scheme as a step function.
//!
//! A [`NifsFoldState`] holds the `A/B/C` layers of one round together with the
//! running sum-check claim. Each round publishes a cubic polynomial built from
//! the weighted round claims; the caller draws the challenge `r_b` for it from
//! the transcript and hands it back, and the state folds every layer pair with
//! that challenge. The first round can run on the small `A/B` cache, and the
//! later rounds on scalar `C` claims ([`NifsClaimState`]); both publish the
//! polynomials of the field rounds.

use crate::errors::{
    concat, decimal_text, fails_with, invalid_input, invalid_input_owned, text_with_number,
    text_with_two_numbers, SpartanError,
};
use crate::field::{field_inverse, field_modulus, fmod, scalar_values, Scalar};
use crate::laws::{
    law_claim_of_folded_layer_is_folded_claim, law_claim_round_matches_materialized_round,
    law_small_round_quad_matches_field_quad,
};
use crate::neutronnova_zk::{
    all_layers_have_len, extend_with_first_clones, family_failure, fold_ab_c_claim_pairs,
    fold_abc_pairs, fold_value, is_folded_layer, materialized_round_failure, reports,
    scalar_round_failure, suffix_weight_full, validate_layer_family,
    validate_materialized_c_round_inputs, NifsRoundShape,
};
use crate::round_claims::{
    claim_round_e0, compute_ab_c_claim_round, compute_field_round_claim, diff_product_vals,
    field_round_e0, lemma_add_cong, lemma_add_reduced, lemma_mul_cong, lemma_reduced_fixed,
    lemma_sub_cong, prove_helper_small, round_quad, split_eq_claim,
};
use crate::small_c::field_vals;
use crate::step_matvecs::NeutronNovaStepMatvecs;
use vstd::arithmetic::power2::pow2;
use vstd::prelude::*;

verus! {

/// The coefficients, constant term first, of the cubic `l(X) * q(X)` of a
/// NIFS round: `l` is the linear eq factor with `l(0) = 1 - rho` and
/// `l(1) = rho`; `q` is the quadratic with `q(0) = e0 * acc_eq`, leading
/// coefficient `quad * acc_eq`, and `q(1)` fixed by the running claim
/// `t_cur = l(0) q(0) + l(1) q(1)`.
pub open spec fn round_poly_coeffs(rho: nat, acc_eq: nat, t_cur: nat, e0: nat, quad: nat) -> Seq<nat> {
    let l0: int = fmod(1 - rho) as int;
    let linf: int = fmod(rho - l0) as int;
    let q0: int = fmod(e0 as int * acc_eq as int) as int;
    let qinf: int = fmod(quad as int * acc_eq as int) as int;
    let q1: int = fmod(fmod(t_cur - fmod(l0 * q0)) as int * field_inverse(rho) as int) as int;
    let b1: int = fmod(fmod(q1 - q0) - qinf) as int;
    seq![
        fmod(l0 * q0),
        fmod(fmod(l0 * b1) as int + fmod(linf * q0) as int),
        fmod(fmod(l0 * qinf) as int + fmod(linf * b1) as int),
        fmod(linf * qinf),
    ]
}

/// The value at `r` of the polynomial with coefficients `c`, constant term
/// first, by Horner's rule in the field.
pub open spec fn poly_eval(c: Seq<nat>, r: nat) -> nat
    decreases c.len(),
{
    if c.len() == 0 {
        0
    } else {
        fmod(c[0] as int + fmod(r * poly_eval(c.drop_first(), r) as int) as int)
    }
}

/// A cubic with reduced coefficients is its constant term at 0 and the sum
/// of its coefficients at 1.
proof fn lemma_cubic_at_zero_and_one(c: Seq<nat>)
    requires
        c.len() == 4,
        forall|i: int| 0 <= i < 4 ==> c[i] < field_modulus(),
    ensures
        poly_eval(c, 0) == c[0],
        poly_eval(c, 1) == fmod((c[0] + c[1] + c[2] + c[3]) as int),
{
    let x0 = c[0] as int;
    let x1 = c[1] as int;
    let x2 = c[2] as int;
    let x3 = c[3] as int;
    let d1 = c.drop_first();
    let d2 = d1.drop_first();
    let d3 = d2.drop_first();
    let d4 = d3.drop_first();
    assert(d4.len() == 0);
    assert(poly_eval(d4, 1) == 0);
    assert(poly_eval(d4, 0) == 0);
    lemma_reduced_fixed(c[3]);
    lemma_reduced_fixed(0);
    assert(poly_eval(d3, 1) == c[3]);
    assert(poly_eval(d3, 0) == c[3]);
    lemma_add_reduced(x2, x3);
    lemma_reduced_fixed(c[2]);
    assert(poly_eval(d2, 1) == fmod(x2 + x3));
    assert(poly_eval(d2, 0) < field_modulus());
    lemma_reduced_fixed(fmod(x2 + x3));
    lemma_add_reduced(x1, x2 + x3);
    lemma_reduced_fixed(c[1]);
    assert(poly_eval(d1, 1) == fmod(x1 + x2 + x3));
    assert(poly_eval(d1, 0) < field_modulus());
    lemma_reduced_fixed(fmod(x1 + x2 + x3));
    lemma_add_reduced(x0, x1 + x2 + x3);
    lemma_reduced_fixed(c[0]);
    assert(poly_eval(c, 1) == fmod(x0 + x1 + x2 + x3));
    assert(poly_eval(c, 0) == c[0]);
}

/// The coefficients of `(l0 + linf X)(q0 + b1 X + qinf X^2)`, reduced one
/// product at a time, sum to the product of the factor sums.
proof fn lemma_coefficient_sum(l0: int, linf: int, q0: int, b1: int, qinf: int)
    ensures
        fmod(
            fmod(l0 * q0) as int + fmod(fmod(l0 * b1) as int + fmod(linf * q0) as int) as int + fmod(
                fmod(l0 * qinf) as int + fmod(linf * b1) as int,
            ) as int + fmod(linf * qinf) as int,
        ) == fmod((l0 + linf) * (q0 + b1 + qinf)),
{
    let c0 = fmod(l0 * q0) as int;
    let c1 = fmod(fmod(l0 * b1) as int + fmod(linf * q0) as int) as int;
    let c2 = fmod(fmod(l0 * qinf) as int + fmod(linf * b1) as int) as int;
    let c3 = fmod(linf * qinf) as int;
    lemma_add_reduced(l0 * b1, linf * q0);
    lemma_add_reduced(l0 * qinf, linf * b1);
    lemma_reduced_fixed(c0 as nat);
    lemma_reduced_fixed(c1 as nat);
    lemma_reduced_fixed(c2 as nat);
    lemma_reduced_fixed(c3 as nat);
    lemma_add_cong(c0, c1, l0 * q0, l0 * b1 + linf * q0);
    lemma_add_cong(c0 + c1, c2, l0 * q0 + (l0 * b1 + linf * q0), l0 * qinf + linf * b1);
    lemma_add_cong(
        c0 + c1 + c2,
        c3,
        l0 * q0 + (l0 * b1 + linf * q0) + (l0 * qinf + linf * b1),
        linf * qinf,
    );
    assert(l0 * q0 + (l0 * b1 + linf * q0) + (l0 * qinf + linf * b1) + linf * qinf == (l0 + linf) * (q0
        + b1 + qinf)) by (nonlinear_arith);
}

/// `l(1) = l(0) + (rho - l(0))` and `q(1) = q(0) + (q(1) - q(0) - q(inf)) +
/// q(inf)` in the field, so `l(1) q(1) = rho q(1)`.
proof fn lemma_factor_sums(rho: int, l0: int, q0: int, q1: int, qinf: int)
    ensures
        fmod((l0 + fmod(rho - l0)) * (q0 + fmod(fmod(q1 - q0) - qinf) + qinf)) == fmod(rho * q1),
{
    let linf = fmod(rho - l0) as int;
    let b1 = fmod(fmod(q1 - q0) - qinf) as int;
    lemma_reduced_fixed(linf as nat);
    lemma_add_cong(l0, linf, l0, rho - l0);
    lemma_reduced_fixed(b1 as nat);
    lemma_reduced_fixed(fmod(q1 - q0));
    lemma_sub_cong(fmod(q1 - q0) as int, qinf, q1 - q0, qinf);
    lemma_add_cong(q0 + qinf, b1, q0 + qinf, q1 - q0 - qinf);
    lemma_mul_cong(l0 + linf, q0 + b1 + qinf, rho, q1);
}

/// `rho * ((t - lq) * inv) = t - lq` in the field when `rho * inv = 1`.
proof fn lemma_inverse_cancels(rho: int, inv: int, t: int, lq: int)
    requires
        fmod(rho * inv) == 1,
    ensures
        fmod(rho * fmod(fmod(t - lq) as int * inv) as int) == fmod(t - lq),
{
    let q1 = fmod(fmod(t - lq) as int * inv) as int;
    lemma_reduced_fixed(q1 as nat);
    lemma_reduced_fixed(fmod(t - lq));
    lemma_mul_cong(fmod(t - lq) as int, inv, t - lq, inv);
    lemma_mul_cong(rho, q1, rho, (t - lq) * inv);
    assert(rho * ((t - lq) * inv) == (rho * inv) * (t - lq)) by (nonlinear_arith);
    lemma_reduced_fixed(1);
    lemma_mul_cong(rho * inv, t - lq, 1, t - lq);
}

/// The round polynomial keeps the sum-check claim: for a `rho` with its
/// field inverse, `s(0) + s(1) = t_cur` for the polynomial `s` built from
/// `t_cur` and any round claims.
pub proof fn law_round_poly_sums_to_claim(rho: nat, acc_eq: nat, t_cur: nat, e0: nat, quad: nat)
    requires
        t_cur < field_modulus(),
        fmod(rho as int * field_inverse(rho) as int) == 1,
    ensures
        ({
            let c = round_poly_coeffs(rho, acc_eq, t_cur, e0, quad);
            fmod(poly_eval(c, 0) as int + poly_eval(c, 1) as int) == t_cur
        }),
{
    let c = round_poly_coeffs(rho, acc_eq, t_cur, e0, quad);
    let inv = field_inverse(rho) as int;
    let l0: int = fmod(1 - rho) as int;
    let linf: int = fmod(rho - l0) as int;
    let q0: int = fmod(e0 as int * acc_eq as int) as int;
    let qinf: int = fmod(quad as int * acc_eq as int) as int;
    let lq: int = fmod(l0 * q0) as int;
    let q1: int = fmod(fmod(t_cur - lq) as int * inv) as int;
    let b1: int = fmod(fmod(q1 - q0) as int - qinf) as int;
    lemma_cubic_at_zero_and_one(c);
    lemma_coefficient_sum(l0, linf, q0, b1, qinf);
    lemma_factor_sums(rho as int, l0, q0, q1, qinf);
    lemma_inverse_cancels(rho as int, inv, t_cur as int, lq);
    let s1 = (c[0] + c[1] + c[2] + c[3]) as int;
    // s(1) = rho q(1) = t - l(0) q(0), and s(0) = l(0) q(0).
    assert(fmod(s1) == fmod(t_cur - lq));
    lemma_reduced_fixed(lq as nat);
    lemma_reduced_fixed(fmod(s1));
    lemma_add_cong(lq, fmod(s1) as int, lq, t_cur - lq);
    lemma_reduced_fixed(t_cur);
}

/// The round polynomial is `l(X) * q(X)`: `l(X) = (1 - rho) + (2 rho - 1) X`
/// is the eq factor of the round, and `q` is a quadratic whose constant term
/// is the round's `e0` claim and whose leading coefficient is its `quad`
/// claim, both scaled by the eq accumulator `acc_eq`. Writing `q(X) = q0 +
/// b1 X + q2 X^2`, the middle coefficients are `l0 b1 + l1 q0` and `l0 q2 +
/// l1 b1`, so `l1 * c1 - l0 * c2 = l1^2 q0 - l0^2 q2` whatever `b1` the
/// running claim fixes; with [`law_round_poly_sums_to_claim`] this pins the
/// polynomial.
#[verifier::spinoff_prover]
pub proof fn law_round_poly_factors(rho: nat, acc_eq: nat, t_cur: nat, e0: nat, quad: nat)
    ensures
        ({
            let c = round_poly_coeffs(rho, acc_eq, t_cur, e0, quad);
            let l0 = 1 - rho;
            let l1 = 2 * rho - 1;
            let q0 = e0 * acc_eq;
            let q2 = quad * acc_eq;
            &&& c.len() == 4
            &&& c[0] == fmod(l0 * q0)
            &&& c[3] == fmod(l1 * q2)
            &&& fmod(l1 * c[1] - l0 * c[2]) == fmod(l1 * l1 * q0 - l0 * l0 * q2)
        }),
{
    let c = round_poly_coeffs(rho, acc_eq, t_cur, e0, quad);
    let l0: int = fmod(1 - rho) as int;
    let linf: int = fmod(rho - l0) as int;
    let q0: int = fmod(e0 as int * acc_eq as int) as int;
    let qinf: int = fmod(quad as int * acc_eq as int) as int;
    let q1: int = fmod(fmod(t_cur - fmod(l0 * q0)) as int * field_inverse(rho) as int) as int;
    let b1: int = fmod(fmod(q1 - q0) - qinf) as int;
    let el0: int = 1 - rho;
    let el1: int = 2 * rho - 1;
    let eq0: int = (e0 * acc_eq) as int;
    let eq2: int = (quad * acc_eq) as int;
    // Each factor is congruent to its unreduced form.
    lemma_reduced_fixed(l0 as nat);
    lemma_reduced_fixed(linf as nat);
    lemma_reduced_fixed(q0 as nat);
    lemma_reduced_fixed(qinf as nat);
    lemma_sub_cong(rho as int, l0, rho as int, el0);
    assert(rho - el0 == el1);
    assert(fmod(linf) == fmod(el1));
    assert(fmod(l0) == fmod(el0));
    assert(fmod(q0) == fmod(eq0));
    assert(fmod(qinf) == fmod(eq2));
    lemma_reduced_fixed(b1 as nat);
    lemma_mul_cong(l0, q0, el0, eq0);
    lemma_mul_cong(linf, qinf, el1, eq2);
    lemma_mul_cong(l0, b1, el0, b1);
    lemma_mul_cong(linf, q0, el1, eq0);
    lemma_mul_cong(l0, qinf, el0, eq2);
    lemma_mul_cong(linf, b1, el1, b1);
    lemma_add_reduced(l0 * b1, linf * q0);
    lemma_add_reduced(l0 * qinf, linf * b1);
    lemma_add_cong(l0 * b1, linf * q0, el0 * b1, el1 * eq0);
    lemma_add_cong(l0 * qinf, linf * b1, el0 * eq2, el1 * b1);
    assert(c[1] == fmod(el0 * b1 + el1 * eq0));
    assert(c[2] == fmod(el0 * eq2 + el1 * b1));
    let x1 = el0 * b1 + el1 * eq0;
    let x2 = el0 * eq2 + el1 * b1;
    lemma_reduced_fixed(c[1]);
    lemma_reduced_fixed(c[2]);
    lemma_mul_cong(el1, c[1] as int, el1, x1);
    lemma_mul_cong(el0, c[2] as int, el0, x2);
    lemma_sub_cong(el1 * c[1], el0 * c[2], el1 * x1, el0 * x2);
    assert(el1 * x1 - el0 * x2 == el1 * el1 * eq0 - el0 * el0 * eq2) by (nonlinear_arith)
        requires
            x1 == el0 * b1 + el1 * eq0,
            x2 == el0 * eq2 + el1 * b1,
    ;
}

/// The cubic NIFS round polynomial from the current claim and the round
/// claims, as its coefficients from the constant term up. Fails with
/// `DivisionByZero` when `rho` is zero, since `q(1)` is then not determined.
pub fn generate_nifs_field_round_polynomial(
    rho: &Scalar,
    acc_eq: &Scalar,
    t_cur: &Scalar,
    e0: &Scalar,
    quad_coeff: &Scalar,
) -> (r: Result<Vec<Scalar>, SpartanError>)
    ensures
        r is Ok <==> rho@ != 0,
        r is Err ==> r == Err::<Vec<Scalar>, SpartanError>(SpartanError::DivisionByZero),
        r matches Ok(p) ==> scalar_values(p@) == round_poly_coeffs(rho@, acc_eq@, t_cur@, e0@, quad_coeff@),
        r matches Ok(p) ==> fmod(
            poly_eval(scalar_values(p@), 0) as int + poly_eval(scalar_values(p@), 1) as int,
        ) == t_cur@,
        r matches Ok(p) ==> p@.len() == 4 && p@[0]@ == fmod((1 - rho@) * (e0@ * acc_eq@))
            && p@[3]@ == fmod((2 * rho@ - 1) * (quad_coeff@ * acc_eq@)),
        r matches Ok(p) ==> fmod((2 * rho@ - 1) * p@[1]@ - (1 - rho@) * p@[2]@) == fmod(
            (2 * rho@ - 1) * (2 * rho@ - 1) * (e0@ * acc_eq@) - (1 - rho@) * (1 - rho@) * (quad_coeff@
                * acc_eq@),
        ),
{
    let inv = match rho.invert() {
        Some(v) => v,
        None => {
            return Err(SpartanError::DivisionByZero);
        },
    };
    let one = Scalar::one();
    let l0 = one.sub(rho);
    let linf = rho.sub(&l0);
    let q0 = e0.mul(acc_eq);
    let qinf = quad_coeff.mul(acc_eq);
    let q1 = t_cur.sub(&l0.mul(&q0)).mul(&inv);
    let b1 = q1.sub(&q0).sub(&qinf);
    let c0 = l0.mul(&q0);
    let c1 = l0.mul(&b1).add(&linf.mul(&q0));
    let c2 = l0.mul(&qinf).add(&linf.mul(&b1));
    let c3 = linf.mul(&qinf);
    let p = vec![c0, c1, c2, c3];
    proof {
        assert(scalar_values(p@) =~= round_poly_coeffs(rho@, acc_eq@, t_cur@, e0@, quad_coeff@));
        crate::field::lemma_scalar_lt_modulus(*t_cur);
        law_round_poly_sums_to_claim(rho@, acc_eq@, t_cur@, e0@, quad_coeff@);
        law_round_poly_factors(rho@, acc_eq@, t_cur@, e0@, quad_coeff@);
        assert(p@[0]@ == scalar_values(p@)[0]);
        assert(p@[1]@ == scalar_values(p@)[1]);
        assert(p@[2]@ == scalar_values(p@)[2]);
        assert(p@[3]@ == scalar_values(p@)[3]);
    }
    Ok(p)
}

/// The value at `r` of the polynomial with coefficients `coeffs`, constant
/// term first.
pub fn evaluate_poly(coeffs: &[Scalar], r: &Scalar) -> (v: Scalar)
    ensures
        v@ == poly_eval(scalar_values(coeffs@), r@),
{
    let ghost c = scalar_values(coeffs@);
    let mut acc = Scalar::zero();
    let mut i = coeffs.len();
    proof {
        assert(c.subrange(i as int, c.len() as int) =~= Seq::<nat>::empty());
    }
    while i > 0
        invariant
            i <= coeffs@.len(),
            c == scalar_values(coeffs@),
            acc@ == poly_eval(c.subrange(i as int, c.len() as int), r@),
        decreases i,
    {
        let j = i - 1;
        proof {
            let tail = c.subrange(j as int, c.len() as int);
            assert(tail.drop_first() =~= c.subrange(i as int, c.len() as int));
            assert(tail[0] == coeffs@[j as int]@);
        }
        acc = coeffs[j].add(&r.mul(&acc));
        i = j;
    }
    proof {
        assert(c.subrange(0, c.len() as int) =~= c);
    }
    acc
}

/// `(1 - r) * (1 - rho) + r * rho`: the eq factor of one folded round.
pub open spec fn eq_round_factor(rho: nat, r: nat) -> nat {
    fmod(fmod(fmod(1 - r) as int * fmod(1 - rho) as int) as int + fmod(r as int * rho as int) as int)
}

/// Fold the layer pairs `(2i, 2i + 1)` of three equally long families into
/// layer `i` with challenge `r`, keeping the first half.
fn fold_families_in_half(
    a_layers: Vec<Vec<Scalar>>,
    b_layers: Vec<Vec<Scalar>>,
    c_layers: Vec<Vec<Scalar>>,
    r: Scalar,
    Ghost(width): Ghost<int>,
) -> (out: (Vec<Vec<Scalar>>, Vec<Vec<Scalar>>, Vec<Vec<Scalar>>))
    requires
        b_layers@.len() == a_layers@.len(),
        c_layers@.len() == a_layers@.len(),
        a_layers@.len() % 2 == 0,
        all_layers_have_len(a_layers@, width),
        all_layers_have_len(b_layers@, width),
        all_layers_have_len(c_layers@, width),
    ensures
        out.0@.len() == a_layers@.len() / 2,
        out.1@.len() == a_layers@.len() / 2,
        out.2@.len() == a_layers@.len() / 2,
        all_layers_have_len(out.0@, width),
        all_layers_have_len(out.1@, width),
        all_layers_have_len(out.2@, width),
        forall|i: int|
            0 <= i < a_layers@.len() / 2 ==> is_folded_layer(
                (#[trigger] out.0@[i])@,
                a_layers@[2 * i]@,
                a_layers@[2 * i + 1]@,
                r@,
            ) && is_folded_layer(out.1@[i]@, b_layers@[2 * i]@, b_layers@[2 * i + 1]@, r@)
                && is_folded_layer(out.2@[i]@, c_layers@[2 * i]@, c_layers@[2 * i + 1]@, r@),
{
    let ghost a0 = a_layers@;
    let ghost b0 = b_layers@;
    let ghost c0 = c_layers@;
    let mut a = a_layers;
    let mut b = b_layers;
    let mut c = c_layers;
    let pairs = a.len() / 2;
    fold_abc_pairs(&mut a, &mut b, &mut c, pairs, r);
    let ghost af = a@;
    a.truncate(pairs);
    b.truncate(pairs);
    c.truncate(pairs);
    proof {
        assert forall|i: int| 0 <= i < pairs implies (#[trigger] a@[i])@.len() == width by {
            assert(is_folded_layer(a@[i]@, a0[2 * i]@, a0[2 * i + 1]@, r@));
        }
        assert forall|i: int| 0 <= i < pairs implies (#[trigger] b@[i])@.len() == width by {
            assert(af[i] == a@[i]);
            assert(is_folded_layer(b@[i]@, b0[2 * i]@, b0[2 * i + 1]@, r@));
        }
        assert forall|i: int| 0 <= i < pairs implies (#[trigger] c@[i])@.len() == width by {
            assert(af[i] == a@[i]);
            assert(is_folded_layer(c@[i]@, c0[2 * i]@, c0[2 * i + 1]@, r@));
        }
    }
    (a, b, c)
}

/// The message of a step whose layer counts differ from the instance count.
pub open spec fn step_count_failure(a: nat, b: nat, c: nat, n: nat) -> Seq<char> {
    "NIFS received step matvec layer lengths A="@ + decimal_text(a as int) + ", B="@ + decimal_text(
        b as int,
    ) + ", C="@ + decimal_text(c as int) + " but "@ + decimal_text(n as int) + " instances"@
}

/// The message of a small cache whose layer counts differ from the instance
/// count.
pub open spec fn small_count_failure(a: nat, b: nat, c: nat, n: nat) -> Seq<char> {
    "regular small path received small layer lengths A="@ + decimal_text(a as int) + ", B="@
        + decimal_text(b as int) + ", C="@ + decimal_text(c as int) + " but "@ + decimal_text(
        n as int,
    ) + " instances"@
}

/// The first failed up-front check of the NIFS inputs, in the order the
/// prover makes them: a requested small path needs its cache, built for one
/// small round; the field layers must number `n` in each family; and a small
/// path needs `n` small layers per family, each of length `w`.
pub open spec fn nifs_step_input_failure(
    step: NeutronNovaStepMatvecs,
    use_small: bool,
    n: nat,
    w: int,
) -> Option<Seq<char>> {
    let fa = step.field.az@.len();
    let fb = step.field.bz@.len();
    let fc = step.field.cz@.len();
    if use_small && step.small_abc is None {
        Some("regular small optimization requested but small A/B/C matvecs are missing"@)
    } else if use_small && step.small_abc->Some_0.ab.l0 != 1 {
        Some(
            "regular NeutronNova small path requires l0=1 but received "@ + decimal_text(
                step.small_abc->Some_0.ab.l0 as int,
            ),
        )
    } else if fa != n || fb != n || fc != n {
        Some(step_count_failure(fa, fb, fc, n))
    } else if !use_small {
        None
    } else {
        let small = step.small_abc->Some_0;
        let sa = small.ab.az_small@.len();
        let sb = small.ab.bz_small@.len();
        let sc = small.cz_small@.len();
        if sa != n || sb != n || sc != n {
            Some(small_count_failure(sa, sb, sc, n))
        } else if !(all_layers_have_len(small.ab.az_small@, w) && all_layers_have_len(
            small.ab.bz_small@,
            w,
        ) && all_layers_have_len(small.cz_small@, w)) {
            Some("regular small path requires small layers of length "@ + decimal_text(w))
        } else {
            None
        }
    }
}

/// The up-front checks of the NIFS prover on its step matvecs, for
/// `num_instances` instances and layers of length `left * right`; see
/// [`nifs_step_input_failure`].
pub fn validate_nifs_step_inputs(
    step: &NeutronNovaStepMatvecs,
    use_small: bool,
    num_instances: usize,
    left: usize,
    right: usize,
) -> (r: Result<(), SpartanError>)
    requires
        left * right <= usize::MAX,
    ensures
        reports(r, nifs_step_input_failure(*step, use_small, num_instances as nat, left * right)),
{
    let expected_len = left * right;
    if use_small {
        match &step.small_abc {
            None => {
                return Err(
                    invalid_input(
                        "regular small optimization requested but small A/B/C matvecs are missing",
                    ),
                );
            },
            Some(small) => {
                if small.ab.l0 != 1 {
                    let reason = text_with_number(
                        "regular NeutronNova small path requires l0=1 but received ",
                        small.ab.l0,
                        "",
                    );
                    proof {
                        reveal_strlit("");
                        assert(reason@ =~= "regular NeutronNova small path requires l0=1 but received "@
                            + decimal_text(small.ab.l0 as int));
                    }
                    return Err(invalid_input_owned(reason));
                }
            },
        }
    }
    let n = num_instances;
    let fa = step.field.az.len();
    let fb = step.field.bz.len();
    let fc = step.field.cz.len();
    if fa != n || fb != n || fc != n {
        let head = text_with_two_numbers("NIFS received step matvec layer lengths A=", fa, ", B=", fb, ", C=");
        let tail = text_with_two_numbers("", fc, " but ", n, " instances");
        let reason = concat(head.as_str(), tail.as_str());
        proof {
            reveal_strlit("");
            assert(reason@ =~= step_count_failure(fa as nat, fb as nat, fc as nat, n as nat));
        }
        return Err(invalid_input_owned(reason));
    }
    if use_small {
        match &step.small_abc {
            None => {
                return Ok(());
            },
            Some(small) => {
                let sa = small.ab.az_small.len();
                let sb = small.ab.bz_small.len();
                let sc = small.cz_small.len();
                if sa != n || sb != n || sc != n {
                    let head = text_with_two_numbers(
                        "regular small path received small layer lengths A=",
                        sa,
                        ", B=",
                        sb,
                        ", C=",
                    );
                    let tail = text_with_two_numbers("", sc, " but ", n, " instances");
                    let reason = concat(head.as_str(), tail.as_str());
                    proof {
                        reveal_strlit("");
                        assert(reason@ =~= small_count_failure(sa as nat, sb as nat, sc as nat, n as nat));
                    }
                    return Err(invalid_input_owned(reason));
                }
                let a_ok = validate_layer_family("A", small.ab.az_small.as_slice(), expected_len).is_ok();
                let b_ok = validate_layer_family("B", small.ab.bz_small.as_slice(), expected_len).is_ok();
                let c_ok = validate_layer_family("C", small.cz_small.as_slice(), expected_len).is_ok();
                if !(a_ok && b_ok && c_ok) {
                    let reason = text_with_number(
                        "regular small path requires small layers of length ",
                        expected_len,
                        "",
                    );
                    proof {
                        reveal_strlit("");
                        assert(reason@ =~= "regular small path requires small layers of length "@
                            + decimal_text(expected_len as int));
                    }
                    return Err(invalid_input_owned(reason));
                }
            },
        }
    }
    Ok(())
}

/// `s` padded to `m` layers with copies of its first layer.
pub open spec fn padded_with_first(s: Seq<Vec<Scalar>>, m: nat) -> Seq<Vec<Scalar>> {
    Seq::new(m, |i: int| if i < s.len() { s[i] } else { s[0] })
}

/// `out` holds, layer by layer, the values of `s` padded to `m` layers with
/// copies of its first layer.
pub open spec fn pads_to(out: Seq<Vec<Scalar>>, s: Seq<Vec<Scalar>>, m: nat) -> bool {
    &&& out.len() == m
    &&& forall|i: int| 0 <= i < m ==> (#[trigger] out[i])@ == padded_with_first(s, m)[i]@
}

/// Two families with the same layer lengths agree on every length check.
proof fn lemma_same_layer_lengths(x: Seq<Vec<Scalar>>, y: Seq<Vec<Scalar>>, w: int)
    requires
        x.len() == y.len(),
        forall|i: int| 0 <= i < x.len() ==> (#[trigger] x[i])@.len() == y[i]@.len(),
    ensures
        all_layers_have_len(x, w) == all_layers_have_len(y, w),
        forall|label: Seq<char>| family_failure(label, x, w) == #[trigger] family_failure(label, y, w),
{
    if all_layers_have_len(x, w) {
        assert forall|i: int| 0 <= i < y.len() implies (#[trigger] y[i])@.len() == w by {
            assert(x[i]@.len() == w);
        }
    }
    if all_layers_have_len(y, w) {
        assert forall|i: int| 0 <= i < x.len() implies (#[trigger] x[i])@.len() == w by {
            assert(y[i]@.len() == w);
        }
    }
}

/// Pad `layers` to `m` layers with clones of its first layer.
fn pad_with_first(layers: Vec<Vec<Scalar>>, m: usize) -> (out: Vec<Vec<Scalar>>)
    requires
        0 < layers@.len() <= m,
    ensures
        pads_to(out@, layers@, m as nat),
{
    let ghost s = layers@;
    let mut out = layers;
    let additional = m - out.len();
    extend_with_first_clones(&mut out, additional);
    proof {
        assert forall|i: int| 0 <= i < m implies (#[trigger] out@[i])@ == padded_with_first(s, m as nat)[i]@ by {
            if i >= s.len() {
                if !(out@[i] == s[0]) {
                    assert(vstd::std_specs::vec::vec_clone_trigger(s[0], out@[i]));
                }
            }
        }
    }
    out
}

/// Layer `l` of the small `A/B` layers agrees with the field layers at
/// position `k`: zero at a listed position, the field value elsewhere.
pub open spec fn small_ab_entry_ok(
    a_small: Seq<Vec<i64>>,
    b_small: Seq<Vec<i64>>,
    a: Seq<Vec<Scalar>>,
    b: Seq<Vec<Scalar>>,
    pos: Seq<usize>,
    l: int,
    k: int,
) -> bool {
    if pos.contains(k as usize) {
        a_small[l]@[k] == 0 && b_small[l]@[k] == 0
    } else {
        fmod(a_small[l]@[k] as int) == a[l]@[k]@ && fmod(b_small[l]@[k] as int) == b[l]@[k]@
    }
}

/// The small `A/B` layers stand for the field layers: one small layer of
/// length `w` per field layer, increasing listed positions below `w`, and
/// every entry agreeing as [`small_ab_entry_ok`] says.
pub open spec fn small_ab_layers_denote(
    a_small: Seq<Vec<i64>>,
    b_small: Seq<Vec<i64>>,
    a: Seq<Vec<Scalar>>,
    b: Seq<Vec<Scalar>>,
    pos: Seq<usize>,
    w: int,
) -> bool {
    &&& a_small.len() == a.len()
    &&& b_small.len() == b.len()
    &&& forall|i: int, j: int| 0 <= i < j < pos.len() ==> pos[i] < pos[j]
    &&& forall|p: int| 0 <= p < pos.len() ==> #[trigger] pos[p] < w
    &&& forall|l: int| 0 <= l < a.len() ==> (#[trigger] a_small[l])@.len() == w
    &&& forall|l: int| 0 <= l < b.len() ==> (#[trigger] b_small[l])@.len() == w
    &&& forall|l: int, k: int|
        0 <= l < a.len() && 0 <= k < w ==> #[trigger] small_ab_entry_ok(a_small, b_small, a, b, pos, l, k)
}

/// The first-round `e0` claim is zero whatever the layers.
proof fn lemma_first_round_e0_is_zero(
    a: Seq<Vec<Scalar>>,
    b: Seq<Vec<Scalar>>,
    c: Seq<Vec<Scalar>>,
    e: Seq<Scalar>,
    left: int,
    right: int,
    rhos: Seq<Scalar>,
    n: nat,
)
    ensures
        field_round_e0(a, b, c, e, left, right, rhos, 0, n) == 0,
    decreases n,
{
    if n > 0 {
        lemma_first_round_e0_is_zero(a, b, c, e, left, right, rhos, (n - 1) as nat);
    }
}

/// The state of the NIFS rounds: the `A/B/C` layers still to be folded, the
/// split eq table and its shape, the round challenges `rhos`, the index of
/// the next round, the running sum-check claim `t_cur`, the accumulated eq
/// factor `acc_eq`, and the folding challenges drawn so far.
pub struct NifsFoldState {
    pub a_layers: Vec<Vec<Scalar>>,
    pub b_layers: Vec<Vec<Scalar>>,
    pub c_layers: Vec<Vec<Scalar>>,
    pub e_eq: Vec<Scalar>,
    pub left: usize,
    pub right: usize,
    pub rhos: Vec<Scalar>,
    pub round: usize,
    pub t_cur: Scalar,
    pub acc_eq: Scalar,
    pub r_bs: Vec<Scalar>,
}

impl NifsFoldState {
    /// The state is well formed: `2^(ell_b - round)` layers in each family,
    /// each of length `left * right`, an eq table of `left + right` entries,
    /// and one drawn challenge per finished round.
    pub open spec fn wf(&self) -> bool {
        &&& self.round <= self.rhos@.len()
        &&& self.r_bs@.len() == self.round
        &&& self.a_layers@.len() == pow2((self.rhos@.len() - self.round) as nat)
        &&& self.b_layers@.len() == self.a_layers@.len()
        &&& self.c_layers@.len() == self.a_layers@.len()
        &&& self.left * self.right <= usize::MAX
        &&& self.left + self.right <= usize::MAX
        &&& self.e_eq@.len() == self.left + self.right
        &&& all_layers_have_len(self.a_layers@, self.left * self.right)
        &&& all_layers_have_len(self.b_layers@, self.left * self.right)
        &&& all_layers_have_len(self.c_layers@, self.left * self.right)
    }

    /// The state before the first round: the layers, which must number
    /// `num_instances` in each family, padded to `2^ell_b` with copies of the
    /// first, checked as the first round checks them, with the claim at zero
    /// and the eq accumulator at one. `rhos` holds the `ell_b` round
    /// challenges drawn for `num_instances` instances, so `2^ell_b` is the
    /// least power of two not below `num_instances`.
    pub fn start(
        num_instances: usize,
        a_layers: Vec<Vec<Scalar>>,
        b_layers: Vec<Vec<Scalar>>,
        c_layers: Vec<Vec<Scalar>>,
        e_eq: &[Scalar],
        left: usize,
        right: usize,
        rhos: &[Scalar],
    ) -> (r: Result<NifsFoldState, SpartanError>)
        requires
            1 <= num_instances <= pow2(rhos@.len() as nat) <= usize::MAX,
            rhos@.len() > 0 ==> pow2((rhos@.len() - 1) as nat) < num_instances,
        ensures
            a_layers@.len() != num_instances || b_layers@.len() != num_instances
                || c_layers@.len() != num_instances ==> fails_with(
                r,
                step_count_failure(
                    a_layers@.len(),
                    b_layers@.len(),
                    c_layers@.len(),
                    num_instances as nat,
                ),
            ),
            a_layers@.len() == num_instances && b_layers@.len() == num_instances
                && c_layers@.len() == num_instances ==> reports(
                r,
                materialized_round_failure(
                    NifsRoundShape { e_eq, left, right, rhos, round: 0 },
                    padded_with_first(a_layers@, pow2(rhos@.len() as nat)),
                    padded_with_first(b_layers@, pow2(rhos@.len() as nat)),
                    padded_with_first(c_layers@, pow2(rhos@.len() as nat)),
                ),
            ),
            r matches Ok(s) ==> {
                &&& s.wf()
                &&& s.round == 0
                &&& s.t_cur@ == 0
                &&& s.acc_eq@ == 1
                &&& s.e_eq@ == e_eq@
                &&& s.left == left
                &&& s.right == right
                &&& s.rhos@ == rhos@
                &&& pads_to(s.a_layers@, a_layers@, pow2(rhos@.len() as nat))
                &&& pads_to(s.b_layers@, b_layers@, pow2(rhos@.len() as nat))
                &&& pads_to(s.c_layers@, c_layers@, pow2(rhos@.len() as nat))
            },
    {
        if a_layers.len() != num_instances || b_layers.len() != num_instances
            || c_layers.len() != num_instances {
            let head = text_with_two_numbers(
                "NIFS received step matvec layer lengths A=",
                a_layers.len(),
                ", B=",
                b_layers.len(),
                ", C=",
            );
            let tail = text_with_two_numbers("", c_layers.len(), " but ", num_instances, " instances");
            let reason = concat(head.as_str(), tail.as_str());
            proof {
                reveal_strlit("");
                assert(reason@ =~= step_count_failure(
                    a_layers@.len(),
                    b_layers@.len(),
                    c_layers@.len(),
                    num_instances as nat,
                ));
            }
            return Err(invalid_input_owned(reason));
        }
        let ell_b = rhos.len();
        proof {
            vstd::arithmetic::power2::lemma2_to64();
        }
        let mut n_padded: usize = 1;
        let mut i: usize = 0;
        while i < ell_b
            invariant
                i <= ell_b,
                ell_b == rhos@.len(),
                n_padded == pow2(i as nat),
                pow2(ell_b as nat) <= usize::MAX,
            decreases ell_b - i,
        {
            proof {
                vstd::arithmetic::power2::lemma_pow2_unfold((i + 1) as nat);
                if i + 1 < ell_b {
                    vstd::arithmetic::power2::lemma_pow2_strictly_increases((i + 1) as nat, ell_b as nat);
                }
            }
            n_padded = n_padded * 2;
            i = i + 1;
        }
        let ghost a0 = a_layers@;
        let ghost b0 = b_layers@;
        let ghost c0 = c_layers@;
        let a_layers = pad_with_first(a_layers, n_padded);
        let b_layers = pad_with_first(b_layers, n_padded);
        let c_layers = pad_with_first(c_layers, n_padded);
        let shape = NifsRoundShape { e_eq, left, right, rhos, round: 0 };
        let checked = validate_materialized_c_round_inputs(
            shape,
            a_layers.as_slice(),
            b_layers.as_slice(),
            c_layers.as_slice(),
        );
        proof {
            let m = n_padded as nat;
            let w = left * right;
            lemma_same_layer_lengths(a_layers@, padded_with_first(a0, m), w);
            lemma_same_layer_lengths(b_layers@, padded_with_first(b0, m), w);
            lemma_same_layer_lengths(c_layers@, padded_with_first(c0, m), w);
            assert(family_failure("A"@, a_layers@, w) == family_failure("A"@, padded_with_first(a0, m), w));
            assert(family_failure("B"@, b_layers@, w) == family_failure("B"@, padded_with_first(b0, m), w));
            assert(family_failure("C"@, c_layers@, w) == family_failure("C"@, padded_with_first(c0, m), w));
        }
        match checked {
            Ok(()) => {},
            Err(e) => {
                return Err(e);
            },
        }
        let zero = Scalar::zero();
        let one = Scalar::one();
        Ok(NifsFoldState {
            a_layers,
            b_layers,
            c_layers,
            e_eq: vstd::slice::slice_to_vec(e_eq),
            left,
            right,
            rhos: vstd::slice::slice_to_vec(rhos),
            round: 0,
            t_cur: zero,
            acc_eq: one,
            r_bs: Vec::new(),
        })
    }

    /// The challenge `rho` of the current round.
    pub open spec fn round_rho(&self) -> nat {
        self.rhos@[self.round as int]@
    }

    /// The weighted claims `(e0, quad)` of the current round over all layer
    /// pairs.
    pub open spec fn round_claims(&self) -> (nat, nat) {
        (
            fmod(
                field_round_e0(
                    self.a_layers@,
                    self.b_layers@,
                    self.c_layers@,
                    self.e_eq@,
                    self.left as int,
                    self.right as int,
                    self.rhos@,
                    self.round as int,
                    self.a_layers@.len() / 2,
                ),
            ),
            fmod(
                round_quad(
                    self.a_layers@,
                    self.b_layers@,
                    self.e_eq@,
                    self.left as int,
                    self.right as int,
                    self.rhos@,
                    self.round as int,
                    self.a_layers@.len() / 2,
                ),
            ),
        )
    }

    /// The coefficients of the round polynomial of the current round.
    pub open spec fn round_poly(&self) -> Seq<nat> {
        round_poly_coeffs(
            self.round_rho(),
            self.acc_eq@,
            self.t_cur@,
            self.round_claims().0,
            self.round_claims().1,
        )
    }

    /// `next` is this state after the current round with challenge `r`:
    /// every layer pair `(2i, 2i + 1)` folded into layer `i`, the round
    /// advanced, the claim replaced by the round polynomial at `r`, the eq
    /// accumulator multiplied by the round's eq factor, and `r` recorded.
    pub open spec fn advances_to(&self, next: &NifsFoldState, r: Scalar) -> bool {
        let half = self.a_layers@.len() / 2;
        &&& next.a_layers@.len() == half
        &&& next.b_layers@.len() == half
        &&& next.c_layers@.len() == half
        &&& forall|i: int|
            0 <= i < half ==> is_folded_layer(
                (#[trigger] next.a_layers@[i])@,
                self.a_layers@[2 * i]@,
                self.a_layers@[2 * i + 1]@,
                r@,
            ) && is_folded_layer(
                next.b_layers@[i]@,
                self.b_layers@[2 * i]@,
                self.b_layers@[2 * i + 1]@,
                r@,
            ) && is_folded_layer(
                next.c_layers@[i]@,
                self.c_layers@[2 * i]@,
                self.c_layers@[2 * i + 1]@,
                r@,
            )
        &&& next.e_eq@ == self.e_eq@
        &&& next.left == self.left
        &&& next.right == self.right
        &&& next.rhos@ == self.rhos@
        &&& next.round == self.round + 1
        &&& next.t_cur@ == poly_eval(self.round_poly(), r@)
        &&& next.acc_eq@ == fmod(self.acc_eq@ as int * eq_round_factor(self.round_rho(), r@) as int)
        &&& next.r_bs@ == self.r_bs@.push(r)
    }

    /// The round polynomial of the current round, from the weighted claims of
    /// all layer pairs; `DivisionByZero` when the round's `rho` is zero.
    pub fn nifs_round_polynomial(&self) -> (r: Result<Vec<Scalar>, SpartanError>)
        requires
            self.wf(),
            self.round < self.rhos@.len(),
        ensures
            r is Ok <==> self.round_rho() != 0,
            r is Err ==> r == Err::<Vec<Scalar>, SpartanError>(SpartanError::DivisionByZero),
            r matches Ok(p) ==> scalar_values(p@) == self.round_poly(),
    {
        proof {
            let k = (self.rhos@.len() - self.round) as nat;
            vstd::arithmetic::power2::lemma_pow2_unfold(k);
            vstd::arithmetic::power2::lemma_pow2_pos((k - 1) as nat);
        }
        let claims = compute_field_round_claim(
            self.a_layers.as_slice(),
            self.b_layers.as_slice(),
            self.c_layers.as_slice(),
            self.e_eq.as_slice(),
            self.left,
            self.right,
            self.rhos.as_slice(),
            self.round,
        );
        let (e0, quad) = match claims {
            Ok(v) => v,
            Err(e) => {
                proof {
                    assert(false);
                }
                return Err(e);
            },
        };
        generate_nifs_field_round_polynomial(
            &self.rhos[self.round],
            &self.acc_eq,
            &self.t_cur,
            &e0,
            &quad,
        )
    }

    /// The round polynomial of the first round from the small `A/B` layers:
    /// its quadratic claim sums, per layer pair, the small-value products
    /// plus the field products at the listed positions, and its `e0` claim is
    /// zero. It equals the polynomial of the field layers.
    pub fn small_round_polynomial(
        &self,
        a_small: &[Vec<i64>],
        b_small: &[Vec<i64>],
        positions: &[usize],
    ) -> (r: Result<Vec<Scalar>, SpartanError>)
        requires
            self.wf(),
            self.round == 0,
            self.rhos@.len() > 0,
            small_ab_layers_denote(
                a_small@,
                b_small@,
                self.a_layers@,
                self.b_layers@,
                positions@,
                self.left * self.right,
            ),
        ensures
            r is Ok <==> self.round_rho() != 0,
            r is Err ==> r == Err::<Vec<Scalar>, SpartanError>(SpartanError::DivisionByZero),
            r matches Ok(p) ==> scalar_values(p@) == self.round_poly(),
    {
        proof {
            let k = self.rhos@.len() as nat;
            vstd::arithmetic::power2::lemma_pow2_unfold(k);
            vstd::arithmetic::power2::lemma_pow2_pos((k - 1) as nat);
        }
        let left = self.left;
        let right = self.right;
        let ell_b = self.rhos.len();
        let n = self.a_layers.len();
        let pairs = n / 2;
        let ghost w = left * right;
        let mut quad = Scalar::zero();
        let mut p: usize = 0;
        while p < pairs
            invariant
                p <= pairs,
                pairs == n / 2,
                n == self.a_layers@.len(),
                self.a_layers@.len() % 2 == 0,
                ell_b == self.rhos@.len(),
                self.wf(),
                self.round == 0,
                w == left * right,
                left == self.left,
                right == self.right,
                small_ab_layers_denote(a_small@, b_small@, self.a_layers@, self.b_layers@, positions@, w),
                quad@ == fmod(
                    round_quad(
                        self.a_layers@,
                        self.b_layers@,
                        self.e_eq@,
                        left as int,
                        right as int,
                        self.rhos@,
                        0,
                        p as nat,
                    ),
                ),
            decreases pairs - p,
        {
            let i = 2 * p;
            let j = i + 1;
            assert(self.a_layers@[i as int]@.len() == w);
            assert(self.b_layers@[i as int]@.len() == w);
            assert(self.a_layers@[j as int]@.len() == w);
            assert(self.b_layers@[j as int]@.len() == w);
            assert(a_small@[i as int]@.len() == w);
            assert(b_small@[i as int]@.len() == w);
            assert(a_small@[j as int]@.len() == w);
            assert(b_small@[j as int]@.len() == w);
            let q = prove_helper_small(
                left,
                right,
                self.e_eq.as_slice(),
                self.a_layers[i].as_slice(),
                self.b_layers[i].as_slice(),
                self.a_layers[j].as_slice(),
                self.b_layers[j].as_slice(),
                a_small[i].as_slice(),
                b_small[i].as_slice(),
                a_small[j].as_slice(),
                b_small[j].as_slice(),
                positions,
            );
            let weight = suffix_weight_full(0, ell_b, p, self.rhos.as_slice());
            let term = q.mul(&weight);
            proof {
                let az1 = self.a_layers@[i as int]@;
                let bz1 = self.b_layers@[i as int]@;
                let az2 = self.a_layers@[j as int]@;
                let bz2 = self.b_layers@[j as int]@;
                assert forall|k: int| 0 <= k < left * right implies if positions@.contains(k as usize) {
                    &&& #[trigger] a_small@[i as int]@[k] == 0
                    &&& b_small@[i as int]@[k] == 0
                    &&& a_small@[j as int]@[k] == 0
                    &&& b_small@[j as int]@[k] == 0
                } else {
                    &&& fmod(a_small@[i as int]@[k] as int) == az1[k]@
                    &&& fmod(b_small@[i as int]@[k] as int) == bz1[k]@
                    &&& fmod(a_small@[j as int]@[k] as int) == az2[k]@
                    &&& fmod(b_small@[j as int]@[k] as int) == bz2[k]@
                } by {
                    assert(small_ab_entry_ok(a_small@, b_small@, self.a_layers@, self.b_layers@, positions@, i as int, k));
                    assert(small_ab_entry_ok(a_small@, b_small@, self.a_layers@, self.b_layers@, positions@, j as int, k));
                }
                law_small_round_quad_matches_field_quad(
                    self.e_eq@,
                    a_small@[i as int]@,
                    b_small@[i as int]@,
                    a_small@[j as int]@,
                    b_small@[j as int]@,
                    az1,
                    bz1,
                    az2,
                    bz2,
                    positions@,
                    left as nat,
                    right as nat,
                );
                assert(q@ == split_eq_claim(self.e_eq@, diff_product_vals(az1, bz1, az2, bz2), left as int, right as int));
                let sq = round_quad(
                    self.a_layers@,
                    self.b_layers@,
                    self.e_eq@,
                    left as int,
                    right as int,
                    self.rhos@,
                    0,
                    p as nat,
                );
                lemma_add_reduced(sq, (q@ * weight@) as int);
                lemma_reduced_fixed(fmod(sq));
            }
            quad = quad.add(&term);
            p = p + 1;
        }
        proof {
            lemma_first_round_e0_is_zero(
                self.a_layers@,
                self.b_layers@,
                self.c_layers@,
                self.e_eq@,
                left as int,
                right as int,
                self.rhos@,
                pairs as nat,
            );
        }
        let e0 = Scalar::zero();
        generate_nifs_field_round_polynomial(&self.rhos[0], &self.acc_eq, &self.t_cur, &e0, &quad)
    }

    /// The first NIFS round on the small `A/B` layers: the round polynomial of
    /// [`Self::small_round_polynomial`], which is that of the field layers,
    /// and the state after folding every layer pair with `r_b`, as
    /// [`Self::nifs_round_step`] folds it.
    pub fn small_nifs_round_step(
        self,
        a_small: &[Vec<i64>],
        b_small: &[Vec<i64>],
        positions: &[usize],
        r_b: &Scalar,
    ) -> (r: Result<(NifsFoldState, Vec<Scalar>), SpartanError>)
        requires
            self.wf(),
            self.round == 0,
            self.rhos@.len() > 0,
            small_ab_layers_denote(
                a_small@,
                b_small@,
                self.a_layers@,
                self.b_layers@,
                positions@,
                self.left * self.right,
            ),
        ensures
            r is Ok <==> self.round_rho() != 0,
            r is Err ==> r == Err::<(NifsFoldState, Vec<Scalar>), SpartanError>(
                SpartanError::DivisionByZero,
            ),
            r matches Ok((next, p)) ==> {
                &&& scalar_values(p@) == self.round_poly()
                &&& next.wf()
                &&& self.advances_to(&next, *r_b)
            },
    {
        let poly = match self.small_round_polynomial(a_small, b_small, positions) {
            Ok(p) => p,
            Err(e) => {
                return Err(e);
            },
        };
        Ok(self.advance_with(poly, r_b))
    }

    /// One NIFS round: the round polynomial of the current round, and the
    /// state after folding every layer pair with the challenge `r_b` drawn
    /// for that polynomial. `DivisionByZero` when the round's `rho` is zero.
    pub fn nifs_round_step(self, r_b: &Scalar) -> (r: Result<(NifsFoldState, Vec<Scalar>), SpartanError>)
        requires
            self.wf(),
            self.round < self.rhos@.len(),
        ensures
            r is Ok <==> self.round_rho() != 0,
            r is Err ==> r == Err::<(NifsFoldState, Vec<Scalar>), SpartanError>(
                SpartanError::DivisionByZero,
            ),
            r matches Ok((next, p)) ==> {
                &&& scalar_values(p@) == self.round_poly()
                &&& next.wf()
                &&& self.advances_to(&next, *r_b)
            },
    {
        let poly = match self.nifs_round_polynomial() {
            Ok(p) => p,
            Err(e) => {
                return Err(e);
            },
        };
        Ok(self.advance_with(poly, r_b))
    }

    /// The state after the current round with challenge `r_b`, given the
    /// round polynomial, handed back with it.
    #[verifier::spinoff_prover]
    fn advance_with(self, poly: Vec<Scalar>, r_b: &Scalar) -> (out: (NifsFoldState, Vec<Scalar>))
        requires
            self.wf(),
            self.round < self.rhos@.len(),
            scalar_values(poly@) == self.round_poly(),
        ensures
            out.1@ == poly@,
            out.0.wf(),
            self.advances_to(&out.0, *r_b),
    {
        let t_next = evaluate_poly(poly.as_slice(), r_b);
        let one = Scalar::one();
        let rho = self.rhos[self.round];
        let factor = one.sub(r_b).mul(&one.sub(&rho)).add(&r_b.mul(&rho));
        let acc_next = self.acc_eq.mul(&factor);
        let ell_b = self.rhos.len();
        assert(self.round < ell_b);
        let next_round = self.round + 1;
        let NifsFoldState {
            a_layers,
            b_layers,
            c_layers,
            e_eq,
            left,
            right,
            rhos,
            round,
            t_cur: _,
            acc_eq: _,
            mut r_bs,
        } = self;
        proof {
            let k = (rhos@.len() - round) as nat;
            vstd::arithmetic::power2::lemma_pow2_unfold(k);
        }
        let (a_layers, b_layers, c_layers) = fold_families_in_half(
            a_layers,
            b_layers,
            c_layers,
            *r_b,
            Ghost((left * right) as int),
        );
        r_bs.push(*r_b);
        let next = NifsFoldState {
            a_layers,
            b_layers,
            c_layers,
            e_eq,
            left,
            right,
            rhos,
            round: next_round,
            t_cur: t_next,
            acc_eq: acc_next,
            r_bs,
        };
        (next, poly)
    }
}

/// The state of the NIFS rounds whose `C` values are scalar claims: the
/// `A/B` layers, one `C` claim per layer, the split eq table and its shape,
/// the round challenges, the index of the next round, the running sum-check
/// claim, the accumulated eq factor, and the folding challenges drawn so far.
pub struct NifsClaimState<'a> {
    pub a_layers: Vec<Vec<Scalar>>,
    pub b_layers: Vec<Vec<Scalar>>,
    pub c_claims: Vec<Scalar>,
    pub e_eq: &'a [Scalar],
    pub left: usize,
    pub right: usize,
    pub rhos: &'a [Scalar],
    pub round: usize,
    pub t_cur: Scalar,
    pub acc_eq: Scalar,
    pub r_bs: Vec<Scalar>,
}

impl<'a> NifsClaimState<'a> {
    /// The shape of the current round.
    pub open spec fn shape(&self) -> NifsRoundShape<'a> {
        NifsRoundShape { e_eq: self.e_eq, left: self.left, right: self.right, rhos: self.rhos, round: self.round }
    }

    /// The first failed check of the current round's inputs, if any.
    pub open spec fn round_failure(&self) -> Option<Seq<char>> {
        scalar_round_failure(self.shape(), self.a_layers@, self.b_layers@, self.c_claims@)
    }

    /// The challenge `rho` of the current round.
    pub open spec fn round_rho(&self) -> nat {
        self.rhos@[self.round as int]@
    }

    /// The weighted claims `(e0, quad)` of the current round over all layer
    /// pairs, with `e0` taking the scalar `C` claims.
    pub open spec fn round_claims(&self) -> (nat, nat) {
        (
            fmod(
                claim_round_e0(
                    self.a_layers@,
                    self.b_layers@,
                    self.c_claims@,
                    self.e_eq@,
                    self.left as int,
                    self.right as int,
                    self.rhos@,
                    self.round as int,
                    self.a_layers@.len() / 2,
                ),
            ),
            fmod(
                round_quad(
                    self.a_layers@,
                    self.b_layers@,
                    self.e_eq@,
                    self.left as int,
                    self.right as int,
                    self.rhos@,
                    self.round as int,
                    self.a_layers@.len() / 2,
                ),
            ),
        )
    }

    /// The coefficients of the round polynomial of the current round.
    pub open spec fn round_poly(&self) -> Seq<nat> {
        round_poly_coeffs(
            self.round_rho(),
            self.acc_eq@,
            self.t_cur@,
            self.round_claims().0,
            self.round_claims().1,
        )
    }

    /// `next` is this state after the current round with challenge `r`:
    /// the `A/B` layer pairs and the `C` claim pairs `(2i, 2i + 1)` folded
    /// into `i`, the round advanced, the claim replaced by the round
    /// polynomial at `r`, the eq accumulator multiplied by the round's eq
    /// factor, and `r` recorded.
    pub open spec fn advances_to(&self, next: &NifsClaimState<'a>, r: Scalar) -> bool {
        let half = self.a_layers@.len() / 2;
        &&& next.a_layers@.len() == half
        &&& next.b_layers@.len() == half
        &&& next.c_claims@.len() == half
        &&& forall|i: int|
            0 <= i < half ==> is_folded_layer(
                (#[trigger] next.a_layers@[i])@,
                self.a_layers@[2 * i]@,
                self.a_layers@[2 * i + 1]@,
                r@,
            ) && is_folded_layer(
                next.b_layers@[i]@,
                self.b_layers@[2 * i]@,
                self.b_layers@[2 * i + 1]@,
                r@,
            ) && next.c_claims@[i]@ == fold_value(self.c_claims@[2 * i]@, self.c_claims@[2 * i + 1]@, r@)
        &&& next.e_eq == self.e_eq
        &&& next.left == self.left
        &&& next.right == self.right
        &&& next.rhos == self.rhos
        &&& next.round == self.round + 1
        &&& next.t_cur@ == poly_eval(self.round_poly(), r@)
        &&& next.acc_eq@ == fmod(self.acc_eq@ as int * eq_round_factor(self.round_rho(), r@) as int)
        &&& next.r_bs@ == self.r_bs@.push(r)
    }

    /// One NIFS round on `A/B` layers and scalar `C` claims: the checks of
    /// the round's inputs, the round polynomial, and the state after folding
    /// every pair with the challenge `r_b` drawn for that polynomial.
    /// `DivisionByZero` when the round's `rho` is zero.
    #[verifier::spinoff_prover]
    pub fn claim_round_step(self, r_b: &Scalar) -> (r: Result<(NifsClaimState<'a>, Vec<Scalar>), SpartanError>)
        ensures
            match self.round_failure() {
                Some(m) => fails_with(r, m),
                None => {
                    &&& r is Ok <==> self.round_rho() != 0
                    &&& r is Err ==> r == Err::<(NifsClaimState<'a>, Vec<Scalar>), SpartanError>(
                        SpartanError::DivisionByZero,
                    )
                    &&& r matches Ok((next, p)) ==> {
                        &&& scalar_values(p@) == self.round_poly()
                        &&& self.advances_to(&next, *r_b)
                    }
                },
            },
    {
        let claims = compute_ab_c_claim_round(
            self.a_layers.as_slice(),
            self.b_layers.as_slice(),
            self.c_claims.as_slice(),
            self.e_eq,
            self.left,
            self.right,
            self.rhos,
            self.round,
        );
        let (e0, quad) = match claims {
            Ok(v) => v,
            Err(e) => {
                return Err(e);
            },
        };
        let poly = match generate_nifs_field_round_polynomial(
            &self.rhos[self.round],
            &self.acc_eq,
            &self.t_cur,
            &e0,
            &quad,
        ) {
            Ok(p) => p,
            Err(e) => {
                return Err(e);
            },
        };
        let t_next = evaluate_poly(poly.as_slice(), r_b);
        let one = Scalar::one();
        let rho = self.rhos[self.round];
        let factor = one.sub(r_b).mul(&one.sub(&rho)).add(&r_b.mul(&rho));
        let acc_next = self.acc_eq.mul(&factor);
        let ell_b = self.rhos.len();
        assert(self.round < ell_b);
        let next_round = self.round + 1;
        let NifsClaimState {
            mut a_layers,
            mut b_layers,
            mut c_claims,
            e_eq,
            left,
            right,
            rhos,
            round: _,
            t_cur: _,
            acc_eq: _,
            mut r_bs,
        } = self;
        let pairs = a_layers.len() / 2;
        fold_ab_c_claim_pairs(&mut a_layers, &mut b_layers, &mut c_claims, pairs, *r_b);
        a_layers.truncate(pairs);
        b_layers.truncate(pairs);
        c_claims.truncate(pairs);
        r_bs.push(*r_b);
        Ok(
            (
                NifsClaimState {
                    a_layers,
                    b_layers,
                    c_claims,
                    e_eq,
                    left,
                    right,
                    rhos,
                    round: next_round,
                    t_cur: t_next,
                    acc_eq: acc_next,
                    r_bs,
                },
                poly,
            ),
        )
    }
}

/// `claims` are the split eq claims of the layers `c`, one per layer.
pub open spec fn claims_of_layers(
    claims: Seq<Scalar>,
    c: Seq<Vec<Scalar>>,
    e: Seq<Scalar>,
    left: int,
    right: int,
) -> bool {
    &&& claims.len() == c.len()
    &&& forall|i: int|
        0 <= i < c.len() ==> (#[trigger] claims[i])@ == split_eq_claim(e, field_vals(c[i]@), left, right)
}

/// After the first round, a round on scalar `C` claims publishes the
/// polynomial of the round on the `C` layers the claims were taken from,
/// when the two states agree on everything else.
pub proof fn law_claim_round_matches_field_round(fs: NifsFoldState, cs: NifsClaimState)
    requires
        cs.a_layers@ == fs.a_layers@,
        cs.b_layers@ == fs.b_layers@,
        cs.e_eq@ == fs.e_eq@,
        cs.left == fs.left,
        cs.right == fs.right,
        cs.rhos@ == fs.rhos@,
        cs.round == fs.round,
        cs.t_cur == fs.t_cur,
        cs.acc_eq == fs.acc_eq,
        fs.round != 0,
        fs.c_layers@.len() == fs.a_layers@.len(),
        claims_of_layers(cs.c_claims@, fs.c_layers@, fs.e_eq@, fs.left as int, fs.right as int),
    ensures
        cs.round_claims() == fs.round_claims(),
        cs.round_poly() == fs.round_poly(),
{
    let n = fs.a_layers@.len() / 2;
    assert forall|p: int| 0 <= p < n implies (#[trigger] cs.c_claims@[2 * p])@ == split_eq_claim(
        fs.e_eq@,
        field_vals(fs.c_layers@[2 * p]@),
        fs.left as int,
        fs.right as int,
    ) by {
        assert(2 * p < fs.c_layers@.len());
    }
    law_claim_round_matches_materialized_round(
        fs.a_layers@,
        fs.b_layers@,
        fs.c_layers@,
        cs.c_claims@,
        fs.e_eq@,
        fs.left as int,
        fs.right as int,
        fs.rhos@,
        fs.round as int,
        n,
    );
}

/// Folding the `C` claims pairwise keeps them the claims of the pairwise
/// folded `C` layers.
pub proof fn law_folded_claims_track_folded_layers(
    claims: Seq<Scalar>,
    c: Seq<Vec<Scalar>>,
    next_claims: Seq<Scalar>,
    next_c: Seq<Vec<Scalar>>,
    e: Seq<Scalar>,
    left: nat,
    right: nat,
    r: nat,
)
    requires
        claims_of_layers(claims, c, e, left as int, right as int),
        all_layers_have_len(c, (left * right) as int),
        next_c.len() == c.len() / 2,
        next_claims.len() == c.len() / 2,
        forall|i: int|
            0 <= i < c.len() / 2 ==> is_folded_layer(
                (#[trigger] next_c[i])@,
                c[2 * i]@,
                c[2 * i + 1]@,
                r,
            ) && next_claims[i]@ == fold_value(claims[2 * i]@, claims[2 * i + 1]@, r),
    ensures
        claims_of_layers(next_claims, next_c, e, left as int, right as int),
{
    assert forall|i: int| 0 <= i < next_c.len() implies (#[trigger] next_claims[i])@ == split_eq_claim(
        e,
        field_vals(next_c[i]@),
        left as int,
        right as int,
    ) by {
        assert(is_folded_layer(next_c[i]@, c[2 * i]@, c[2 * i + 1]@, r));
        assert(claims[2 * i]@ == split_eq_claim(e, field_vals(c[2 * i]@), left as int, right as int));
        assert(claims[2 * i + 1]@ == split_eq_claim(e, field_vals(c[2 * i + 1]@), left as int, right as int));
        assert(c[2 * i]@.len() == left * right);
        assert(c[2 * i + 1]@.len() == left * right);
        law_claim_of_folded_layer_is_folded_claim(e, c[2 * i]@, c[2 * i + 1]@, next_c[i]@, r, left, right);
    }
}

} // verus!
