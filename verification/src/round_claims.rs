//! Sum-check round claims of the NeutronNova NIFS: the constant term `e0`
//! and the quadratic coefficient of each round polynomial, from pairs of
//! `Az/Bz/Cz` layers weighted by the split equality table.

use crate::field::{field_modulus, fmod, lemma_fmod_range, lemma_scalar_lt_modulus, Scalar};
use crate::small_c::{field_vals, i64_vals, lemma_split_eq_sum_congruent, split_eq_dot, split_eq_sum};
use crate::small_int::SmallValue;
use crate::errors::SpartanError;
use crate::neutronnova_zk::{
    all_layers_have_len, round_shape_ok, suffix_weight_full, suffix_weight_upto,
    validate_materialized_c_round_inputs, validate_scalar_c_round_inputs, NifsRoundShape,
    materialized_round_failure, reports, scalar_round_failure,
};
use vstd::prelude::*;

verus! {

broadcast use {lemma_scalar_lt_modulus, lemma_fmod_range};

// ---------------------------------------------------------------------------
// Per-position values.
// ---------------------------------------------------------------------------

/// `a[k] * b[k]` at each position.
pub open spec fn ab_product_vals(a: Seq<Scalar>, b: Seq<Scalar>) -> spec_fn(int) -> int {
    |k: int| (a[k]@ * b[k]@) as int
}

/// `a[k] * b[k] - c[k]` at each position.
pub open spec fn abc_residual_vals(a: Seq<Scalar>, b: Seq<Scalar>, c: Seq<Scalar>) -> spec_fn(
    int,
) -> int {
    |k: int| a[k]@ * b[k]@ - c[k]@
}

/// `(a2[k] - a1[k]) * (b2[k] - b1[k])` at each position.
pub open spec fn diff_product_vals(
    a1: Seq<Scalar>,
    b1: Seq<Scalar>,
    a2: Seq<Scalar>,
    b2: Seq<Scalar>,
) -> spec_fn(int) -> int {
    |k: int| (a2[k]@ - a1[k]@) * (b2[k]@ - b1[k]@)
}

/// The split equality claim of per-position values: `sum_{i < right}
/// e[left + i] * sum_{j < left} e[j] * vals(i * left + j)` in the field.
pub open spec fn split_eq_claim(e: Seq<Scalar>, vals: spec_fn(int) -> int, left: int, right: int) -> nat {
    fmod(split_eq_sum(e, vals, left as nat, right as nat))
}

/// Whether the field values of `out` are, position by position, the reduced
/// `vals` over the first `n` positions.
pub open spec fn reduces_to(out: Seq<Scalar>, vals: spec_fn(int) -> int, n: nat) -> bool {
    &&& out.len() == n
    &&& forall|k: int| 0 <= k < n ==> fmod(#[trigger] field_vals(out)(k)) == fmod(vals(k))
}

/// `fmod` of a product of reduced factors is that of the product.
proof fn lemma_mul_reduced(x: int, y: int)
    ensures
        fmod((fmod(x) * fmod(y)) as int) == fmod(x * y),
{
    vstd::arithmetic::div_mod::lemma_mul_mod_noop(x, y, field_modulus() as int);
}

/// `fmod` of a difference of reduced terms is that of the difference.
proof fn lemma_sub_reduced(x: int, y: int)
    ensures
        fmod(fmod(x) - fmod(y)) == fmod(x - y),
{
    vstd::arithmetic::div_mod::lemma_sub_mod_noop(x, y, field_modulus() as int);
}

/// A reduced value is its own reduction.
pub(crate) proof fn lemma_reduced_fixed(v: nat)
    requires
        v < field_modulus(),
    ensures
        fmod(v as int) == v,
{
    vstd::arithmetic::div_mod::lemma_small_mod(v, field_modulus());
}

/// `a[k] * b[k]` in the field, for the first `n` positions.
fn pointwise_ab(a: &[Scalar], b: &[Scalar], n: usize) -> (r: Vec<Scalar>)
    requires
        n <= a@.len(),
        n <= b@.len(),
    ensures
        reduces_to(r@, ab_product_vals(a@, b@), n as nat),
{
    let mut out: Vec<Scalar> = Vec::new();
    let mut k: usize = 0;
    while k < n
        invariant
            k <= n,
            n <= a@.len(),
            n <= b@.len(),
            reduces_to(out@, ab_product_vals(a@, b@), k as nat),
        decreases n - k,
    {
        let v = a[k].mul(&b[k]);
        proof {
            lemma_reduced_fixed(v@);
        }
        let ghost before = out@;
        out.push(v);
        proof {
            assert forall|j: int| 0 <= j < k + 1 implies fmod(#[trigger] field_vals(out@)(j)) == fmod(
                ab_product_vals(a@, b@)(j),
            ) by {
                if j < k {
                    assert(out@[j] == before[j]);
                    assert(field_vals(before)(j) == before[j]@);
                }
            }
        }
        k = k + 1;
    }
    out
}

/// `a[k] * b[k] - c[k]` in the field, for the first `n` positions.
fn pointwise_abc(a: &[Scalar], b: &[Scalar], c: &[Scalar], n: usize) -> (r: Vec<Scalar>)
    requires
        n <= a@.len(),
        n <= b@.len(),
        n <= c@.len(),
    ensures
        reduces_to(r@, abc_residual_vals(a@, b@, c@), n as nat),
{
    let mut out: Vec<Scalar> = Vec::new();
    let mut k: usize = 0;
    while k < n
        invariant
            k <= n,
            n <= a@.len(),
            n <= b@.len(),
            n <= c@.len(),
            reduces_to(out@, abc_residual_vals(a@, b@, c@), k as nat),
        decreases n - k,
    {
        let p = a[k].mul(&b[k]);
        let v = p.sub(&c[k]);
        proof {
            lemma_reduced_fixed(v@);
            lemma_reduced_fixed(c@[k as int]@);
            lemma_sub_reduced((a@[k as int]@ * b@[k as int]@) as int, c@[k as int]@ as int);
        }
        let ghost before = out@;
        out.push(v);
        proof {
            assert forall|j: int| 0 <= j < k + 1 implies fmod(#[trigger] field_vals(out@)(j)) == fmod(
                abc_residual_vals(a@, b@, c@)(j),
            ) by {
                if j < k {
                    assert(out@[j] == before[j]);
                    assert(field_vals(before)(j) == before[j]@);
                }
            }
        }
        k = k + 1;
    }
    out
}

/// `(a2[k] - a1[k]) * (b2[k] - b1[k])` in the field, for the first `n`
/// positions.
fn pointwise_diff(a1: &[Scalar], b1: &[Scalar], a2: &[Scalar], b2: &[Scalar], n: usize) -> (r: Vec<
    Scalar,
>)
    requires
        n <= a1@.len(),
        n <= b1@.len(),
        n <= a2@.len(),
        n <= b2@.len(),
    ensures
        reduces_to(r@, diff_product_vals(a1@, b1@, a2@, b2@), n as nat),
{
    let mut out: Vec<Scalar> = Vec::new();
    let mut k: usize = 0;
    while k < n
        invariant
            k <= n,
            n <= a1@.len(),
            n <= b1@.len(),
            n <= a2@.len(),
            n <= b2@.len(),
            reduces_to(out@, diff_product_vals(a1@, b1@, a2@, b2@), k as nat),
        decreases n - k,
    {
        let da = a2[k].sub(&a1[k]);
        let db = b2[k].sub(&b1[k]);
        let v = da.mul(&db);
        proof {
            lemma_reduced_fixed(v@);
            lemma_mul_reduced(a2@[k as int]@ - a1@[k as int]@, b2@[k as int]@ - b1@[k as int]@);
        }
        let ghost before = out@;
        out.push(v);
        proof {
            assert forall|j: int| 0 <= j < k + 1 implies fmod(#[trigger] field_vals(out@)(j)) == fmod(
                diff_product_vals(a1@, b1@, a2@, b2@)(j),
            ) by {
                if j < k {
                    assert(out@[j] == before[j]);
                    assert(field_vals(before)(j) == before[j]@);
                }
            }
        }
        k = k + 1;
    }
    out
}

/// The split equality claim of a table of reduced values.
fn claim_of(vals: &Vec<Scalar>, e: &[Scalar], left: usize, right: usize, Ghost(spec_vals): Ghost<
    spec_fn(int) -> int,
>) -> (r: Scalar)
    requires
        left + right <= usize::MAX,
        left * right <= usize::MAX,
        left + right <= e@.len(),
        reduces_to(vals@, spec_vals, (left * right) as nat),
    ensures
        r@ == split_eq_claim(e@, spec_vals, left as int, right as int),
{
    let r = split_eq_dot(vals.as_slice(), e, left, right);
    proof {
        assert forall|x: int| 0 <= x < right * left implies fmod(
            #[trigger] field_vals(vals@)(x),
        ) == fmod(spec_vals(x)) by {
            assert(right * left == left * right) by (nonlinear_arith);
        }
        lemma_split_eq_sum_congruent(e@, field_vals(vals@), spec_vals, left as nat, right as nat);
    }
    r
}

// ---------------------------------------------------------------------------
// Field round claims.
// ---------------------------------------------------------------------------

/// The constant term and quadratic coefficient of a round from one pair of
/// layers: `e0 = sum_k eq(k) * (Az1[k] * Bz1[k] - Cz1[k])` (zero in round 0)
/// and `quad = sum_k eq(k) * (Az2[k] - Az1[k]) * (Bz2[k] - Bz1[k])`, where
/// `eq(k) = e_left[k % left] * e_right[k / left]` and `e = e_left ++
/// e_right`.
pub fn prove_helper(
    round: usize,
    left: usize,
    right: usize,
    e: &[Scalar],
    az1: &[Scalar],
    bz1: &[Scalar],
    cz1: &[Scalar],
    az2: &[Scalar],
    bz2: &[Scalar],
) -> (r: (Scalar, Scalar))
    requires
        e@.len() == left + right,
        az1@.len() == left * right,
        left * right <= bz1@.len(),
        left * right <= cz1@.len(),
        left * right <= az2@.len(),
        left * right <= bz2@.len(),
        left + right <= usize::MAX,
    ensures
        r.0@ == if round != 0 {
            split_eq_claim(e@, abc_residual_vals(az1@, bz1@, cz1@), left as int, right as int)
        } else {
            0
        },
        r.1@ == split_eq_claim(e@, diff_product_vals(az1@, bz1@, az2@, bz2@), left as int, right as int),
{
    let _la = az1.len();
    let total = left * right;
    let quad_vals = pointwise_diff(az1, bz1, az2, bz2, total);
    let quad = claim_of(&quad_vals, e, left, right, Ghost(diff_product_vals(az1@, bz1@, az2@, bz2@)));
    let e0 = if round != 0 {
        let e0_vals = pointwise_abc(az1, bz1, cz1, total);
        claim_of(&e0_vals, e, left, right, Ghost(abc_residual_vals(az1@, bz1@, cz1@)))
    } else {
        Scalar::zero()
    };
    (e0, quad)
}

/// The `A/B` part of a round from one pair of layers: `e0_ab = sum_k eq(k) *
/// Az1[k] * Bz1[k]` and `quad = sum_k eq(k) * (Az2[k] - Az1[k]) * (Bz2[k] -
/// Bz1[k])`; the caller subtracts the `C` claim from `e0_ab`.
pub fn prove_helper_ab_only(
    left: usize,
    right: usize,
    e: &[Scalar],
    az1: &[Scalar],
    bz1: &[Scalar],
    az2: &[Scalar],
    bz2: &[Scalar],
) -> (r: (Scalar, Scalar))
    requires
        left + right <= e@.len(),
        left * right <= az1@.len(),
        left * right <= bz1@.len(),
        left * right <= az2@.len(),
        left * right <= bz2@.len(),
    ensures
        r.0@ == split_eq_claim(e@, ab_product_vals(az1@, bz1@), left as int, right as int),
        r.1@ == split_eq_claim(e@, diff_product_vals(az1@, bz1@, az2@, bz2@), left as int, right as int),
{
    let _la = az1.len();
    let _le = e.len();
    let total = left * right;
    let e0_vals = pointwise_ab(az1, bz1, total);
    let e0 = claim_of(&e0_vals, e, left, right, Ghost(ab_product_vals(az1@, bz1@)));
    let quad_vals = pointwise_diff(az1, bz1, az2, bz2, total);
    let quad = claim_of(&quad_vals, e, left, right, Ghost(diff_product_vals(az1@, bz1@, az2@, bz2@)));
    (e0, quad)
}

// ---------------------------------------------------------------------------
// Small-value round claims with corrections at large positions.
// ---------------------------------------------------------------------------

/// `sum_{p < n, pos[p] < total} term(pos[p])` over the integers.
pub open spec fn listed_total(pos: Seq<usize>, total: nat, term: spec_fn(int) -> int, n: nat) -> int
    decreases n,
{
    if n == 0 {
        0
    } else {
        listed_total(pos, total, term, (n - 1) as nat) + if pos[n - 1] < total {
            term(pos[n - 1] as int)
        } else {
            0
        }
    }
}

/// `(a2[k] - a1[k]) * (b2[k] - b1[k])` for small layers.
pub open spec fn small_diff_product_vals(
    a1: Seq<i64>,
    b1: Seq<i64>,
    a2: Seq<i64>,
    b2: Seq<i64>,
) -> spec_fn(int) -> int {
    |k: int| (a2[k] - a1[k]) * (b2[k] - b1[k])
}

/// The split equality weight of position `k` times `term(k)`:
/// `e_right[k / left] * e_left[k % left] * term(k)`.
pub open spec fn eq_weighted(e: Seq<Scalar>, left: int, term: spec_fn(int) -> int) -> spec_fn(
    int,
) -> int {
    |k: int| e[left + k / left]@ * e[k % left]@ * term(k)
}

/// Whether each listed position below `total` lies inside a layer of length
/// `len`.
pub open spec fn listed_within(pos: Seq<usize>, total: int, len: int) -> bool {
    forall|p: int| 0 <= p < pos.len() && #[trigger] pos[p] < total ==> pos[p] < len
}

/// `fmod` of a sum of reduced terms is that of the sum.
pub(crate) proof fn lemma_add_reduced(x: int, y: int)
    ensures
        fmod((fmod(x) + fmod(y)) as int) == fmod(x + y),
{
    vstd::arithmetic::div_mod::lemma_add_mod_noop(x, y, field_modulus() as int);
}

/// `(a2[k] - a1[k]) * (b2[k] - b1[k])` in the field, for small layers.
fn pointwise_small_diff(a1: &[i64], b1: &[i64], a2: &[i64], b2: &[i64], n: usize) -> (r: Vec<
    Scalar,
>)
    requires
        n <= a1@.len(),
        n <= b1@.len(),
        n <= a2@.len(),
        n <= b2@.len(),
    ensures
        reduces_to(r@, small_diff_product_vals(a1@, b1@, a2@, b2@), n as nat),
{
    let mut out: Vec<Scalar> = Vec::new();
    let mut k: usize = 0;
    while k < n
        invariant
            k <= n,
            n <= a1@.len(),
            n <= b1@.len(),
            n <= a2@.len(),
            n <= b2@.len(),
            reduces_to(out@, small_diff_product_vals(a1@, b1@, a2@, b2@), k as nat),
        decreases n - k,
    {
        let x1 = a1[k].small_to_field();
        let x2 = a2[k].small_to_field();
        let y1 = b1[k].small_to_field();
        let y2 = b2[k].small_to_field();
        let da = x2.sub(&x1);
        let db = y2.sub(&y1);
        let v = da.mul(&db);
        proof {
            let ka = k as int;
            lemma_reduced_fixed(v@);
            lemma_sub_reduced(a2@[ka] as int, a1@[ka] as int);
            lemma_sub_reduced(b2@[ka] as int, b1@[ka] as int);
            lemma_mul_reduced(a2@[ka] - a1@[ka], b2@[ka] - b1@[ka]);
        }
        let ghost before = out@;
        out.push(v);
        proof {
            assert forall|j: int| 0 <= j < k + 1 implies fmod(#[trigger] field_vals(out@)(j)) == fmod(
                small_diff_product_vals(a1@, b1@, a2@, b2@)(j),
            ) by {
                if j < k {
                    assert(out@[j] == before[j]);
                    assert(field_vals(before)(j) == before[j]@);
                }
            }
        }
        k = k + 1;
    }
    out
}

/// The quadratic coefficient of round 0 from small layers: `sum_k eq(k) *
/// (Az2[k] - Az1[k]) * (Bz2[k] - Bz1[k])` over the small values, plus the
/// same product over the field values at each listed position `k < left *
/// right` (where the small layers hold zero).
pub fn prove_helper_small(
    left: usize,
    right: usize,
    e: &[Scalar],
    az1: &[Scalar],
    bz1: &[Scalar],
    az2: &[Scalar],
    bz2: &[Scalar],
    az1_small: &[i64],
    bz1_small: &[i64],
    az2_small: &[i64],
    bz2_small: &[i64],
    large_positions: &[usize],
) -> (r: Scalar)
    requires
        left + right <= e@.len(),
        left * right <= az1_small@.len(),
        left * right <= bz1_small@.len(),
        left * right <= az2_small@.len(),
        left * right <= bz2_small@.len(),
        listed_within(large_positions@, left * right, az1@.len() as int),
        listed_within(large_positions@, left * right, bz1@.len() as int),
        listed_within(large_positions@, left * right, az2@.len() as int),
        listed_within(large_positions@, left * right, bz2@.len() as int),
    ensures
        r@ == fmod(
            split_eq_sum(
                e@,
                small_diff_product_vals(az1_small@, bz1_small@, az2_small@, bz2_small@),
                left as nat,
                right as nat,
            ) + listed_total(
                large_positions@,
                (left * right) as nat,
                eq_weighted(e@, left as int, diff_product_vals(az1@, bz1@, az2@, bz2@)),
                large_positions@.len(),
            ),
        ),
{
    let _la = az1_small.len();
    let _le = e.len();
    let total = left * right;
    let vals = pointwise_small_diff(az1_small, bz1_small, az2_small, bz2_small, total);
    let ghost small_vals = small_diff_product_vals(az1_small@, bz1_small@, az2_small@, bz2_small@);
    let ghost term = eq_weighted(e@, left as int, diff_product_vals(az1@, bz1@, az2@, bz2@));
    let mut quad = claim_of(&vals, e, left, right, Ghost(small_vals));
    let ghost s0 = split_eq_sum(e@, small_vals, left as nat, right as nat);
    let mut p: usize = 0;
    while p < large_positions.len()
        invariant
            p <= large_positions@.len(),
            total == left * right,
            left + right <= e@.len(),
            e@.len() <= usize::MAX,
            listed_within(large_positions@, total as int, az1@.len() as int),
            listed_within(large_positions@, total as int, bz1@.len() as int),
            listed_within(large_positions@, total as int, az2@.len() as int),
            listed_within(large_positions@, total as int, bz2@.len() as int),
            term == eq_weighted(e@, left as int, diff_product_vals(az1@, bz1@, az2@, bz2@)),
            quad@ == fmod(s0 + listed_total(large_positions@, total as nat, term, p as nat)),
        decreases large_positions@.len() - p,
    {
        let k = large_positions[p];
        if k < total {
            assert(left > 0) by (nonlinear_arith)
                requires
                    k < left * right,
            ;
            assert(k / left < right) by (nonlinear_arith)
                requires
                    k < left * right,
                    left > 0,
            ;
            assert(large_positions@[p as int] < total);
            let i = k / left;
            let j = k % left;
            let az_diff = az2[k].sub(&az1[k]);
            let bz_diff = bz2[k].sub(&bz1[k]);
            let w = e[left + i].mul(&e[j]);
            let t = w.mul(&az_diff).mul(&bz_diff);
            proof {
                let fr = e@[left + i]@ as int;
                let el = e@[j as int]@ as int;
                let da = az2@[k as int]@ - az1@[k as int]@;
                let db = bz2@[k as int]@ - bz1@[k as int]@;
                lemma_mul_reduced(fr * el, da);
                lemma_mul_reduced(fr * el * da, db);
                assert(term(k as int) == fr * el * (da * db));
                assert(fr * el * (da * db) == fr * el * da * db) by (nonlinear_arith);
                lemma_add_reduced(s0 + listed_total(large_positions@, total as nat, term, p as nat), term(k as int));
            }
            quad = quad.add(&t);
        }
        p = p + 1;
    }
    quad
}

/// Products of congruent factors are congruent.
pub proof fn lemma_mul_cong(a: int, b: int, x: int, y: int)
    requires
        fmod(a) == fmod(x),
        fmod(b) == fmod(y),
    ensures
        fmod(a * b) == fmod(x * y),
{
    lemma_mul_reduced(a, b);
    lemma_mul_reduced(x, y);
}

/// Sums of congruent terms are congruent.
pub proof fn lemma_add_cong(a: int, b: int, x: int, y: int)
    requires
        fmod(a) == fmod(x),
        fmod(b) == fmod(y),
    ensures
        fmod(a + b) == fmod(x + y),
{
    lemma_add_reduced(a, b);
    lemma_add_reduced(x, y);
}

/// Differences of congruent terms are congruent.
pub proof fn lemma_sub_cong(a: int, b: int, x: int, y: int)
    requires
        fmod(a) == fmod(x),
        fmod(b) == fmod(y),
    ensures
        fmod(a - b) == fmod(x - y),
{
    lemma_sub_reduced(a, b);
    lemma_sub_reduced(x, y);
}

/// `u(k) - v(k)` at each position.
pub open spec fn diff_vals(u: spec_fn(int) -> int, v: spec_fn(int) -> int) -> spec_fn(int) -> int {
    |k: int| u(k) - v(k)
}

/// `x(k) * y(k)` at each position.
pub open spec fn prod_vals(x: spec_fn(int) -> int, y: spec_fn(int) -> int) -> spec_fn(int) -> int {
    |k: int| x(k) * y(k)
}

/// `x0(k) * y1(k) + x1(k) * y0(k)` at each position.
pub open spec fn cross_vals(
    x0: spec_fn(int) -> int,
    x1: spec_fn(int) -> int,
    y0: spec_fn(int) -> int,
    y1: spec_fn(int) -> int,
) -> spec_fn(int) -> int {
    |k: int| x0(k) * y1(k) + x1(k) * y0(k)
}

/// `(1 - r) * u(k) + r * v(k)` at each position: the fold of two layers at
/// `r`.
pub open spec fn fold_vals(r: int, u: spec_fn(int) -> int, v: spec_fn(int) -> int) -> spec_fn(
    int,
) -> int {
    |k: int| (1 - r) * u(k) + r * v(k)
}

/// A small layer as field elements, over the first `n` positions.
fn small_layer_to_field(a: &[i64], n: usize) -> (r: Vec<Scalar>)
    requires
        n <= a@.len(),
    ensures
        reduces_to(r@, i64_vals(a@), n as nat),
{
    let mut out: Vec<Scalar> = Vec::new();
    let mut k: usize = 0;
    while k < n
        invariant
            k <= n,
            n <= a@.len(),
            reduces_to(out@, i64_vals(a@), k as nat),
        decreases n - k,
    {
        let v = a[k].small_to_field();
        proof {
            lemma_reduced_fixed(v@);
        }
        let ghost before = out@;
        out.push(v);
        proof {
            assert forall|j: int| 0 <= j < k + 1 implies fmod(#[trigger] field_vals(out@)(j)) == fmod(
                i64_vals(a@)(j),
            ) by {
                if j < k {
                    assert(out@[j] == before[j]);
                    assert(field_vals(before)(j) == before[j]@);
                }
            }
        }
        k = k + 1;
    }
    out
}

/// `u[k] - v[k]` in the field, over the first `n` positions.
fn diff_layer(
    u: &Vec<Scalar>,
    v: &Vec<Scalar>,
    n: usize,
    Ghost(su): Ghost<spec_fn(int) -> int>,
    Ghost(sv): Ghost<spec_fn(int) -> int>,
) -> (r: Vec<Scalar>)
    requires
        reduces_to(u@, su, n as nat),
        reduces_to(v@, sv, n as nat),
    ensures
        reduces_to(r@, diff_vals(su, sv), n as nat),
{
    let mut out: Vec<Scalar> = Vec::new();
    let mut k: usize = 0;
    while k < n
        invariant
            k <= n,
            reduces_to(u@, su, n as nat),
            reduces_to(v@, sv, n as nat),
            reduces_to(out@, diff_vals(su, sv), k as nat),
        decreases n - k,
    {
        let d = u[k].sub(&v[k]);
        proof {
            let ka = k as int;
            assert(fmod(field_vals(u@)(ka)) == fmod(su(ka)));
            assert(fmod(field_vals(v@)(ka)) == fmod(sv(ka)));
            lemma_sub_cong(u@[ka]@ as int, v@[ka]@ as int, su(ka), sv(ka));
            lemma_reduced_fixed(d@);
        }
        let ghost before = out@;
        out.push(d);
        proof {
            assert forall|j: int| 0 <= j < k + 1 implies fmod(#[trigger] field_vals(out@)(j)) == fmod(
                diff_vals(su, sv)(j),
            ) by {
                if j < k {
                    assert(out@[j] == before[j]);
                    assert(field_vals(before)(j) == before[j]@);
                }
            }
        }
        k = k + 1;
    }
    out
}

/// The bilinear tables `x0 * y0`, `x0 * y1 + x1 * y0` and `x1 * y1` in the
/// field, over the first `n` positions.
fn pointwise_bilinear(
    x0: &Vec<Scalar>,
    x1: &Vec<Scalar>,
    y0: &Vec<Scalar>,
    y1: &Vec<Scalar>,
    n: usize,
    Ghost(sx0): Ghost<spec_fn(int) -> int>,
    Ghost(sx1): Ghost<spec_fn(int) -> int>,
    Ghost(sy0): Ghost<spec_fn(int) -> int>,
    Ghost(sy1): Ghost<spec_fn(int) -> int>,
) -> (r: (Vec<Scalar>, Vec<Scalar>, Vec<Scalar>))
    requires
        reduces_to(x0@, sx0, n as nat),
        reduces_to(x1@, sx1, n as nat),
        reduces_to(y0@, sy0, n as nat),
        reduces_to(y1@, sy1, n as nat),
    ensures
        reduces_to(r.0@, prod_vals(sx0, sy0), n as nat),
        reduces_to(r.1@, cross_vals(sx0, sx1, sy0, sy1), n as nat),
        reduces_to(r.2@, prod_vals(sx1, sy1), n as nat),
{
    let mut v00: Vec<Scalar> = Vec::new();
    let mut v01: Vec<Scalar> = Vec::new();
    let mut v11: Vec<Scalar> = Vec::new();
    let mut k: usize = 0;
    while k < n
        invariant
            k <= n,
            reduces_to(x0@, sx0, n as nat),
            reduces_to(x1@, sx1, n as nat),
            reduces_to(y0@, sy0, n as nat),
            reduces_to(y1@, sy1, n as nat),
            reduces_to(v00@, prod_vals(sx0, sy0), k as nat),
            reduces_to(v01@, cross_vals(sx0, sx1, sy0, sy1), k as nat),
            reduces_to(v11@, prod_vals(sx1, sy1), k as nat),
        decreases n - k,
    {
        let p00 = x0[k].mul(&y0[k]);
        let p01 = x0[k].mul(&y1[k]);
        let p10 = x1[k].mul(&y0[k]);
        let c = p01.add(&p10);
        let p11 = x1[k].mul(&y1[k]);
        proof {
            let ka = k as int;
            let a0 = x0@[ka]@ as int;
            let a1 = x1@[ka]@ as int;
            let b0 = y0@[ka]@ as int;
            let b1 = y1@[ka]@ as int;
            assert(fmod(field_vals(x0@)(ka)) == fmod(sx0(ka)));
            assert(fmod(field_vals(x1@)(ka)) == fmod(sx1(ka)));
            assert(fmod(field_vals(y0@)(ka)) == fmod(sy0(ka)));
            assert(fmod(field_vals(y1@)(ka)) == fmod(sy1(ka)));
            lemma_mul_cong(a0, b0, sx0(ka), sy0(ka));
            lemma_mul_cong(a0, b1, sx0(ka), sy1(ka));
            lemma_mul_cong(a1, b0, sx1(ka), sy0(ka));
            lemma_mul_cong(a1, b1, sx1(ka), sy1(ka));
            lemma_reduced_fixed(p01@);
            lemma_reduced_fixed(p10@);
            lemma_add_cong(p01@ as int, p10@ as int, sx0(ka) * sy1(ka), sx1(ka) * sy0(ka));
            lemma_reduced_fixed(p00@);
            lemma_reduced_fixed(c@);
            lemma_reduced_fixed(p11@);
        }
        let ghost b00 = v00@;
        let ghost b01 = v01@;
        let ghost b11 = v11@;
        v00.push(p00);
        v01.push(c);
        v11.push(p11);
        proof {
            assert forall|j: int| 0 <= j < k + 1 implies fmod(#[trigger] field_vals(v00@)(j)) == fmod(
                prod_vals(sx0, sy0)(j),
            ) by {
                if j < k {
                    assert(v00@[j] == b00[j]);
                    assert(field_vals(b00)(j) == b00[j]@);
                }
            }
            assert forall|j: int| 0 <= j < k + 1 implies fmod(#[trigger] field_vals(v01@)(j)) == fmod(
                cross_vals(sx0, sx1, sy0, sy1)(j),
            ) by {
                if j < k {
                    assert(v01@[j] == b01[j]);
                    assert(field_vals(b01)(j) == b01[j]@);
                }
            }
            assert forall|j: int| 0 <= j < k + 1 implies fmod(#[trigger] field_vals(v11@)(j)) == fmod(
                prod_vals(sx1, sy1)(j),
            ) by {
                if j < k {
                    assert(v11@[j] == b11[j]);
                    assert(field_vals(b11)(j) == b11[j]@);
                }
            }
        }
        k = k + 1;
    }
    (v00, v01, v11)
}

/// `c00 * s00 + c01 * s01 + c11 * s11` in the field.
fn combine3(c00: &Scalar, c01: &Scalar, c11: &Scalar, s00: &Scalar, s01: &Scalar, s11: &Scalar) -> (r:
    Scalar)
    ensures
        r@ == fmod((c00@ * s00@ + c01@ * s01@ + c11@ * s11@) as int),
{
    let t0 = c00.mul(s00);
    let t1 = c01.mul(s01);
    let t2 = c11.mul(s11);
    let t01 = t0.add(&t1);
    let r = t01.add(&t2);
    proof {
        let x0 = (c00@ * s00@) as int;
        let x1 = (c01@ * s01@) as int;
        let x2 = (c11@ * s11@) as int;
        lemma_add_reduced(x0, x1);
        lemma_reduced_fixed(t01@);
        lemma_add_reduced(x0 + x1, x2);
    }
    r
}

/// The `A` (or `B`) value at `k` of the pair `(0, 1)` or `(2, 3)` folded at
/// `r0`, in the field.
fn fold_at(r0: &Scalar, one_minus_r0: &Scalar, lo: &[Scalar], hi: &[Scalar], k: usize) -> (r: Scalar)
    requires
        k < lo@.len(),
        k < hi@.len(),
        one_minus_r0@ == fmod(1 - r0@),
    ensures
        fmod(r@ as int) == fmod(fold_vals(r0@ as int, field_vals(lo@), field_vals(hi@))(k as int)),
{
    let x = one_minus_r0.mul(&lo[k]);
    let y = r0.mul(&hi[k]);
    let r = x.add(&y);
    proof {
        let ka = k as int;
        let u = lo@[ka]@ as int;
        let v = hi@[ka]@ as int;
        lemma_reduced_fixed(one_minus_r0@);
        lemma_reduced_fixed(lo@[ka]@);
        lemma_mul_cong(one_minus_r0@ as int, u, 1 - r0@, u);
        lemma_reduced_fixed(x@);
        lemma_reduced_fixed(y@);
        lemma_add_cong(x@ as int, y@ as int, (1 - r0@) * u, r0@ * v);
        lemma_reduced_fixed(r@);
    }
    r
}

/// `c00 * fmod(s00) + c01 * fmod(s01) + c11 * fmod(s11)` is congruent to the
/// same combination of the exact sums.
proof fn lemma_combine3(c00: nat, c01: nat, c11: nat, s00: int, s01: int, s11: int)
    ensures
        fmod((c00 * fmod(s00) + c01 * fmod(s01) + c11 * fmod(s11)) as int) == fmod(
            c00 * s00 + c01 * s01 + c11 * s11,
        ),
{
    lemma_reduced_fixed(fmod(s00));
    lemma_reduced_fixed(fmod(s01));
    lemma_reduced_fixed(fmod(s11));
    lemma_mul_cong(c00 as int, fmod(s00) as int, c00 as int, s00);
    lemma_mul_cong(c01 as int, fmod(s01) as int, c01 as int, s01);
    lemma_mul_cong(c11 as int, fmod(s11) as int, c11 as int, s11);
    lemma_add_cong((c00 * fmod(s00)) as int, (c01 * fmod(s01)) as int, c00 * s00, c01 * s01);
    lemma_add_cong(
        (c00 * fmod(s00) + c01 * fmod(s01)) as int,
        (c11 * fmod(s11)) as int,
        c00 * s00 + c01 * s01,
        c11 * s11,
    );
}

/// The `A/B` part of round 1 for a group of four layers after the round-0
/// challenge `r0`, from small layers, without materializing the folded
/// layers.
///
/// With `A_lo = (1 - r0) A0 + r0 A1`, `A_hi = (1 - r0) A2 + r0 A3` (and `B`
/// likewise), `e0 = sum_k eq(k) * A_lo[k] * B_lo[k]` and `quad = sum_k eq(k)
/// * (A_hi - A_lo)[k] * (B_hi - B_lo)[k]`. The bilinear expansion in `r0`
/// is carried by `c00 = (1 - r0)^2`, `c01 = (1 - r0) r0` and `c11 = r0^2`,
/// which the caller supplies: `e0 = c00 * sum eq A0 B0 + c01 * sum eq (A0 B1
/// + A1 B0) + c11 * sum eq A1 B1` over the small values (and `quad` likewise
/// over the differences `A2 - A0`, `A3 - A1`), plus, at each listed position
/// `k < left * right`, the terms above over the field values.
pub fn prove_helper_ab_cross(
    left: usize,
    right: usize,
    e: &[Scalar],
    a_small: [&[i64]; 4],
    b_small: [&[i64]; 4],
    a_field: [&[Scalar]; 4],
    b_field: [&[Scalar]; 4],
    c00: &Scalar,
    c01: &Scalar,
    c11: &Scalar,
    r0: &Scalar,
    large_positions: &[usize],
) -> (r: (Scalar, Scalar))
    requires
        left + right <= e@.len(),
        forall|t: int|
            0 <= t < 4 ==> left * right <= (#[trigger] a_small@[t])@.len() && left * right
                <= b_small@[t]@.len(),
        forall|t: int|
            0 <= t < 4 ==> listed_within(
                large_positions@,
                left * right,
                (#[trigger] a_field@[t])@.len() as int,
            ) && listed_within(large_positions@, left * right, b_field@[t]@.len() as int),
    ensures
        ({
            let sa = |t: int| i64_vals(a_small@[t]@);
            let sb = |t: int| i64_vals(b_small@[t]@);
            let fa = |t: int| field_vals(a_field@[t]@);
            let fb = |t: int| field_vals(b_field@[t]@);
            let a_lo = fold_vals(r0@ as int, fa(0), fa(1));
            let a_hi = fold_vals(r0@ as int, fa(2), fa(3));
            let b_lo = fold_vals(r0@ as int, fb(0), fb(1));
            let b_hi = fold_vals(r0@ as int, fb(2), fb(3));
            let da0 = diff_vals(sa(2), sa(0));
            let da1 = diff_vals(sa(3), sa(1));
            let db0 = diff_vals(sb(2), sb(0));
            let db1 = diff_vals(sb(3), sb(1));
            let total = (left * right) as nat;
            let n = large_positions@.len();
            let s = |v: spec_fn(int) -> int| split_eq_sum(e@, v, left as nat, right as nat);
            &&& r.0@ == fmod(
                c00@ * s(prod_vals(sa(0), sb(0))) + c01@ * s(cross_vals(sa(0), sa(1), sb(0), sb(1)))
                    + c11@ * s(prod_vals(sa(1), sb(1))) + listed_total(
                    large_positions@,
                    total,
                    eq_weighted(e@, left as int, prod_vals(a_lo, b_lo)),
                    n,
                ),
            )
            &&& r.1@ == fmod(
                c00@ * s(prod_vals(da0, db0)) + c01@ * s(cross_vals(da0, da1, db0, db1)) + c11@ * s(
                    prod_vals(da1, db1),
                ) + listed_total(
                    large_positions@,
                    total,
                    eq_weighted(
                        e@,
                        left as int,
                        prod_vals(diff_vals(a_hi, a_lo), diff_vals(b_hi, b_lo)),
                    ),
                    n,
                ),
            )
        }),
{
    let _le = e.len();
    let _la = a_small[0].len();
    assert(left * right <= a_small@[0]@.len());
    let total = left * right;
    let ghost sa0 = i64_vals(a_small@[0]@);
    let ghost sa1 = i64_vals(a_small@[1]@);
    let ghost sa2 = i64_vals(a_small@[2]@);
    let ghost sa3 = i64_vals(a_small@[3]@);
    let ghost sb0 = i64_vals(b_small@[0]@);
    let ghost sb1 = i64_vals(b_small@[1]@);
    let ghost sb2 = i64_vals(b_small@[2]@);
    let ghost sb3 = i64_vals(b_small@[3]@);
    assert(left * right <= a_small@[1]@.len() && left * right <= a_small@[2]@.len() && left * right
        <= a_small@[3]@.len());
    assert(left * right <= b_small@[0]@.len() && left * right <= b_small@[1]@.len() && left * right
        <= b_small@[2]@.len() && left * right <= b_small@[3]@.len());
    let a0 = small_layer_to_field(a_small[0], total);
    let a1 = small_layer_to_field(a_small[1], total);
    let a2 = small_layer_to_field(a_small[2], total);
    let a3 = small_layer_to_field(a_small[3], total);
    let b0 = small_layer_to_field(b_small[0], total);
    let b1 = small_layer_to_field(b_small[1], total);
    let b2 = small_layer_to_field(b_small[2], total);
    let b3 = small_layer_to_field(b_small[3], total);
    let (v00, v01, v11) = pointwise_bilinear(
        &a0,
        &a1,
        &b0,
        &b1,
        total,
        Ghost(sa0),
        Ghost(sa1),
        Ghost(sb0),
        Ghost(sb1),
    );
    let s00 = claim_of(&v00, e, left, right, Ghost(prod_vals(sa0, sb0)));
    let s01 = claim_of(&v01, e, left, right, Ghost(cross_vals(sa0, sa1, sb0, sb1)));
    let s11 = claim_of(&v11, e, left, right, Ghost(prod_vals(sa1, sb1)));
    let mut e0 = combine3(c00, c01, c11, &s00, &s01, &s11);
    let da0 = diff_layer(&a2, &a0, total, Ghost(sa2), Ghost(sa0));
    let da1 = diff_layer(&a3, &a1, total, Ghost(sa3), Ghost(sa1));
    let db0 = diff_layer(&b2, &b0, total, Ghost(sb2), Ghost(sb0));
    let db1 = diff_layer(&b3, &b1, total, Ghost(sb3), Ghost(sb1));
    let ghost sda0 = diff_vals(sa2, sa0);
    let ghost sda1 = diff_vals(sa3, sa1);
    let ghost sdb0 = diff_vals(sb2, sb0);
    let ghost sdb1 = diff_vals(sb3, sb1);
    let (q00, q01, q11) = pointwise_bilinear(
        &da0,
        &da1,
        &db0,
        &db1,
        total,
        Ghost(sda0),
        Ghost(sda1),
        Ghost(sdb0),
        Ghost(sdb1),
    );
    let t00 = claim_of(&q00, e, left, right, Ghost(prod_vals(sda0, sdb0)));
    let t01 = claim_of(&q01, e, left, right, Ghost(cross_vals(sda0, sda1, sdb0, sdb1)));
    let t11 = claim_of(&q11, e, left, right, Ghost(prod_vals(sda1, sdb1)));
    let mut quad = combine3(c00, c01, c11, &t00, &t01, &t11);
    let ghost base_e0 = c00@ * split_eq_sum(e@, prod_vals(sa0, sb0), left as nat, right as nat)
        + c01@ * split_eq_sum(e@, cross_vals(sa0, sa1, sb0, sb1), left as nat, right as nat) + c11@
        * split_eq_sum(e@, prod_vals(sa1, sb1), left as nat, right as nat);
    let ghost base_quad = c00@ * split_eq_sum(e@, prod_vals(sda0, sdb0), left as nat, right as nat)
        + c01@ * split_eq_sum(e@, cross_vals(sda0, sda1, sdb0, sdb1), left as nat, right as nat)
        + c11@ * split_eq_sum(e@, prod_vals(sda1, sdb1), left as nat, right as nat);
    proof {
        lemma_combine3(
            c00@,
            c01@,
            c11@,
            split_eq_sum(e@, prod_vals(sa0, sb0), left as nat, right as nat),
            split_eq_sum(e@, cross_vals(sa0, sa1, sb0, sb1), left as nat, right as nat),
            split_eq_sum(e@, prod_vals(sa1, sb1), left as nat, right as nat),
        );
        lemma_combine3(
            c00@,
            c01@,
            c11@,
            split_eq_sum(e@, prod_vals(sda0, sdb0), left as nat, right as nat),
            split_eq_sum(e@, cross_vals(sda0, sda1, sdb0, sdb1), left as nat, right as nat),
            split_eq_sum(e@, prod_vals(sda1, sdb1), left as nat, right as nat),
        );
    }
    let one = Scalar::one();
    let one_minus_r0 = one.sub(r0);
    let ghost a_lo = fold_vals(r0@ as int, field_vals(a_field@[0]@), field_vals(a_field@[1]@));
    let ghost a_hi = fold_vals(r0@ as int, field_vals(a_field@[2]@), field_vals(a_field@[3]@));
    let ghost b_lo = fold_vals(r0@ as int, field_vals(b_field@[0]@), field_vals(b_field@[1]@));
    let ghost b_hi = fold_vals(r0@ as int, field_vals(b_field@[2]@), field_vals(b_field@[3]@));
    let ghost e0_term = eq_weighted(e@, left as int, prod_vals(a_lo, b_lo));
    let ghost quad_term = eq_weighted(
        e@,
        left as int,
        prod_vals(diff_vals(a_hi, a_lo), diff_vals(b_hi, b_lo)),
    );
    let mut p: usize = 0;
    while p < large_positions.len()
        invariant
            p <= large_positions@.len(),
            total == left * right,
            left + right <= e@.len(),
            e@.len() <= usize::MAX,
            one_minus_r0@ == fmod(1 - r0@),
            forall|t: int|
                0 <= t < 4 ==> listed_within(
                    large_positions@,
                    left * right,
                    (#[trigger] a_field@[t])@.len() as int,
                ) && listed_within(large_positions@, left * right, b_field@[t]@.len() as int),
            a_lo == fold_vals(r0@ as int, field_vals(a_field@[0]@), field_vals(a_field@[1]@)),
            a_hi == fold_vals(r0@ as int, field_vals(a_field@[2]@), field_vals(a_field@[3]@)),
            b_lo == fold_vals(r0@ as int, field_vals(b_field@[0]@), field_vals(b_field@[1]@)),
            b_hi == fold_vals(r0@ as int, field_vals(b_field@[2]@), field_vals(b_field@[3]@)),
            e0_term == eq_weighted(e@, left as int, prod_vals(a_lo, b_lo)),
            quad_term == eq_weighted(
                e@,
                left as int,
                prod_vals(diff_vals(a_hi, a_lo), diff_vals(b_hi, b_lo)),
            ),
            e0@ == fmod(base_e0 + listed_total(large_positions@, total as nat, e0_term, p as nat)),
            quad@ == fmod(
                base_quad + listed_total(large_positions@, total as nat, quad_term, p as nat),
            ),
        decreases large_positions@.len() - p,
    {
        let k = large_positions[p];
        if k < total {
            assert(left > 0) by (nonlinear_arith)
                requires
                    k < left * right,
            ;
            assert(k / left < right) by (nonlinear_arith)
                requires
                    k < left * right,
                    left > 0,
            ;
            assert(large_positions@[p as int] < total);
            assert(k < a_field@[0]@.len() && k < a_field@[1]@.len() && k < a_field@[2]@.len() && k
                < a_field@[3]@.len());
            assert(k < b_field@[0]@.len() && k < b_field@[1]@.len() && k < b_field@[2]@.len() && k
                < b_field@[3]@.len());
            let i = k / left;
            let j = k % left;
            let w = e[j].mul(&e[left + i]);
            let az_lo = fold_at(r0, &one_minus_r0, a_field[0], a_field[1], k);
            let bz_lo = fold_at(r0, &one_minus_r0, b_field[0], b_field[1], k);
            let az_hi = fold_at(r0, &one_minus_r0, a_field[2], a_field[3], k);
            let bz_hi = fold_at(r0, &one_minus_r0, b_field[2], b_field[3], k);
            let w_lo = w.mul(&az_lo);
            let t0 = w_lo.mul(&bz_lo);
            let da = az_hi.sub(&az_lo);
            let db = bz_hi.sub(&bz_lo);
            let w_da = w.mul(&da);
            let t1 = w_da.mul(&db);
            proof {
                let ki = k as int;
                let el = e@[j as int]@ as int;
                let er = e@[left + i]@ as int;
                let alo = a_lo(ki);
                let blo = b_lo(ki);
                let ahi = a_hi(ki);
                let bhi = b_hi(ki);
                lemma_reduced_fixed(w@);
                lemma_reduced_fixed(az_lo@);
                lemma_reduced_fixed(bz_lo@);
                lemma_reduced_fixed(az_hi@);
                lemma_reduced_fixed(bz_hi@);
                lemma_mul_cong(w@ as int, az_lo@ as int, el * er, alo);
                lemma_reduced_fixed(w_lo@);
                lemma_mul_cong(w_lo@ as int, bz_lo@ as int, el * er * alo, blo);
                assert(e0_term(ki) == er * el * (alo * blo));
                assert(el * er * alo * blo == er * el * (alo * blo)) by (nonlinear_arith);
                lemma_sub_cong(az_hi@ as int, az_lo@ as int, ahi, alo);
                lemma_sub_cong(bz_hi@ as int, bz_lo@ as int, bhi, blo);
                lemma_reduced_fixed(da@);
                lemma_reduced_fixed(db@);
                lemma_mul_cong(w@ as int, da@ as int, el * er, ahi - alo);
                lemma_reduced_fixed(w_da@);
                lemma_mul_cong(w_da@ as int, db@ as int, el * er * (ahi - alo), bhi - blo);
                assert(quad_term(ki) == er * el * ((ahi - alo) * (bhi - blo)));
                assert(el * er * (ahi - alo) * (bhi - blo) == er * el * ((ahi - alo) * (bhi - blo)))
                    by (nonlinear_arith);
                assert(fmod(az_lo@ as int) == fmod(alo));
                assert(fmod(bz_lo@ as int) == fmod(blo));
                assert(fmod(w@ as int) == fmod(el * er));
                assert(fmod(t0@ as int) == fmod(el * er * alo * blo));
                assert(fmod(t0@ as int) == fmod(e0_term(ki)));
                lemma_add_reduced(
                    base_e0 + listed_total(large_positions@, total as nat, e0_term, p as nat),
                    e0_term(ki),
                );
                lemma_add_reduced(
                    base_quad + listed_total(large_positions@, total as nat, quad_term, p as nat),
                    quad_term(ki),
                );
            }
            e0 = e0.add(&t0);
            quad = quad.add(&t1);
        }
        p = p + 1;
    }
    (e0, quad)
}

// ---------------------------------------------------------------------------
// Weighted round claims over layer pairs.
// ---------------------------------------------------------------------------

/// `sum_{p < n} e0(pair p) * w(p)` for materialized `C` layers, where pair
/// `p` is layers `2p, 2p + 1`, `e0` is that of [`prove_helper`] and `w` the
/// suffix weight of the pair.
pub open spec fn field_round_e0(
    a: Seq<Vec<Scalar>>,
    b: Seq<Vec<Scalar>>,
    c: Seq<Vec<Scalar>>,
    e: Seq<Scalar>,
    left: int,
    right: int,
    rhos: Seq<Scalar>,
    round: int,
    n: nat,
) -> int
    decreases n,
{
    if n == 0 {
        0
    } else {
        let p = n - 1;
        let e0 = if round != 0 {
            split_eq_claim(e, abc_residual_vals(a[2 * p]@, b[2 * p]@, c[2 * p]@), left, right)
        } else {
            0
        };
        field_round_e0(a, b, c, e, left, right, rhos, round, (n - 1) as nat) + e0 * suffix_weight_upto(
            rhos,
            round,
            p as nat,
            rhos.len() as int,
        )
    }
}

/// `sum_{p < n} quad(pair p) * w(p)`, with `quad` that of [`prove_helper`].
pub open spec fn round_quad(
    a: Seq<Vec<Scalar>>,
    b: Seq<Vec<Scalar>>,
    e: Seq<Scalar>,
    left: int,
    right: int,
    rhos: Seq<Scalar>,
    round: int,
    n: nat,
) -> int
    decreases n,
{
    if n == 0 {
        0
    } else {
        let p = n - 1;
        round_quad(a, b, e, left, right, rhos, round, (n - 1) as nat) + split_eq_claim(
            e,
            diff_product_vals(a[2 * p]@, b[2 * p]@, a[2 * p + 1]@, b[2 * p + 1]@),
            left,
            right,
        ) * suffix_weight_upto(rhos, round, p as nat, rhos.len() as int)
    }
}

/// `sum_{p < n} (e0_ab(pair p) - c[2p]) * w(p)` for scalar `C` claims, with
/// `e0_ab` that of [`prove_helper_ab_only`].
pub open spec fn claim_round_e0(
    a: Seq<Vec<Scalar>>,
    b: Seq<Vec<Scalar>>,
    c: Seq<Scalar>,
    e: Seq<Scalar>,
    left: int,
    right: int,
    rhos: Seq<Scalar>,
    round: int,
    n: nat,
) -> int
    decreases n,
{
    if n == 0 {
        0
    } else {
        let p = n - 1;
        claim_round_e0(a, b, c, e, left, right, rhos, round, (n - 1) as nat) + fmod(
            split_eq_claim(e, ab_product_vals(a[2 * p]@, b[2 * p]@), left, right) - c[2 * p]@,
        ) * suffix_weight_upto(rhos, round, p as nat, rhos.len() as int)
    }
}

/// Whether the materialized round inputs pass their checks.
pub open spec fn materialized_round_ok(
    shape: NifsRoundShape,
    a: Seq<Vec<Scalar>>,
    b: Seq<Vec<Scalar>>,
    c: Seq<Vec<Scalar>>,
) -> bool {
    &&& a.len() == b.len()
    &&& a.len() == c.len()
    &&& a.len() > 0
    &&& a.len() % 2 == 0
    &&& round_shape_ok(shape)
    &&& all_layers_have_len(a, shape.left * shape.right)
    &&& all_layers_have_len(b, shape.left * shape.right)
    &&& all_layers_have_len(c, shape.left * shape.right)
}

/// The weighted claims of one NIFS round from materialized `A/B/C` layers:
/// `e0 = sum_p w(p) * e0(pair p)` and `quad = sum_p w(p) * quad(pair p)`
/// over the layer pairs `(2p, 2p + 1)`, with the per-pair values of
/// [`prove_helper`] and the suffix weights of the round.
pub fn compute_field_round_claim(
    a_layers: &[Vec<Scalar>],
    b_layers: &[Vec<Scalar>],
    c_layers: &[Vec<Scalar>],
    e_eq: &[Scalar],
    left: usize,
    right: usize,
    rhos: &[Scalar],
    round: usize,
) -> (r: Result<(Scalar, Scalar), SpartanError>)
    ensures
        r is Ok <==> materialized_round_ok(
            NifsRoundShape { e_eq, left, right, rhos, round },
            a_layers@,
            b_layers@,
            c_layers@,
        ),
        reports(
            r,
            materialized_round_failure(
                NifsRoundShape { e_eq, left, right, rhos, round },
                a_layers@,
                b_layers@,
                c_layers@,
            ),
        ),
        r matches Ok(v) ==> {
            &&& v.0@ == fmod(
                field_round_e0(
                    a_layers@,
                    b_layers@,
                    c_layers@,
                    e_eq@,
                    left as int,
                    right as int,
                    rhos@,
                    round as int,
                    a_layers@.len() / 2,
                ),
            )
            &&& v.1@ == fmod(
                round_quad(
                    a_layers@,
                    b_layers@,
                    e_eq@,
                    left as int,
                    right as int,
                    rhos@,
                    round as int,
                    a_layers@.len() / 2,
                ),
            )
        },
{
    let shape = NifsRoundShape { e_eq, left, right, rhos, round };
    match validate_materialized_c_round_inputs(shape, a_layers, b_layers, c_layers) {
        Ok(()) => {},
        Err(e) => {
            return Err(e);
        },
    }
    let pairs = a_layers.len() / 2;
    let ell_b = rhos.len();
    let mut e0 = Scalar::zero();
    let mut quad = Scalar::zero();
    let mut p: usize = 0;
    while p < pairs
        invariant
            p <= pairs,
            pairs == a_layers@.len() / 2,
            a_layers@.len() <= usize::MAX,
            ell_b == rhos@.len(),
            materialized_round_ok(shape, a_layers@, b_layers@, c_layers@),
            shape == (NifsRoundShape { e_eq, left, right, rhos, round }),
            e0@ == fmod(
                field_round_e0(
                    a_layers@,
                    b_layers@,
                    c_layers@,
                    e_eq@,
                    left as int,
                    right as int,
                    rhos@,
                    round as int,
                    p as nat,
                ),
            ),
            quad@ == fmod(
                round_quad(
                    a_layers@,
                    b_layers@,
                    e_eq@,
                    left as int,
                    right as int,
                    rhos@,
                    round as int,
                    p as nat,
                ),
            ),
        decreases pairs - p,
    {
        let i = 2 * p;
        assert(a_layers@[i as int]@.len() == left * right);
        assert(b_layers@[i as int]@.len() == left * right);
        assert(c_layers@[i as int]@.len() == left * right);
        assert(a_layers@[i + 1]@.len() == left * right);
        assert(b_layers@[i + 1]@.len() == left * right);
        let (pe0, pquad) = prove_helper(
            round,
            left,
            right,
            e_eq,
            a_layers[i].as_slice(),
            b_layers[i].as_slice(),
            c_layers[i].as_slice(),
            a_layers[i + 1].as_slice(),
            b_layers[i + 1].as_slice(),
        );
        let w = suffix_weight_full(round, ell_b, p, rhos);
        let te = pe0.mul(&w);
        let tq = pquad.mul(&w);
        proof {
            let se = field_round_e0(
                a_layers@,
                b_layers@,
                c_layers@,
                e_eq@,
                left as int,
                right as int,
                rhos@,
                round as int,
                p as nat,
            );
            let sq = round_quad(
                a_layers@,
                b_layers@,
                e_eq@,
                left as int,
                right as int,
                rhos@,
                round as int,
                p as nat,
            );
            lemma_add_reduced(se, (pe0@ * w@) as int);
            lemma_reduced_fixed(fmod(se));
            lemma_add_reduced(sq, (pquad@ * w@) as int);
            lemma_reduced_fixed(fmod(sq));
        }
        e0 = e0.add(&te);
        quad = quad.add(&tq);
        p = p + 1;
    }
    Ok((e0, quad))
}

/// Whether the scalar-`C` round inputs pass their checks.
pub open spec fn scalar_c_round_ok(
    shape: NifsRoundShape,
    a: Seq<Vec<Scalar>>,
    b: Seq<Vec<Scalar>>,
    c: Seq<Scalar>,
) -> bool {
    &&& a.len() == b.len()
    &&& a.len() == c.len()
    &&& a.len() > 0
    &&& a.len() % 2 == 0
    &&& round_shape_ok(shape)
    &&& all_layers_have_len(a, shape.left * shape.right)
    &&& all_layers_have_len(b, shape.left * shape.right)
}

/// The weighted claims of one NIFS round from `A/B` layers and scalar `C`
/// claims: per pair, `e0 = e0_ab - c[2p]` with `e0_ab` and `quad` of
/// [`prove_helper_ab_only`], weighted by the suffix weights of the round.
pub fn compute_ab_c_claim_round(
    a_layers: &[Vec<Scalar>],
    b_layers: &[Vec<Scalar>],
    c_claims: &[Scalar],
    e_eq: &[Scalar],
    left: usize,
    right: usize,
    rhos: &[Scalar],
    round: usize,
) -> (r: Result<(Scalar, Scalar), SpartanError>)
    ensures
        r is Ok <==> scalar_c_round_ok(
            NifsRoundShape { e_eq, left, right, rhos, round },
            a_layers@,
            b_layers@,
            c_claims@,
        ),
        reports(
            r,
            scalar_round_failure(
                NifsRoundShape { e_eq, left, right, rhos, round },
                a_layers@,
                b_layers@,
                c_claims@,
            ),
        ),
        r matches Ok(v) ==> {
            &&& v.0@ == fmod(
                claim_round_e0(
                    a_layers@,
                    b_layers@,
                    c_claims@,
                    e_eq@,
                    left as int,
                    right as int,
                    rhos@,
                    round as int,
                    a_layers@.len() / 2,
                ),
            )
            &&& v.1@ == fmod(
                round_quad(
                    a_layers@,
                    b_layers@,
                    e_eq@,
                    left as int,
                    right as int,
                    rhos@,
                    round as int,
                    a_layers@.len() / 2,
                ),
            )
        },
{
    let shape = NifsRoundShape { e_eq, left, right, rhos, round };
    match validate_scalar_c_round_inputs(shape, a_layers, b_layers, c_claims) {
        Ok(()) => {},
        Err(e) => {
            return Err(e);
        },
    }
    let pairs = a_layers.len() / 2;
    let ell_b = rhos.len();
    let mut e0 = Scalar::zero();
    let mut quad = Scalar::zero();
    let mut p: usize = 0;
    while p < pairs
        invariant
            p <= pairs,
            pairs == a_layers@.len() / 2,
            a_layers@.len() <= usize::MAX,
            ell_b == rhos@.len(),
            scalar_c_round_ok(shape, a_layers@, b_layers@, c_claims@),
            shape == (NifsRoundShape { e_eq, left, right, rhos, round }),
            e0@ == fmod(
                claim_round_e0(
                    a_layers@,
                    b_layers@,
                    c_claims@,
                    e_eq@,
                    left as int,
                    right as int,
                    rhos@,
                    round as int,
                    p as nat,
                ),
            ),
            quad@ == fmod(
                round_quad(
                    a_layers@,
                    b_layers@,
                    e_eq@,
                    left as int,
                    right as int,
                    rhos@,
                    round as int,
                    p as nat,
                ),
            ),
        decreases pairs - p,
    {
        let i = 2 * p;
        assert(a_layers@[i as int]@.len() == left * right);
        assert(b_layers@[i as int]@.len() == left * right);
        assert(a_layers@[i + 1]@.len() == left * right);
        assert(b_layers@[i + 1]@.len() == left * right);
        let (e0_ab, pquad) = prove_helper_ab_only(
            left,
            right,
            e_eq,
            a_layers[i].as_slice(),
            b_layers[i].as_slice(),
            a_layers[i + 1].as_slice(),
            b_layers[i + 1].as_slice(),
        );
        let pe0 = e0_ab.sub(&c_claims[i]);
        let w = suffix_weight_full(round, ell_b, p, rhos);
        let te = pe0.mul(&w);
        let tq = pquad.mul(&w);
        proof {
            let se = claim_round_e0(
                a_layers@,
                b_layers@,
                c_claims@,
                e_eq@,
                left as int,
                right as int,
                rhos@,
                round as int,
                p as nat,
            );
            let sq = round_quad(
                a_layers@,
                b_layers@,
                e_eq@,
                left as int,
                right as int,
                rhos@,
                round as int,
                p as nat,
            );
            lemma_add_reduced(se, (pe0@ * w@) as int);
            lemma_reduced_fixed(fmod(se));
            lemma_add_reduced(sq, (pquad@ * w@) as int);
            lemma_reduced_fixed(fmod(sq));
        }
        e0 = e0.add(&te);
        quad = quad.add(&tq);
        p = p + 1;
    }
    Ok((e0, quad))
}

} // verus!
