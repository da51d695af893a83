//! `Cz` claims and final `Cz` folds from small `Cz` layers, corrected at the
//! large positions from the field layers.

use crate::dot::{field_vec_column_dot, field_vec_column_dot_exec, mac_field};
use crate::errors::{
    decimal_text, fails_with, invalid_input, invalid_input_owned, is_invalid_input,
    text_with_two_numbers, SpartanError,
};
use crate::field::{field_modulus, fmod, lemma_fmod_range, lemma_scalar_lt_modulus, Scalar};
use crate::neutronnova_zk::{all_layers_have_len, validate_layer_family};
use crate::small_int::SmallValue;
use vstd::prelude::*;

verus! {

broadcast use {lemma_scalar_lt_modulus, lemma_fmod_range};

// ---------------------------------------------------------------------------
// Specification.
// ---------------------------------------------------------------------------

/// The integers of a small layer.
pub open spec fn i64_vals(layer: Seq<i64>) -> spec_fn(int) -> int {
    |k: int| layer[k] as int
}

/// The values of a field layer.
pub open spec fn field_vals(layer: Seq<Scalar>) -> spec_fn(int) -> int {
    |k: int| layer[k]@ as int
}

/// `sum_{j < n} e[j] * vals(base + j)` over the integers.
pub open spec fn row_sum(e: Seq<Scalar>, vals: spec_fn(int) -> int, base: int, n: nat) -> int
    decreases n,
{
    if n == 0 {
        0
    } else {
        row_sum(e, vals, base, (n - 1) as nat) + e[n - 1]@ * vals(base + n - 1)
    }
}

/// `sum_{i < rows} e[left + i] * sum_{j < left} e[j] * vals(i * left + j)`:
/// the dot product of a `left x rows` layer with the split equality table
/// `e = e_left ++ e_right`, over the integers.
pub open spec fn split_eq_sum(e: Seq<Scalar>, vals: spec_fn(int) -> int, left: nat, rows: nat) -> int
    decreases rows,
{
    if rows == 0 {
        0
    } else {
        split_eq_sum(e, vals, left, (rows - 1) as nat) + e[left + rows - 1]@ * row_sum(
            e,
            vals,
            (rows - 1) * left,
            left,
        )
    }
}

/// The split equality weight of position `k`: `e_left[k % left] *
/// e_right[k / left]`.
pub open spec fn split_eq_weight(e: Seq<Scalar>, left: nat, k: int) -> int {
    (e[k % (left as int)]@ * e[left + k / (left as int)]@) as int
}

/// `sum_{p < n, pos[p] < total} weight(pos[p]) * vals(pos[p])` over the
/// integers.
pub open spec fn listed_sum(
    e: Seq<Scalar>,
    left: nat,
    pos: Seq<usize>,
    total: nat,
    vals: spec_fn(int) -> int,
    n: nat,
) -> int
    decreases n,
{
    if n == 0 {
        0
    } else {
        listed_sum(e, left, pos, total, vals, (n - 1) as nat) + if pos[n - 1] < total {
            fmod(split_eq_weight(e, left, pos[n - 1] as int)) * vals(pos[n - 1] as int)
        } else {
            0
        }
    }
}

/// `sum_{i < n} w[i] * layers[i][k]` over the integers, for small layers.
pub open spec fn small_vec_column_dot(w: Seq<Scalar>, layers: Seq<Vec<i64>>, k: int, n: nat) -> int
    decreases n,
{
    if n == 0 {
        0
    } else {
        small_vec_column_dot(w, layers, k, (n - 1) as nat) + w[n - 1]@ * layers[n - 1]@[k]
    }
}

// ---------------------------------------------------------------------------
// Arithmetic helpers.
// ---------------------------------------------------------------------------

/// Adding `w * fmod(t)` or `w * t` gives the same field element.
proof fn lemma_mac_reduced(s: int, w: int, t: int)
    ensures
        fmod(s + w * fmod(t)) == fmod(s + w * t),
{
    let m = field_modulus() as int;
    vstd::arithmetic::div_mod::lemma_mul_mod_noop_right(w, t, m);
    vstd::arithmetic::div_mod::lemma_add_mod_noop(s, w * fmod(t), m);
    vstd::arithmetic::div_mod::lemma_add_mod_noop(s, w * t, m);
}

/// `acc + w * x` where `acc` and `x` are reduced forms of `s` and `t`.
fn mac_reduced(acc: &Scalar, w: &Scalar, x: &Scalar, Ghost(s): Ghost<int>, Ghost(t): Ghost<int>) -> (r:
    Scalar)
    requires
        acc@ == fmod(s),
        x@ == fmod(t),
    ensures
        r@ == fmod(s + w@ * t),
{
    let r = mac_field(acc, w, x);
    proof {
        lemma_mac_reduced(s, w@ as int, t);
    }
    r
}

/// `sum_{j < n} e[j] * layer[base + j]` in the field, for a small layer.
fn small_row_dot(e: &[Scalar], layer: &[i64], base: usize, n: usize) -> (r: Scalar)
    requires
        n <= e@.len(),
        base + n <= layer@.len(),
    ensures
        r@ == fmod(row_sum(e@, i64_vals(layer@), base as int, n as nat)),
{
    let mut acc = Scalar::zero();
    let _len = layer.len();
    let mut j: usize = 0;
    while j < n
        invariant
            j <= n,
            n <= e@.len(),
            base + n <= layer@.len(),
            layer@.len() <= usize::MAX,
            acc@ == fmod(row_sum(e@, i64_vals(layer@), base as int, j as nat)),
        decreases n - j,
    {
        let x = layer[base + j].small_to_field();
        acc = mac_reduced(
            &acc,
            &e[j],
            &x,
            Ghost(row_sum(e@, i64_vals(layer@), base as int, j as nat)),
            Ghost(layer@[base + j] as int),
        );
        j = j + 1;
    }
    acc
}

/// `sum_{j < n} e[j] * layer[base + j]` in the field, for a field layer.
fn field_row_dot(e: &[Scalar], layer: &[Scalar], base: usize, n: usize) -> (r: Scalar)
    requires
        n <= e@.len(),
        base + n <= layer@.len(),
    ensures
        r@ == fmod(row_sum(e@, field_vals(layer@), base as int, n as nat)),
{
    let mut acc = Scalar::zero();
    let _len = layer.len();
    let mut j: usize = 0;
    while j < n
        invariant
            j <= n,
            n <= e@.len(),
            base + n <= layer@.len(),
            layer@.len() <= usize::MAX,
            acc@ == fmod(row_sum(e@, field_vals(layer@), base as int, j as nat)),
        decreases n - j,
    {
        proof {
            vstd::arithmetic::div_mod::lemma_small_mod(layer@[base + j]@, field_modulus());
        }
        acc = mac_reduced(
            &acc,
            &e[j],
            &layer[base + j],
            Ghost(row_sum(e@, field_vals(layer@), base as int, j as nat)),
            Ghost(layer@[base + j]@ as int),
        );
        j = j + 1;
    }
    acc
}

// ---------------------------------------------------------------------------
// Claims.
// ---------------------------------------------------------------------------

/// The split equality dot product of a field layer: `sum_{i < right}
/// e_right[i] * sum_{j < left} e_left[j] * layer[i * left + j]`, where
/// `e_eq = e_left ++ e_right`.
pub fn dot_field_layer_with_split_eq(layer: &[Scalar], e_eq: &[Scalar], left: usize, right: usize) -> (r:
    Result<Scalar, SpartanError>)
    requires
        left + right <= usize::MAX,
        left * right <= usize::MAX,
    ensures
        e_eq@.len() != left + right ==> fails_with(r, "split equality table has wrong length"@),
        e_eq@.len() == left + right && layer@.len() != left * right ==> fails_with(
            r,
            "field layer has wrong length"@,
        ),
        e_eq@.len() == left + right && layer@.len() == left * right ==> (r matches Ok(v) && v@
            == fmod(split_eq_sum(e_eq@, field_vals(layer@), left as nat, right as nat))),
{
    if e_eq.len() != left + right {
        return Err(invalid_input("split equality table has wrong length"));
    }
    if layer.len() != left * right {
        return Err(invalid_input("field layer has wrong length"));
    }
    Ok(split_eq_dot(layer, e_eq, left, right))
}

/// `sum_{i < right} e[left + i] * sum_{j < left} e[j] * layer[i * left + j]`
/// in the field.
pub(crate) fn split_eq_dot(layer: &[Scalar], e_eq: &[Scalar], left: usize, right: usize) -> (r: Scalar)
    requires
        left + right <= usize::MAX,
        left * right <= usize::MAX,
        left + right <= e_eq@.len(),
        left * right <= layer@.len(),
    ensures
        r@ == fmod(split_eq_sum(e_eq@, field_vals(layer@), left as nat, right as nat)),
{
    let mut acc = Scalar::zero();
    let mut i: usize = 0;
    while i < right
        invariant
            i <= right,
            left + right <= e_eq@.len(),
            left * right <= layer@.len(),
            left * right <= usize::MAX,
            left + right <= usize::MAX,
            acc@ == fmod(split_eq_sum(e_eq@, field_vals(layer@), left as nat, i as nat)),
        decreases right - i,
    {
        assert(i * left + left <= left * right) by (nonlinear_arith)
            requires
                i < right,
        ;
        let base = i * left;
        let inner = field_row_dot(e_eq, layer, base, left);
        acc = mac_reduced(
            &acc,
            &e_eq[left + i],
            &inner,
            Ghost(split_eq_sum(e_eq@, field_vals(layer@), left as nat, i as nat)),
            Ghost(row_sum(e_eq@, field_vals(layer@), base as int, left as nat)),
        );
        i = i + 1;
    }
    acc
}

/// The failure of the checks of [`compute_small_c_claims_with_field_corrections`],
/// if any.
pub open spec fn small_c_claims_failure(
    n_small: nat,
    n_field: nat,
    small: Seq<Vec<i64>>,
    field: Seq<Vec<Scalar>>,
    e_len: int,
    left: int,
    right: int,
) -> Option<Seq<char>> {
    let total = left * right;
    if n_small == 0 {
        Some("cannot compute C claims for empty layer list"@)
    } else if n_small != n_field {
        Some("small C and field C layer counts do not match"@)
    } else if total > usize::MAX {
        Some("left * right overflows"@)
    } else if left + right > usize::MAX {
        Some("left + right overflows"@)
    } else if e_len != left + right {
        Some(
            "E_eq length "@ + decimal_text(e_len) + " does not match left + right "@ + decimal_text(
                left + right,
            ),
        )
    } else if !all_layers_have_len(small, total) {
        Some("all "@ + "small C"@ + " layers must have length "@ + decimal_text(total) + ""@)
    } else if !all_layers_have_len(field, total) {
        Some("all "@ + "field C"@ + " layers must have length "@ + decimal_text(total) + ""@)
    } else {
        None
    }
}

/// The `Cz` claim of small layer `l`, corrected at the listed positions:
/// `sum_k eq(k) * small[l][k] + sum_{listed k < left * right} eq(k) *
/// field[l][k]`, in the field.
pub open spec fn corrected_c_claim(
    e: Seq<Scalar>,
    small: Seq<i64>,
    field: Seq<Scalar>,
    pos: Seq<usize>,
    left: nat,
    right: nat,
) -> nat {
    fmod(
        split_eq_sum(e, i64_vals(small), left, right) + listed_sum(
            e,
            left,
            pos,
            left * right,
            field_vals(field),
            pos.len(),
        ),
    )
}

/// The `Cz` claims of small `Cz` layers with the large positions corrected
/// from the field `Cz` layers.
///
/// Claim `l` is `sum_k eq(k) * c_small[l][k]`, where `eq(k) = e_left[k %
/// left] * e_right[k / left]` and `e_eq = e_left ++ e_right`, plus
/// `eq(k) * c_field[l][k]` for each listed position `k < left * right`
/// (the small layers hold zero there).
#[verifier::rlimit(40)]
pub fn compute_small_c_claims_with_field_corrections(
    c_small_layers: &[Vec<i64>],
    c_field_layers: &[Vec<Scalar>],
    large_positions: &[usize],
    e_eq: &[Scalar],
    left: usize,
    right: usize,
) -> (r: Result<Vec<Scalar>, SpartanError>)
    ensures
        match small_c_claims_failure(
            c_small_layers@.len(),
            c_field_layers@.len(),
            c_small_layers@,
            c_field_layers@,
            e_eq@.len() as int,
            left as int,
            right as int,
        ) {
            Some(t) => fails_with(r, t),
            None => r matches Ok(vals) && vals@.len() == c_small_layers@.len() && forall|l: int|
                0 <= l < vals@.len() ==> (#[trigger] vals@[l])@ == corrected_c_claim(
                    e_eq@,
                    c_small_layers@[l]@,
                    c_field_layers@[l]@,
                    large_positions@,
                    left as nat,
                    right as nat,
                ),
        },
{
    if c_small_layers.len() == 0 {
        return Err(invalid_input("cannot compute C claims for empty layer list"));
    }
    if c_small_layers.len() != c_field_layers.len() {
        return Err(invalid_input("small C and field C layer counts do not match"));
    }
    let expected_len = match left.checked_mul(right) {
        Some(t) => t,
        None => {
            return Err(invalid_input("left * right overflows"));
        },
    };
    let expected_eq_len = match left.checked_add(right) {
        Some(t) => t,
        None => {
            return Err(invalid_input("left + right overflows"));
        },
    };
    proof {
        reveal_strlit("");
    }
    if e_eq.len() != expected_eq_len {
        let reason = text_with_two_numbers(
            "E_eq length ",
            e_eq.len(),
            " does not match left + right ",
            expected_eq_len,
            "",
        );
        assert(reason@ =~= "E_eq length "@ + decimal_text(e_eq@.len() as int)
            + " does not match left + right "@ + decimal_text(expected_eq_len as int));
        return Err(invalid_input_owned(reason));
    }
    match validate_layer_family("small C", c_small_layers, expected_len) {
        Ok(()) => {},
        Err(e) => {
            return Err(e);
        },
    }
    match validate_layer_family("field C", c_field_layers, expected_len) {
        Ok(()) => {},
        Err(e) => {
            return Err(e);
        },
    }
    let n = c_small_layers.len();
    let mut vals: Vec<Scalar> = Vec::new();
    let mut l: usize = 0;
    while l < n
        invariant
            l <= n,
            n == c_small_layers@.len(),
            e_eq@.len() == left + right,
            left * right == expected_len,
            left + right <= usize::MAX,
            all_layers_have_len(c_small_layers@, expected_len as int),
            vals@.len() == l,
            forall|q: int|
                0 <= q < l ==> (#[trigger] vals@[q])@ == fmod(
                    split_eq_sum(e_eq@, i64_vals(c_small_layers@[q]@), left as nat, right as nat),
                ),
        decreases n - l,
    {
        let layer: &[i64] = c_small_layers[l].as_slice();
        assert(layer@.len() == expected_len);
        let mut acc = Scalar::zero();
        let mut i: usize = 0;
        while i < right
            invariant
                i <= right,
                e_eq@.len() == left + right,
                layer@.len() == left * right,
                left * right <= usize::MAX,
                left + right <= usize::MAX,
                acc@ == fmod(split_eq_sum(e_eq@, i64_vals(layer@), left as nat, i as nat)),
            decreases right - i,
        {
            assert(i * left + left <= left * right) by (nonlinear_arith)
                requires
                    i < right,
            ;
            let base = i * left;
            let inner = small_row_dot(e_eq, layer, base, left);
            acc = mac_reduced(
                &acc,
                &e_eq[left + i],
                &inner,
                Ghost(split_eq_sum(e_eq@, i64_vals(layer@), left as nat, i as nat)),
                Ghost(row_sum(e_eq@, i64_vals(layer@), base as int, left as nat)),
            );
            i = i + 1;
        }
        vals.push(acc);
        l = l + 1;
    }
    let ghost small_part = vals@;
    let mut p: usize = 0;
    while p < large_positions.len()
        invariant
            p <= large_positions@.len(),
            n == c_small_layers@.len(),
            n == c_field_layers@.len(),
            e_eq@.len() == left + right,
            left * right == expected_len,
            left + right <= usize::MAX,
            all_layers_have_len(c_field_layers@, expected_len as int),
            small_part.len() == n,
            vals@.len() == n,
            forall|q: int|
                0 <= q < n ==> (#[trigger] vals@[q])@ == fmod(
                    small_part[q]@ + listed_sum(
                        e_eq@,
                        left as nat,
                        large_positions@,
                        expected_len as nat,
                        field_vals(c_field_layers@[q]@),
                        p as nat,
                    ),
                ),
        decreases large_positions@.len() - p,
    {
        let k = large_positions[p];
        if k < expected_len {
            assert(left > 0) by (nonlinear_arith)
                requires
                    k < left * right,
            ;
            assert(k / left < right) by (nonlinear_arith)
                requires
                    k < left * right,
                    left > 0,
            ;
            let i = k / left;
            let j = k % left;
            let eq_at_k = e_eq[j].mul(&e_eq[left + i]);
            let ghost w = split_eq_weight(e_eq@, left as nat, k as int);
            assert(eq_at_k@ == fmod(w));
            let mut q: usize = 0;
            while q < n
                invariant
                    q <= n,
                    n == c_field_layers@.len(),
                    k < expected_len,
                    eq_at_k@ == fmod(w),
                    w == split_eq_weight(e_eq@, left as nat, k as int),
                    k == large_positions@[p as int],
                    p < large_positions@.len(),
                    all_layers_have_len(c_field_layers@, expected_len as int),
                    small_part.len() == n,
                    vals@.len() == n,
                    forall|t: int|
                        0 <= t < q ==> (#[trigger] vals@[t])@ == fmod(
                            small_part[t]@ + listed_sum(
                                e_eq@,
                                left as nat,
                                large_positions@,
                                expected_len as nat,
                                field_vals(c_field_layers@[t]@),
                                (p + 1) as nat,
                            ),
                        ),
                    forall|t: int|
                        q <= t < n ==> (#[trigger] vals@[t])@ == fmod(
                            small_part[t]@ + listed_sum(
                                e_eq@,
                                left as nat,
                                large_positions@,
                                expected_len as nat,
                                field_vals(c_field_layers@[t]@),
                                p as nat,
                            ),
                        ),
                decreases n - q,
            {
                let ghost s = small_part[q as int]@ + listed_sum(
                    e_eq@,
                    left as nat,
                    large_positions@,
                    expected_len as nat,
                    field_vals(c_field_layers@[q as int]@),
                    p as nat,
                );
                assert(c_field_layers@[q as int]@.len() == expected_len);
                let v = mac_field(&vals[q], &eq_at_k, &c_field_layers[q][k]);
                assert(v@ == fmod(s + eq_at_k@ * c_field_layers@[q as int]@[k as int]@));
                vals.set(q, v);
                q = q + 1;
            }
        }
        p = p + 1;
    }
    proof {
        assert forall|q: int| 0 <= q < n implies (#[trigger] vals@[q])@ == corrected_c_claim(
            e_eq@,
            c_small_layers@[q]@,
            c_field_layers@[q]@,
            large_positions@,
            left as nat,
            right as nat,
        ) by {
            let a = split_eq_sum(e_eq@, i64_vals(c_small_layers@[q]@), left as nat, right as nat);
            let b = listed_sum(
                e_eq@,
                left as nat,
                large_positions@,
                expected_len as nat,
                field_vals(c_field_layers@[q]@),
                large_positions@.len(),
            );
            vstd::arithmetic::div_mod::lemma_add_mod_noop(a, b, field_modulus() as int);
            vstd::arithmetic::div_mod::lemma_small_mod(fmod(b), field_modulus());
        }
    }
    Ok(vals)
}

/// The split equality dot products of field `Cz` layers.
pub fn compute_field_c_claims(c_layers: &[Vec<Scalar>], e_eq: &[Scalar], left: usize, right: usize) -> (r:
    Result<Vec<Scalar>, SpartanError>)
    requires
        left + right <= usize::MAX,
        left * right <= usize::MAX,
    ensures
        c_layers@.len() > 0 && e_eq@.len() != left + right ==> fails_with(
            r,
            "split equality table has wrong length"@,
        ),
        (c_layers@.len() == 0 || e_eq@.len() == left + right) && !all_layers_have_len(
            c_layers@,
            left * right,
        ) ==> fails_with(r, "field layer has wrong length"@),
        (c_layers@.len() == 0 || e_eq@.len() == left + right) && all_layers_have_len(
            c_layers@,
            left * right,
        ) ==> (r matches Ok(vals) && vals@.len() == c_layers@.len() && forall|l: int|
            0 <= l < vals@.len() ==> (#[trigger] vals@[l])@ == fmod(
                split_eq_sum(e_eq@, field_vals(c_layers@[l]@), left as nat, right as nat),
            )),
{
    let n = c_layers.len();
    let mut vals: Vec<Scalar> = Vec::new();
    let mut l: usize = 0;
    while l < n
        invariant
            l <= n,
            n == c_layers@.len(),
            left + right <= usize::MAX,
            left * right <= usize::MAX,
            l > 0 ==> e_eq@.len() == left + right,
            forall|q: int| 0 <= q < l ==> (#[trigger] c_layers@[q])@.len() == left * right,
            vals@.len() == l,
            forall|q: int|
                0 <= q < l ==> (#[trigger] vals@[q])@ == fmod(
                    split_eq_sum(e_eq@, field_vals(c_layers@[q]@), left as nat, right as nat),
                ),
        decreases n - l,
    {
        match dot_field_layer_with_split_eq(c_layers[l].as_slice(), e_eq, left, right) {
            Ok(v) => {
                vals.push(v);
            },
            Err(e) => {
                return Err(e);
            },
        }
        l = l + 1;
    }
    Ok(vals)
}

/// `sum_{i < n} w[i] * layers[i][k]` in the field, for small layers.
fn small_vec_column_dot_exec(w: &[Scalar], layers: &[Vec<i64>], k: usize, n: usize) -> (r: Scalar)
    requires
        n <= w@.len(),
        n <= layers@.len(),
        forall|i: int| 0 <= i < n ==> k < (#[trigger] layers@[i])@.len(),
    ensures
        r@ == fmod(small_vec_column_dot(w@, layers@, k as int, n as nat)),
{
    let mut acc = Scalar::zero();
    let mut i: usize = 0;
    while i < n
        invariant
            i <= n,
            n <= w@.len(),
            n <= layers@.len(),
            forall|i: int| 0 <= i < n ==> k < (#[trigger] layers@[i])@.len(),
            acc@ == fmod(small_vec_column_dot(w@, layers@, k as int, i as nat)),
        decreases n - i,
    {
        let x = layers[i][k].small_to_field();
        acc = mac_reduced(
            &acc,
            &w[i],
            &x,
            Ghost(small_vec_column_dot(w@, layers@, k as int, i as nat)),
            Ghost(layers@[i as int]@[k as int] as int),
        );
        i = i + 1;
    }
    acc
}

/// The failure of the checks of [`fold_small_c_with_field_corrections`], if
/// any.
pub open spec fn small_c_fold_failure(
    small: Seq<Vec<i64>>,
    field: Seq<Vec<Scalar>>,
    n_weights: nat,
) -> Option<Seq<char>> {
    if small.len() == 0 {
        Some("cannot fold empty small C layer list"@)
    } else if small.len() != field.len() || small.len() != n_weights {
        Some("small C, field C, and weight counts do not match"@)
    } else if !all_layers_have_len(small, small[0]@.len() as int) {
        Some(
            "all "@ + "small C"@ + " layers must have length "@ + decimal_text(
                small[0]@.len() as int,
            ) + ""@,
        )
    } else if !all_layers_have_len(field, small[0]@.len() as int) {
        Some(
            "all "@ + "field C"@ + " layers must have length "@ + decimal_text(
                small[0]@.len() as int,
            ) + ""@,
        )
    } else {
        None
    }
}

/// Fold small `Cz` layers with the final weights, setting each listed
/// position to the weighted fold of the field `Cz` layers there.
pub fn fold_small_c_with_field_corrections(
    c_small_layers: &[Vec<i64>],
    c_field_layers: &[Vec<Scalar>],
    large_positions: &[usize],
    final_weights: &[Scalar],
) -> (r: Result<Vec<Scalar>, SpartanError>)
    ensures
        match small_c_fold_failure(c_small_layers@, c_field_layers@, final_weights@.len()) {
            Some(t) => fails_with(r, t),
            None => r matches Ok(out) && {
                let n = c_small_layers@.len();
                let len = c_small_layers@[0]@.len();
                &&& out@.len() == len
                &&& forall|k: int|
                    0 <= k < len ==> (#[trigger] out@[k])@ == if large_positions@.contains(
                        k as usize,
                    ) {
                        fmod(field_vec_column_dot(final_weights@, 0, c_field_layers@, 0, k, n))
                    } else {
                        fmod(small_vec_column_dot(final_weights@, c_small_layers@, k, n))
                    }
            },
        },
{
    if c_small_layers.len() == 0 {
        return Err(invalid_input("cannot fold empty small C layer list"));
    }
    if c_small_layers.len() != c_field_layers.len() || c_small_layers.len() != final_weights.len() {
        return Err(invalid_input("small C, field C, and weight counts do not match"));
    }
    let layer_len = c_small_layers[0].len();
    match validate_layer_family("small C", c_small_layers, layer_len) {
        Ok(()) => {},
        Err(e) => {
            return Err(e);
        },
    }
    match validate_layer_family("field C", c_field_layers, layer_len) {
        Ok(()) => {},
        Err(e) => {
            return Err(e);
        },
    }
    let n = c_small_layers.len();
    let mut folded: Vec<Scalar> = Vec::new();
    let mut k: usize = 0;
    while k < layer_len
        invariant
            k <= layer_len,
            n == c_small_layers@.len(),
            n == final_weights@.len(),
            all_layers_have_len(c_small_layers@, layer_len as int),
            folded@.len() == k,
            forall|j: int|
                0 <= j < k ==> (#[trigger] folded@[j])@ == fmod(
                    small_vec_column_dot(final_weights@, c_small_layers@, j, n as nat),
                ),
        decreases layer_len - k,
    {
        let v = small_vec_column_dot_exec(final_weights, c_small_layers, k, n);
        folded.push(v);
        k = k + 1;
    }
    let ghost small_part = folded@;
    let mut p: usize = 0;
    while p < large_positions.len()
        invariant
            p <= large_positions@.len(),
            n == c_small_layers@.len(),
            n == c_field_layers@.len(),
            n == final_weights@.len(),
            layer_len <= usize::MAX,
            all_layers_have_len(c_field_layers@, layer_len as int),
            small_part.len() == layer_len,
            folded@.len() == layer_len,
            forall|j: int|
                0 <= j < layer_len ==> (#[trigger] folded@[j])@ == if large_positions@.take(
                    p as int,
                ).contains(j as usize) {
                    fmod(field_vec_column_dot(final_weights@, 0, c_field_layers@, 0, j, n as nat))
                } else {
                    small_part[j]@
                },
        decreases large_positions@.len() - p,
    {
        let k = large_positions[p];
        if k < layer_len {
            let v = field_vec_column_dot_exec(final_weights, 0, c_field_layers, 0, k, n);
            folded.set(k, v);
        }
        proof {
            let cur = large_positions@.take(p + 1);
            let prev = large_positions@.take(p as int);
            assert(cur[p as int] == k);
            assert forall|j: int| 0 <= j < layer_len implies (#[trigger] folded@[j])@ == if cur.contains(
                j as usize,
            ) {
                fmod(field_vec_column_dot(final_weights@, 0, c_field_layers@, 0, j, n as nat))
            } else {
                small_part[j]@
            } by {
                if cur.contains(j as usize) && j != k {
                    let w = choose|w: int| 0 <= w < p + 1 && #[trigger] cur[w] == j as usize;
                    assert(prev[w] == j as usize);
                }
                if prev.contains(j as usize) {
                    let w = choose|w: int| 0 <= w < p && #[trigger] prev[w] == j as usize;
                    assert(cur[w] == j as usize);
                }
                if j == k {
                    assert(cur.contains(j as usize));
                }
            }
        }
        p = p + 1;
    }
    assert(large_positions@.take(large_positions@.len() as int) =~= large_positions@);
    Ok(folded)
}

/// Whether every small `Cz` value denotes its field value, except at the
/// listed positions, where it is zero.
pub open spec fn c_cache_reads(small: Seq<Vec<i64>>, field: Seq<Vec<Scalar>>, pos: Seq<usize>) -> bool {
    forall|i: int, k: int|
        0 <= i < small.len() && 0 <= k < small[i]@.len() ==> if pos.contains(k as usize) {
            #[trigger] small[i]@[k] == 0
        } else {
            fmod(small[i]@[k] as int) == field[i]@[k]@
        }
}

/// Column sums of congruent layers are congruent.
proof fn lemma_small_field_column_dot(
    w: Seq<Scalar>,
    small: Seq<Vec<i64>>,
    field: Seq<Vec<Scalar>>,
    k: int,
    n: nat,
)
    requires
        n <= small.len(),
        n <= field.len(),
        forall|i: int| 0 <= i < n ==> fmod((#[trigger] small[i])@[k] as int) == field[i]@[k]@,
    ensures
        fmod(small_vec_column_dot(w, small, k, n)) == fmod(field_vec_column_dot(w, 0, field, 0, k, n)),
    decreases n,
{
    if n > 0 {
        lemma_small_field_column_dot(w, small, field, k, (n - 1) as nat);
        let m = field_modulus() as int;
        let a = small_vec_column_dot(w, small, k, (n - 1) as nat);
        let b = field_vec_column_dot(w, 0, field, 0, k, (n - 1) as nat);
        let x = small[n - 1]@[k] as int;
        let y = field[n - 1]@[k]@ as int;
        let c = w[n - 1]@ as int;
        assert(fmod(x) == y);
        vstd::arithmetic::div_mod::lemma_small_mod(y as nat, field_modulus());
        vstd::arithmetic::div_mod::lemma_mul_mod_noop_right(c, x, m);
        vstd::arithmetic::div_mod::lemma_mul_mod_noop_right(c, y, m);
        vstd::arithmetic::div_mod::lemma_add_mod_noop(a, c * x, m);
        vstd::arithmetic::div_mod::lemma_add_mod_noop(b, c * y, m);
    }
}

/// The corrected final `Cz` fold equals the fold of the field `Cz` layers:
/// when the small layers pass the checks of
/// [`fold_small_c_with_field_corrections`] and every small value denotes its
/// field value away from the listed positions, each position of the
/// corrected fold is `sum_i weights[i] * field[i][k]`.
pub proof fn law_corrected_c_fold_matches_field_fold(
    small: Seq<Vec<i64>>,
    field: Seq<Vec<Scalar>>,
    pos: Seq<usize>,
    weights: Seq<Scalar>,
)
    requires
        small_c_fold_failure(small, field, weights.len()) is None,
        c_cache_reads(small, field, pos),
    ensures
        forall|k: int|
            0 <= k < small[0]@.len() ==> #[trigger] fmod(
                field_vec_column_dot(weights, 0, field, 0, k, small.len()),
            ) == if pos.contains(k as usize) {
                fmod(field_vec_column_dot(weights, 0, field, 0, k, small.len()))
            } else {
                fmod(small_vec_column_dot(weights, small, k, small.len()))
            },
{
    assert forall|k: int| 0 <= k < small[0]@.len() && !pos.contains(k as usize) implies fmod(
        small_vec_column_dot(weights, small, k, small.len()),
    ) == fmod(field_vec_column_dot(weights, 0, field, 0, k, small.len())) by {
        assert forall|i: int| 0 <= i < small.len() implies fmod((#[trigger] small[i])@[k] as int)
            == field[i]@[k]@ by {
            assert(small[i]@.len() == small[0]@.len());
        }
        lemma_small_field_column_dot(weights, small, field, k, small.len());
    }
}

/// Changing one entry `k` of a row changes the row sum by the weight there
/// times the change.
pub proof fn lemma_row_sum_update(
    e: Seq<Scalar>,
    vals: spec_fn(int) -> int,
    vals2: spec_fn(int) -> int,
    base: int,
    n: nat,
    k: int,
)
    requires
        forall|x: int| base <= x < base + n && x != k ==> #[trigger] vals2(x) == vals(x),
    ensures
        row_sum(e, vals2, base, n) == row_sum(e, vals, base, n) + if base <= k < base + n {
            e[k - base]@ * (vals2(k) - vals(k))
        } else {
            0
        },
    decreases n,
{
    if n > 0 {
        lemma_row_sum_update(e, vals, vals2, base, (n - 1) as nat, k);
        let x = base + n - 1;
        vstd::arithmetic::mul::lemma_mul_is_distributive_sub(e[n - 1]@ as int, vals2(x), vals(x));
    }
}

/// Changing one entry `k` of a `left x rows` layer changes its split
/// equality sum by the split equality weight there times the change.
pub proof fn lemma_split_eq_sum_update(
    e: Seq<Scalar>,
    vals: spec_fn(int) -> int,
    vals2: spec_fn(int) -> int,
    left: nat,
    rows: nat,
    k: int,
)
    requires
        left > 0,
        0 <= k,
        forall|x: int| 0 <= x < rows * left && x != k ==> #[trigger] vals2(x) == vals(x),
    ensures
        split_eq_sum(e, vals2, left, rows) == split_eq_sum(e, vals, left, rows) + if k < rows * left {
            e[left + k / (left as int)]@ * (e[k % (left as int)]@ * (vals2(k) - vals(k)))
        } else {
            0
        },
    decreases rows,
{
    if rows > 0 {
        let r = (rows - 1) as nat;
        let base = (r * left) as int;
        assert(rows * left == base + left) by (nonlinear_arith)
            requires
                r == rows - 1,
                base == r * left,
        ;
        lemma_split_eq_sum_update(e, vals, vals2, left, r, k);
        lemma_row_sum_update(e, vals, vals2, base, left, k);
        let d = vals2(k) - vals(k);
        if base <= k < base + left {
            vstd::arithmetic::div_mod::lemma_fundamental_div_mod_converse(
                k,
                left as int,
                r as int,
                k - base,
            );
            assert(k / (left as int) == r);
            assert(k % (left as int) == k - base);
            assert(!(k < r * left));
            let a = e[(left + r) as int]@ as int;
            let b = row_sum(e, vals, base, left);
            let c = e[k - base]@ * d;
            assert(row_sum(e, vals2, base, left) == b + c);
            assert(a * (b + c) == a * b + a * c) by (nonlinear_arith);
            assert(split_eq_sum(e, vals2, left, rows) == split_eq_sum(e, vals2, left, r) + a * (b + c));
            assert(split_eq_sum(e, vals, left, rows) == split_eq_sum(e, vals, left, r) + a * b);
            assert(split_eq_sum(e, vals2, left, r) == split_eq_sum(e, vals, left, r));
            assert(k < rows * left);
            assert(a * c == e[left + k / (left as int)]@ * (e[k % (left as int)]@ * (vals2(k) - vals(k))));
            assert(split_eq_sum(e, vals2, left, rows) == split_eq_sum(e, vals, left, rows) + a * c);
        } else {
            assert(row_sum(e, vals2, base, left) == row_sum(e, vals, base, left));
            if k < base {
                assert(k < r * left);
                assert(k < rows * left);
                assert(split_eq_sum(e, vals2, left, rows) == split_eq_sum(e, vals, left, rows) + e[left + k / (left as int)]@ * (e[k % (left as int)]@ * (vals2(k) - vals(k))));
            } else {
                assert(!(k < r * left));
                assert(!(k < rows * left));
                assert(split_eq_sum(e, vals2, left, rows) == split_eq_sum(e, vals, left, rows));
            }
        }
    } else {
        assert(rows * left == 0) by (nonlinear_arith)
            requires
                rows == 0,
        ;
    }
}

/// Row sums of values that agree modulo the field modulus on the row agree
/// modulo the field modulus.
pub proof fn lemma_row_sum_congruent(
    e: Seq<Scalar>,
    v1: spec_fn(int) -> int,
    v2: spec_fn(int) -> int,
    base: int,
    n: nat,
)
    requires
        forall|x: int| base <= x < base + n ==> fmod(#[trigger] v1(x)) == fmod(v2(x)),
    ensures
        fmod(row_sum(e, v1, base, n)) == fmod(row_sum(e, v2, base, n)),
    decreases n,
{
    if n > 0 {
        lemma_row_sum_congruent(e, v1, v2, base, (n - 1) as nat);
        let m = field_modulus() as int;
        let a = row_sum(e, v1, base, (n - 1) as nat);
        let b = row_sum(e, v2, base, (n - 1) as nat);
        let w = e[n - 1]@ as int;
        let x = v1(base + n - 1);
        let y = v2(base + n - 1);
        assert(fmod(x) == fmod(y));
        vstd::arithmetic::div_mod::lemma_mul_mod_noop_right(w, x, m);
        vstd::arithmetic::div_mod::lemma_mul_mod_noop_right(w, y, m);
        vstd::arithmetic::div_mod::lemma_add_mod_noop(a, w * x, m);
        vstd::arithmetic::div_mod::lemma_add_mod_noop(b, w * y, m);
    }
}

/// Split equality sums of values that agree modulo the field modulus on the
/// layer agree modulo the field modulus.
pub proof fn lemma_split_eq_sum_congruent(
    e: Seq<Scalar>,
    v1: spec_fn(int) -> int,
    v2: spec_fn(int) -> int,
    left: nat,
    rows: nat,
)
    requires
        forall|x: int| 0 <= x < rows * left ==> fmod(#[trigger] v1(x)) == fmod(v2(x)),
    ensures
        fmod(split_eq_sum(e, v1, left, rows)) == fmod(split_eq_sum(e, v2, left, rows)),
    decreases rows,
{
    if rows > 0 {
        let r = (rows - 1) as nat;
        let base = (r * left) as int;
        assert(rows * left == base + left) by (nonlinear_arith)
            requires
                r == rows - 1,
                base == r * left,
        ;
        assert(r * left <= rows * left) by (nonlinear_arith)
            requires
                r == rows - 1,
        ;
        lemma_split_eq_sum_congruent(e, v1, v2, left, r);
        lemma_row_sum_congruent(e, v1, v2, base, left);
        let m = field_modulus() as int;
        let a = split_eq_sum(e, v1, left, r);
        let b = split_eq_sum(e, v2, left, r);
        let w = e[(left + r) as int]@ as int;
        let x = row_sum(e, v1, base, left);
        let y = row_sum(e, v2, base, left);
        vstd::arithmetic::div_mod::lemma_mul_mod_noop_right(w, x, m);
        vstd::arithmetic::div_mod::lemma_mul_mod_noop_right(w, y, m);
        vstd::arithmetic::div_mod::lemma_add_mod_noop(a, w * x, m);
        vstd::arithmetic::div_mod::lemma_add_mod_noop(b, w * y, m);
    }
}

/// The small values plus the field values at the first `n` listed
/// positions.
pub open spec fn with_listed(
    small: spec_fn(int) -> int,
    field: spec_fn(int) -> int,
    pos: Seq<usize>,
    n: nat,
) -> spec_fn(int) -> int {
    |k: int| small(k) + if pos.take(n as int).contains(k as usize) {
        field(k)
    } else {
        0
    }
}

/// Adding the listed corrections one by one adds them to the layer.
proof fn lemma_listed_sum_as_layer(
    e: Seq<Scalar>,
    small: spec_fn(int) -> int,
    field: spec_fn(int) -> int,
    pos: Seq<usize>,
    left: nat,
    right: nat,
    n: nat,
)
    requires
        left > 0,
        n <= pos.len(),
        left * right <= usize::MAX,
        forall|i: int, j: int| 0 <= i < j < pos.len() ==> pos[i] < pos[j],
    ensures
        fmod(split_eq_sum(e, small, left, right) + listed_sum(e, left, pos, left * right, field, n))
            == fmod(split_eq_sum(e, with_listed(small, field, pos, n), left, right)),
    decreases n,
{
    let total = left * right;
    if n == 0 {
        assert forall|x: int| #[trigger] with_listed(small, field, pos, 0)(x) == small(x) by {
            assert(pos.take(0).len() == 0);
            assert(!pos.take(0).contains(x as usize));
        }
        assert(with_listed(small, field, pos, 0) =~= small);
    } else {
        lemma_listed_sum_as_layer(e, small, field, pos, left, right, (n - 1) as nat);
        let m = pos[n - 1];
        let prev = with_listed(small, field, pos, (n - 1) as nat);
        let cur = with_listed(small, field, pos, n);
        let tp = pos.take((n - 1) as int);
        let tc = pos.take(n as int);
        assert(tc == tp.push(m));
        assert(!tp.contains(m)) by {
            if tp.contains(m) {
                let w = choose|w: int| 0 <= w < tp.len() && tp[w] == m;
                assert(pos[w] < pos[n - 1]);
            }
        }
        assert forall|x: int| 0 <= x < right * left && x != m implies #[trigger] cur(x) == prev(x) by {
            assert(right * left == total) by (nonlinear_arith)
                requires
                    total == left * right,
            ;
            assert(x as usize != m);
            if tc.contains(x as usize) {
                let w = choose|w: int| 0 <= w < tc.len() && tc[w] == x as usize;
                assert(w < tp.len());
                assert(tp[w] == x as usize);
            }
            if tp.contains(x as usize) {
                let w = choose|w: int| 0 <= w < tp.len() && tp[w] == x as usize;
                assert(tc[w] == x as usize);
            }
        }
        lemma_split_eq_sum_update(e, prev, cur, left, right, m as int);
        assert(right * left == total) by (nonlinear_arith)
            requires
                total == left * right,
        ;
        assert(tc[n - 1] == m);
        assert(tc.contains(m));
        assert(cur(m as int) == small(m as int) + field(m as int));
        assert(prev(m as int) == small(m as int));
        let base = split_eq_sum(e, small, left, right);
        let lp = listed_sum(e, left, pos, total, field, (n - 1) as nat);
        let sp = split_eq_sum(e, prev, left, right);
        let md = m as int;
        let er = e[left + md / (left as int)]@ as int;
        let el = e[md % (left as int)]@ as int;
        let f = field(md);
        if m < total {
            assert(split_eq_sum(e, cur, left, right) == sp + er * (el * f));
            assert(listed_sum(e, left, pos, total, field, n) == lp + fmod(el * er) * f);
            let mo = field_modulus() as int;
            vstd::arithmetic::div_mod::lemma_mul_mod_noop_left(el * er, f, mo);
            assert(er * (el * f) == el * er * f) by (nonlinear_arith);
            vstd::arithmetic::div_mod::lemma_add_mod_noop(base + lp, fmod(el * er) * f, mo);
            vstd::arithmetic::div_mod::lemma_add_mod_noop(base + lp, el * er * f, mo);
            vstd::arithmetic::div_mod::lemma_add_mod_noop(sp, el * er * f, mo);
        } else {
            assert(split_eq_sum(e, cur, left, right) == sp);
            assert(listed_sum(e, left, pos, total, field, n) == lp);
        }
    }
}

/// The corrected `Cz` claims equal the field `Cz` claims: when the small
/// layer holds zero at the listed positions and denotes the field layer
/// everywhere else below `left * right`, and the listed positions increase,
/// the claim that [`compute_small_c_claims_with_field_corrections`] returns
/// is the split equality dot product of the field layer.
pub proof fn law_corrected_c_claim_matches_field_claim(
    e: Seq<Scalar>,
    small: Seq<i64>,
    field: Seq<Scalar>,
    pos: Seq<usize>,
    left: nat,
    right: nat,
)
    requires
        left * right <= usize::MAX,
        forall|i: int, j: int| 0 <= i < j < pos.len() ==> pos[i] < pos[j],
        forall|k: int|
            0 <= k < left * right ==> if pos.contains(k as usize) {
                #[trigger] small[k] == 0
            } else {
                fmod(small[k] as int) == field[k]@
            },
    ensures
        corrected_c_claim(e, small, field, pos, left, right) == fmod(
            split_eq_sum(e, field_vals(field), left, right),
        ),
{
    if left == 0 {
        assert(split_eq_sum(e, i64_vals(small), left, right) == 0) by {
            lemma_split_eq_sum_zero_width(e, i64_vals(small), right);
        }
        assert(split_eq_sum(e, field_vals(field), left, right) == 0) by {
            lemma_split_eq_sum_zero_width(e, field_vals(field), right);
        }
        lemma_listed_sum_out_of_range(e, left, pos, field_vals(field), pos.len());
    } else {
        let g = with_listed(i64_vals(small), field_vals(field), pos, pos.len());
        lemma_listed_sum_as_layer(e, i64_vals(small), field_vals(field), pos, left, right, pos.len());
        assert(pos.take(pos.len() as int) =~= pos);
        assert forall|x: int| 0 <= x < right * left implies fmod(#[trigger] g(x)) == fmod(
            field_vals(field)(x),
        ) by {
            assert(right * left == left * right) by (nonlinear_arith);
            vstd::arithmetic::div_mod::lemma_small_mod(field[x]@, field_modulus());
            if pos.contains(x as usize) {
                assert(small[x] == 0);
            } else {
                assert(fmod(small[x] as int) == field[x]@);
            }
        }
        lemma_split_eq_sum_congruent(e, g, field_vals(field), left, right);
    }
}

/// A layer of width zero sums to zero.
pub proof fn lemma_split_eq_sum_zero_width(e: Seq<Scalar>, vals: spec_fn(int) -> int, rows: nat)
    ensures
        split_eq_sum(e, vals, 0, rows) == 0,
    decreases rows,
{
    if rows > 0 {
        lemma_split_eq_sum_zero_width(e, vals, (rows - 1) as nat);
    }
}

/// No position lies below a total of zero.
proof fn lemma_listed_sum_out_of_range(
    e: Seq<Scalar>,
    left: nat,
    pos: Seq<usize>,
    vals: spec_fn(int) -> int,
    n: nat,
)
    requires
        left == 0,
    ensures
        listed_sum(e, left, pos, 0, vals, n) == 0,
    decreases n,
{
    if n > 0 {
        lemma_listed_sum_out_of_range(e, left, pos, vals, (n - 1) as nat);
    }
}

} // verus!
