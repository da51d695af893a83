//! Input checks and weighted folds of the small-value NeutronNova NIFS.
//!
//! The small-value prover keeps `Az/Bz/Cz` layers as small integers and
//! corrects, from the field layers, the positions whose values did not fit.

use crate::errors::{
    concat, fails_with, invalid_input, invalid_input_owned, is_invalid_input, text_with_number,
    text_with_two_numbers, decimal_text, SpartanError,
};
use crate::dot::{
    column_dot, field_column_dot, field_column_dot_exec, field_vec_column_dot,
    field_vec_column_dot_exec, small_column_dot,
};
use crate::field::{field_modulus, fmod, lemma_fmod_range, lemma_scalar_lt_modulus, Scalar};
use crate::dot::mac_field;
use crate::small_c::{field_vals, lemma_split_eq_sum_update, split_eq_dot, split_eq_sum};
use crate::extension_bound::ExtensionBoundedPoly;
use crate::multilinear::MultilinearPolynomial;
use crate::small_int::{ExtensionMagnitude, SmallValue};
use vstd::arithmetic::power2::pow2;
use vstd::prelude::*;

verus! {

broadcast use {lemma_scalar_lt_modulus, lemma_fmod_range};

// ---------------------------------------------------------------------------
// Specification of the layer-array checks.
// ---------------------------------------------------------------------------

/// Every slice of `layers` has length `n`.
pub open spec fn all_slices_len<T>(layers: Seq<&[T]>, n: int) -> bool {
    forall|i: int| 0 <= i < layers.len() ==> (#[trigger] layers[i])@.len() == n
}

/// Each position is smaller than the next one.
pub open spec fn strictly_increasing(pos: Seq<usize>) -> bool {
    forall|i: int| 0 <= i < pos.len() - 1 ==> #[trigger] pos[i] < pos[i + 1]
}

/// The first position, from index `from` on, that is at least `bound`.
pub open spec fn first_at_least(pos: Seq<usize>, bound: int, from: int) -> Option<usize>
    decreases pos.len() - from,
{
    if from < 0 || from >= pos.len() {
        None
    } else if pos[from] >= bound {
        Some(pos[from])
    } else {
        first_at_least(pos, bound, from + 1)
    }
}

/// The failure of the checks of one position list against the layer length
/// `total`, if any.
pub open spec fn position_list_failure(label: Seq<char>, pos: Seq<usize>, total: int) -> Option<
    Seq<char>,
> {
    if !strictly_increasing(pos) {
        Some(label + " must be sorted and unique"@)
    } else {
        match first_at_least(pos, total, 0) {
            Some(p) => Some(
                label + " contains out-of-range position "@ + decimal_text(p as int)
                    + " for layer length "@ + decimal_text(total),
            ),
            None => None,
        }
    }
}

/// The outcome of the small-value NIFS layer-array checks: the padded layer
/// count `2^ell_b`, or the reason of the first failed check.
pub open spec fn layer_arrays_outcome<SV>(
    a_small: Seq<&[SV]>,
    b_small: Seq<&[SV]>,
    c_small: Seq<&[SV]>,
    a_field: Seq<&[Scalar]>,
    b_field: Seq<&[Scalar]>,
    c_field: Seq<&[Scalar]>,
    ab_pos: Seq<usize>,
    c_pos: Seq<usize>,
    e_len: int,
    left: int,
    right: int,
    ell_b: int,
    l0: int,
) -> Result<int, Seq<char>> {
    let n = a_small.len() as int;
    let total = left * right;
    if n == 0 {
        Err("small NeutronNova NIFS requires at least one layer"@)
    } else if b_small.len() != n || c_small.len() != n || a_field.len() != n || b_field.len() != n
        || c_field.len() != n {
        Err("A/B/C layer counts must match"@)
    } else if l0 == 0 {
        Err("small NeutronNova NIFS requires l0 > 0"@)
    } else if l0 > ell_b {
        Err("small NeutronNova l0 "@ + decimal_text(l0) + " exceeds ell_b "@ + decimal_text(ell_b))
    } else if ell_b > u32::MAX {
        Err("ell_b does not fit in a u32 shift"@)
    } else if ell_b >= usize::BITS {
        Err("ell_b is too large for this platform"@)
    } else if n != pow2(ell_b as nat) {
        Err(
            "layer count "@ + decimal_text(n) + " does not match padded count "@ + decimal_text(
                pow2(ell_b as nat) as int,
            ),
        )
    } else if total > usize::MAX {
        Err("left * right overflows"@)
    } else if position_list_failure("A/B large positions"@, ab_pos, total) is Some {
        Err(position_list_failure("A/B large positions"@, ab_pos, total)->0)
    } else if position_list_failure("C large positions"@, c_pos, total) is Some {
        Err(position_list_failure("C large positions"@, c_pos, total)->0)
    } else if !(all_slices_len(a_small, total) && all_slices_len(b_small, total)
        && all_slices_len(c_small, total)) {
        Err("all small layers must have length left * right "@ + decimal_text(total))
    } else if ab_pos.len() > 0 && !(all_slices_len(a_field, total) && all_slices_len(
        b_field,
        total,
    )) {
        Err("all A/B field correction layers must have length left * right "@ + decimal_text(total))
    } else if c_pos.len() > 0 && !all_slices_len(c_field, total) {
        Err("all C field correction layers must have length left * right "@ + decimal_text(total))
    } else if left + right > usize::MAX {
        Err("left + right overflows"@)
    } else if e_len != left + right {
        Err(
            "e_eq length "@ + decimal_text(e_len) + " does not match left + right "@ + decimal_text(
                left + right,
            ),
        )
    } else {
        Ok(pow2(ell_b as nat) as int)
    }
}

/// Whether `r` is the result that `outcome` describes.
pub open spec fn matches_outcome(r: Result<usize, SpartanError>, outcome: Result<int, Seq<char>>) -> bool {
    match r {
        Ok(v) => outcome == Ok::<int, Seq<char>>(v as int),
        Err(e) => outcome is Err && is_invalid_input(e, outcome->Err_0),
    }
}

// ---------------------------------------------------------------------------
// Checks.
// ---------------------------------------------------------------------------

/// Whether every slice of `layers` has length `n`.
pub fn slices_all_len<T>(layers: &[&[T]], n: usize) -> (r: bool)
    ensures
        r == all_slices_len(layers@, n as int),
{
    let mut i: usize = 0;
    while i < layers.len()
        invariant
            i <= layers@.len(),
            forall|j: int| 0 <= j < i ==> (#[trigger] layers@[j])@.len() == n,
        decreases layers@.len() - i,
    {
        if layers[i].len() != n {
            return false;
        }
        i = i + 1;
    }
    true
}

/// Whether each position is smaller than the next one.
pub fn is_strictly_increasing(pos: &[usize]) -> (r: bool)
    ensures
        r == strictly_increasing(pos@),
{
    let mut i: usize = 1;
    while i < pos.len()
        invariant
            1 <= i,
            i <= pos@.len() || pos@.len() == 0,
            forall|j: int| 0 <= j < i - 1 && j < pos@.len() - 1 ==> #[trigger] pos@[j] < pos@[j + 1],
        decreases pos@.len() - i,
    {
        if pos[i - 1] >= pos[i] {
            assert(!(pos@[i - 1] < pos@[(i - 1) + 1]));
            return false;
        }
        i = i + 1;
    }
    true
}

/// The first position that is at least `bound`.
pub fn find_first_at_least(pos: &[usize], bound: usize) -> (r: Option<usize>)
    ensures
        r == first_at_least(pos@, bound as int, 0),
{
    let mut i: usize = 0;
    while i < pos.len()
        invariant
            i <= pos@.len(),
            first_at_least(pos@, bound as int, 0) == first_at_least(pos@, bound as int, i as int),
        decreases pos@.len() - i,
    {
        if pos[i] >= bound {
            return Some(pos[i]);
        }
        i = i + 1;
    }
    None
}

/// Check one position list against the layer length `total`.
fn check_position_list(label: &str, pos: &[usize], total: usize) -> (r: Result<(), SpartanError>)
    ensures
        match position_list_failure(label@, pos@, total as int) {
            None => r is Ok,
            Some(t) => r matches Err(e) && is_invalid_input(e, t),
        },
{
    proof {
        reveal_strlit("");
    }
    if !is_strictly_increasing(pos) {
        let reason = concat(label, " must be sorted and unique");
        return Err(invalid_input_owned(reason));
    }
    match find_first_at_least(pos, total) {
        Some(p) => {
            let t = text_with_two_numbers(
                " contains out-of-range position ",
                p,
                " for layer length ",
                total,
                "",
            );
            let reason = concat(label, t.as_str());
            assert(reason@ =~= label@ + " contains out-of-range position "@ + decimal_text(p as int)
                + " for layer length "@ + decimal_text(total as int));
            Err(invalid_input_owned(reason))
        },
        None => Ok(()),
    }
}

/// Check the small-value NIFS layer arrays and return the padded layer count
/// `2^ell_b`, where `ell_b` is the number of `rhos`.
///
/// The layer counts must agree and equal `2^ell_b`, `l0` must lie in
/// `1..=ell_b`, both position lists must be increasing and lie below
/// `left * right`, every small layer, and every field layer that corrects a
/// listed position, must have length `left * right`, and `e_eq` must have
/// length `left + right`.
pub fn validate_layer_arrays<SV: SmallValue>(
    a_small: &[&[SV]],
    b_small: &[&[SV]],
    c_small: &[&[SV]],
    a_field: &[&[Scalar]],
    b_field: &[&[Scalar]],
    c_field: &[&[Scalar]],
    ab_large_positions: &[usize],
    c_large_positions: &[usize],
    e_eq: &[Scalar],
    left: usize,
    right: usize,
    rhos: &[Scalar],
    l0: usize,
) -> (r: Result<usize, SpartanError>)
    ensures
        matches_outcome(
            r,
            layer_arrays_outcome(
                a_small@,
                b_small@,
                c_small@,
                a_field@,
                b_field@,
                c_field@,
                ab_large_positions@,
                c_large_positions@,
                e_eq@.len() as int,
                left as int,
                right as int,
                rhos@.len() as int,
                l0 as int,
            ),
        ),
{
    proof {
        reveal_strlit("");
    }
    let num_instances = a_small.len();
    if num_instances == 0 {
        return Err(invalid_input("small NeutronNova NIFS requires at least one layer"));
    }
    if b_small.len() != num_instances || c_small.len() != num_instances || a_field.len()
        != num_instances || b_field.len() != num_instances || c_field.len() != num_instances {
        return Err(invalid_input("A/B/C layer counts must match"));
    }
    if l0 == 0 {
        return Err(invalid_input("small NeutronNova NIFS requires l0 > 0"));
    }
    let ell_b = rhos.len();
    if l0 > ell_b {
        let reason = text_with_two_numbers("small NeutronNova l0 ", l0, " exceeds ell_b ", ell_b, "");
        assert(reason@ =~= "small NeutronNova l0 "@ + decimal_text(l0 as int) + " exceeds ell_b "@
            + decimal_text(ell_b as int));
        return Err(invalid_input_owned(reason));
    }
    if ell_b > u32::MAX as usize {
        return Err(invalid_input("ell_b does not fit in a u32 shift"));
    }
    if ell_b >= usize::BITS as usize {
        return Err(invalid_input("ell_b is too large for this platform"));
    }
    proof {
        vstd::bits::lemma_usize_pow2_no_overflow(ell_b as nat);
        vstd::bits::lemma_usize_shl_is_mul(1, ell_b);
    }
    let n_padded: usize = 1usize << ell_b;
    if num_instances != n_padded {
        let reason = text_with_two_numbers(
            "layer count ",
            num_instances,
            " does not match padded count ",
            n_padded,
            "",
        );
        assert(reason@ =~= "layer count "@ + decimal_text(num_instances as int)
            + " does not match padded count "@ + decimal_text(n_padded as int));
        return Err(invalid_input_owned(reason));
    }
    let expected_constraints = match left.checked_mul(right) {
        Some(t) => t,
        None => {
            return Err(invalid_input("left * right overflows"));
        },
    };
    match check_position_list("A/B large positions", ab_large_positions, expected_constraints) {
        Ok(()) => {},
        Err(e) => {
            return Err(e);
        },
    }
    match check_position_list("C large positions", c_large_positions, expected_constraints) {
        Ok(()) => {},
        Err(e) => {
            return Err(e);
        },
    }
    if !(slices_all_len(a_small, expected_constraints) && slices_all_len(
        b_small,
        expected_constraints,
    ) && slices_all_len(c_small, expected_constraints)) {
        let reason = text_with_number(
            "all small layers must have length left * right ",
            expected_constraints,
            "",
        );
        assert(reason@ =~= "all small layers must have length left * right "@ + decimal_text(
            expected_constraints as int,
        ));
        return Err(invalid_input_owned(reason));
    }
    if ab_large_positions.len() > 0 && !(slices_all_len(a_field, expected_constraints)
        && slices_all_len(b_field, expected_constraints)) {
        let reason = text_with_number(
            "all A/B field correction layers must have length left * right ",
            expected_constraints,
            "",
        );
        assert(reason@ =~= "all A/B field correction layers must have length left * right "@
            + decimal_text(expected_constraints as int));
        return Err(invalid_input_owned(reason));
    }
    if c_large_positions.len() > 0 && !slices_all_len(c_field, expected_constraints) {
        let reason = text_with_number(
            "all C field correction layers must have length left * right ",
            expected_constraints,
            "",
        );
        assert(reason@ =~= "all C field correction layers must have length left * right "@
            + decimal_text(expected_constraints as int));
        return Err(invalid_input_owned(reason));
    }
    let expected_eq_len = match left.checked_add(right) {
        Some(t) => t,
        None => {
            return Err(invalid_input("left + right overflows"));
        },
    };
    if e_eq.len() != expected_eq_len {
        let reason = text_with_two_numbers(
            "e_eq length ",
            e_eq.len(),
            " does not match left + right ",
            expected_eq_len,
            "",
        );
        assert(reason@ =~= "e_eq length "@ + decimal_text(e_eq@.len() as int)
            + " does not match left + right "@ + decimal_text(expected_eq_len as int));
        return Err(invalid_input_owned(reason));
    }
    Ok(n_padded)
}

// ---------------------------------------------------------------------------
// Weighted folds of the final layers.
// ---------------------------------------------------------------------------

/// The number of `(weight, A, B, C)` layer quadruples that a fold walks: the
/// shortest of the four lists.
pub open spec fn zip4_len(w: nat, a: nat, b: nat, c: nat) -> nat {
    let ab = if a < b {
        a
    } else {
        b
    };
    let abc = if ab < c {
        ab
    } else {
        c
    };
    if w < abc {
        w
    } else {
        abc
    }
}

/// The layers of `layers` that a fold over `n` layers reads all reach
/// position `len - 1`.
pub open spec fn slices_cover<T>(layers: Seq<&[T]>, n: nat, len: nat) -> bool {
    n <= layers.len() && forall|i: int| 0 <= i < n ==> len <= (#[trigger] layers[i])@.len()
}

/// Whether `out` is the weighted fold of the small layers: its length is
/// `len` and each entry is `sum_i w[i] * layers[i][k]` over the `n` folded
/// layers, in the field.
pub open spec fn is_small_fold<SV: SmallValue>(
    out: Seq<Scalar>,
    w: Seq<Scalar>,
    layers: Seq<&[SV]>,
    n: nat,
    len: nat,
) -> bool {
    &&& out.len() == len
    &&& forall|k: int| 0 <= k < len ==> (#[trigger] out[k])@ == fmod(column_dot(w, layers, k, n))
}

/// `sum_i w[i] * layers[i][k]` in the field, for every `k < len`.
fn small_fold<SV: SmallValue>(w: &[Scalar], layers: &[&[SV]], n: usize, len: usize) -> (r: Vec<
    Scalar,
>)
    requires
        n <= w@.len(),
        slices_cover(layers@, n as nat, len as nat),
    ensures
        is_small_fold(r@, w@, layers@, n as nat, len as nat),
{
    let mut out: Vec<Scalar> = Vec::new();
    let mut k: usize = 0;
    while k < len
        invariant
            k <= len,
            n <= w@.len(),
            slices_cover(layers@, n as nat, len as nat),
            is_small_fold(out@, w@, layers@, n as nat, k as nat),
        decreases len - k,
    {
        let v = small_column_dot(w, layers, k, n);
        out.push(v);
        k = k + 1;
    }
    out
}

/// Fold the small `A/B/C` layers with the final weights, in the field.
///
/// Fails when the weight count differs from the `A` layer count. Position `k`
/// of each result is `sum_i weights[i] * layer_i[k]`, over the layers that
/// the weights, `A`, `B` and `C` lists all have; the results have the length
/// of the first `A` layer.
pub fn fold_small_final_abc_with_weights<SV: SmallValue>(
    a_layers: &[&[SV]],
    b_layers: &[&[SV]],
    c_layers: &[&[SV]],
    weights: &[Scalar],
) -> (r: Result<(Vec<Scalar>, Vec<Scalar>, Vec<Scalar>), SpartanError>)
    requires
        weights@.len() == a_layers@.len() ==> a_layers@.len() > 0,
        weights@.len() == a_layers@.len() ==> {
            let n = zip4_len(weights@.len(), a_layers@.len(), b_layers@.len(), c_layers@.len());
            let len = a_layers@[0]@.len();
            slices_cover(a_layers@, n, len) && slices_cover(b_layers@, n, len) && slices_cover(
                c_layers@,
                n,
                len,
            )
        },
    ensures
        r is Err <==> weights@.len() != a_layers@.len(),
        r matches Err(e) ==> is_invalid_input(
            e,
            "weight length "@ + decimal_text(weights@.len() as int) + " does not match layer count "@
                + decimal_text(a_layers@.len() as int),
        ),
        r matches Ok(t) ==> {
            let n = zip4_len(weights@.len(), a_layers@.len(), b_layers@.len(), c_layers@.len());
            let len = a_layers@[0]@.len();
            &&& is_small_fold(t.0@, weights@, a_layers@, n, len)
            &&& is_small_fold(t.1@, weights@, b_layers@, n, len)
            &&& is_small_fold(t.2@, weights@, c_layers@, n, len)
        },
{
    proof {
        reveal_strlit("");
    }
    if weights.len() != a_layers.len() {
        let reason = text_with_two_numbers(
            "weight length ",
            weights.len(),
            " does not match layer count ",
            a_layers.len(),
            "",
        );
        assert(reason@ =~= "weight length "@ + decimal_text(weights@.len() as int)
            + " does not match layer count "@ + decimal_text(a_layers@.len() as int));
        return Err(invalid_input_owned(reason));
    }
    let layer_len = a_layers[0].len();
    let ab = if a_layers.len() < b_layers.len() {
        a_layers.len()
    } else {
        b_layers.len()
    };
    let abc = if ab < c_layers.len() {
        ab
    } else {
        c_layers.len()
    };
    let n = if weights.len() < abc {
        weights.len()
    } else {
        abc
    };
    let a_final = small_fold(weights, a_layers, n, layer_len);
    let b_final = small_fold(weights, b_layers, n, layer_len);
    let c_final = small_fold(weights, c_layers, n, layer_len);
    Ok((a_final, b_final, c_final))
}

/// The field layers reach every listed position below `total` over the first
/// `n` layers.
pub open spec fn field_layers_cover(
    layers: Seq<&[Scalar]>,
    n: nat,
    pos: Seq<usize>,
    total: nat,
) -> bool {
    forall|p: int, i: int|
        0 <= p < pos.len() && 0 <= i < n && #[trigger] pos[p] < total ==> i < layers.len()
            && pos[p] < (#[trigger] layers[i])@.len()
}

/// Whether `after` is `before` with each listed position below `total` set
/// to the weighted field fold of `layers` at that position.
pub open spec fn is_corrected(
    after: Seq<Scalar>,
    before: Seq<Scalar>,
    pos: Seq<usize>,
    total: nat,
    w: Seq<Scalar>,
    layers: Seq<&[Scalar]>,
) -> bool {
    &&& after.len() == before.len()
    &&& forall|k: int|
        0 <= k < before.len() ==> if k < total && pos.contains(k as usize) {
            (#[trigger] after[k])@ == fmod(field_column_dot(w, layers, k, w.len()))
        } else {
            after[k] == before[k]
        }
}

/// Set each listed position below `total` of `out` to the weighted field
/// fold of `layers` at that position.
fn correct_positions(
    out: &mut Vec<Scalar>,
    layers: &[&[Scalar]],
    positions: &[usize],
    total: usize,
    weights: &[Scalar],
)
    requires
        field_layers_cover(layers@, weights@.len(), positions@, total as nat),
        forall|p: int| 0 <= p < positions@.len() && #[trigger] positions@[p] < total ==> positions@[p]
            < old(out)@.len(),
    ensures
        is_corrected(final(out)@, old(out)@, positions@, total as nat, weights@, layers@),
{
    let ghost start = out@;
    let _len = out.len();
    let n = weights.len();
    let mut p: usize = 0;
    while p < positions.len()
        invariant
            p <= positions@.len(),
            start.len() <= usize::MAX,
            n == weights@.len(),
            field_layers_cover(layers@, weights@.len(), positions@, total as nat),
            forall|q: int| 0 <= q < positions@.len() && #[trigger] positions@[q] < total ==> positions@[q]
                < start.len(),
            is_corrected(out@, start, positions@.take(p as int), total as nat, weights@, layers@),
        decreases positions@.len() - p,
    {
        let k = positions[p];
        let ghost before = out@;
        if k < total {
            assert forall|i: int| 0 <= i < n implies k < (#[trigger] layers@[i])@.len() by {
                assert(positions@[p as int] < total);
            }
            assert(n <= layers@.len()) by {
                if n > 0 {
                    assert(positions@[p as int] < total);
                    assert(k < layers@[n - 1]@.len());
                }
            }
            let v = field_column_dot_exec(weights, layers, k, n);
            out.set(k, v);
        }
        proof {
            let cur = positions@.take(p + 1);
            let prev = positions@.take(p as int);
            assert(cur[p as int] == k);
            assert forall|j: int| 0 <= j < start.len() implies if j < total && cur.contains(j as usize) {
                (#[trigger] out@[j])@ == fmod(field_column_dot(weights@, layers@, j, weights@.len()))
            } else {
                out@[j] == start[j]
            } by {
                if cur.contains(j as usize) && j != k {
                    let w = choose|w: int| 0 <= w < p + 1 && #[trigger] cur[w] == j as usize;
                    assert(prev[w] == j as usize);
                }
                if prev.contains(j as usize) {
                    let w = choose|w: int| 0 <= w < p && #[trigger] prev[w] == j as usize;
                    assert(cur[w] == j as usize);
                }
                if j == k && j < total {
                    assert(cur.contains(j as usize));
                }
            }
        }
        p = p + 1;
    }
    assert(positions@.take(positions@.len() as int) =~= positions@);
}

/// Correct the final folded `A/B/C` layers at their large positions.
///
/// Each listed position `k` below the length of `c_final` is set, in `A` and
/// `B` for the `A/B` list and in `C` for the `C` list, to
/// `sum_i weights[i] * field_layer_i[k]`; other positions are unchanged.
pub fn apply_large_final_corrections(
    a_final: &mut Vec<Scalar>,
    b_final: &mut Vec<Scalar>,
    c_final: &mut Vec<Scalar>,
    a_field_layers: &[&[Scalar]],
    b_field_layers: &[&[Scalar]],
    c_field_layers: &[&[Scalar]],
    ab_large_positions: &[usize],
    c_large_positions: &[usize],
    weights: &[Scalar],
)
    requires
        field_layers_cover(a_field_layers@, weights@.len(), ab_large_positions@, old(c_final)@.len()),
        field_layers_cover(b_field_layers@, weights@.len(), ab_large_positions@, old(c_final)@.len()),
        field_layers_cover(c_field_layers@, weights@.len(), c_large_positions@, old(c_final)@.len()),
        forall|p: int|
            0 <= p < ab_large_positions@.len() && #[trigger] ab_large_positions@[p] < old(
                c_final,
            )@.len() ==> ab_large_positions@[p] < old(a_final)@.len() && ab_large_positions@[p] < old(
                b_final,
            )@.len(),
    ensures
        is_corrected(
            final(a_final)@,
            old(a_final)@,
            ab_large_positions@,
            old(c_final)@.len(),
            weights@,
            a_field_layers@,
        ),
        is_corrected(
            final(b_final)@,
            old(b_final)@,
            ab_large_positions@,
            old(c_final)@.len(),
            weights@,
            b_field_layers@,
        ),
        is_corrected(
            final(c_final)@,
            old(c_final)@,
            c_large_positions@,
            old(c_final)@.len(),
            weights@,
            c_field_layers@,
        ),
{
    let total = c_final.len();
    correct_positions(a_final, a_field_layers, ab_large_positions, total, weights);
    correct_positions(b_final, b_field_layers, ab_large_positions, total, weights);
    correct_positions(c_final, c_field_layers, c_large_positions, total, weights);
}

/// Fold the small `A/B/C` layers with the final weights and correct the
/// large positions from the field layers.
pub fn fold_final_abc_with_weights<SV: SmallValue>(
    a_layers: &[&[SV]],
    b_layers: &[&[SV]],
    c_layers: &[&[SV]],
    a_field_layers: &[&[Scalar]],
    b_field_layers: &[&[Scalar]],
    c_field_layers: &[&[Scalar]],
    ab_large_positions: &[usize],
    c_large_positions: &[usize],
    weights: &[Scalar],
) -> (r: Result<(Vec<Scalar>, Vec<Scalar>, Vec<Scalar>), SpartanError>)
    requires
        weights@.len() == a_layers@.len() ==> a_layers@.len() > 0,
        weights@.len() == a_layers@.len() ==> {
            let n = zip4_len(weights@.len(), a_layers@.len(), b_layers@.len(), c_layers@.len());
            let len = a_layers@[0]@.len();
            &&& slices_cover(a_layers@, n, len)
            &&& slices_cover(b_layers@, n, len)
            &&& slices_cover(c_layers@, n, len)
            &&& field_layers_cover(a_field_layers@, weights@.len(), ab_large_positions@, len)
            &&& field_layers_cover(b_field_layers@, weights@.len(), ab_large_positions@, len)
            &&& field_layers_cover(c_field_layers@, weights@.len(), c_large_positions@, len)
        },
    ensures
        r is Err <==> weights@.len() != a_layers@.len(),
        r matches Err(e) ==> is_invalid_input(
            e,
            "weight length "@ + decimal_text(weights@.len() as int) + " does not match layer count "@
                + decimal_text(a_layers@.len() as int),
        ),
        r matches Ok(t) ==> {
            let n = zip4_len(weights@.len(), a_layers@.len(), b_layers@.len(), c_layers@.len());
            let len = a_layers@[0]@.len();
            exists|sa: Seq<Scalar>, sb: Seq<Scalar>, sc: Seq<Scalar>|
                {
                    &&& is_small_fold(sa, weights@, a_layers@, n, len)
                    &&& is_small_fold(sb, weights@, b_layers@, n, len)
                    &&& is_small_fold(sc, weights@, c_layers@, n, len)
                    &&& is_corrected(t.0@, sa, ab_large_positions@, len, weights@, a_field_layers@)
                    &&& is_corrected(t.1@, sb, ab_large_positions@, len, weights@, b_field_layers@)
                    &&& is_corrected(t.2@, sc, c_large_positions@, len, weights@, c_field_layers@)
                }
        },
{
    let (mut a_final, mut b_final, mut c_final) = match fold_small_final_abc_with_weights(
        a_layers,
        b_layers,
        c_layers,
        weights,
    ) {
        Ok(t) => t,
        Err(e) => {
            return Err(e);
        },
    };
    let ghost sa = a_final@;
    let ghost sb = b_final@;
    let ghost sc = c_final@;
    apply_large_final_corrections(
        &mut a_final,
        &mut b_final,
        &mut c_final,
        a_field_layers,
        b_field_layers,
        c_field_layers,
        ab_large_positions,
        c_large_positions,
        weights,
    );
    Ok((a_final, b_final, c_final))
}

/// Whether `out` is the weighted field fold of the first `n` owned layers
/// over `len` positions.
pub open spec fn is_field_fold(
    out: Seq<Scalar>,
    w: Seq<Scalar>,
    layers: Seq<Vec<Scalar>>,
    n: nat,
    len: nat,
) -> bool {
    &&& out.len() == len
    &&& forall|k: int|
        0 <= k < len ==> (#[trigger] out[k])@ == fmod(field_vec_column_dot(w, 0, layers, 0, k, n))
}

/// Fold field layers of equal length with the weights, in the field.
pub fn fold_field_layers_with_weights(layers: &[Vec<Scalar>], weights: &[Scalar]) -> (r: Result<
    Vec<Scalar>,
    SpartanError,
>)
    ensures
        r is Ok <==> layers@.len() > 0 && weights@.len() == layers@.len() && forall|i: int|
            0 <= i < layers@.len() ==> (#[trigger] layers@[i])@.len() == layers@[0]@.len(),
        layers@.len() == 0 ==> fails_with(r, "cannot fold empty field layer list"@),
        layers@.len() > 0 && weights@.len() != layers@.len() ==> fails_with(
            r,
            "weight length "@ + decimal_text(weights@.len() as int)
                + " does not match field layer count "@ + decimal_text(layers@.len() as int),
        ),
        layers@.len() > 0 && weights@.len() == layers@.len() && !(forall|i: int|
            0 <= i < layers@.len() ==> (#[trigger] layers@[i])@.len() == layers@[0]@.len())
            ==> fails_with(r, "all field layers must have the same length"@),
        r matches Ok(out) ==> is_field_fold(
            out@,
            weights@,
            layers@,
            layers@.len(),
            layers@[0]@.len(),
        ),
{
    proof {
        reveal_strlit("");
    }
    if layers.len() == 0 {
        return Err(invalid_input("cannot fold empty field layer list"));
    }
    if weights.len() != layers.len() {
        let reason = text_with_two_numbers(
            "weight length ",
            weights.len(),
            " does not match field layer count ",
            layers.len(),
            "",
        );
        assert(reason@ =~= "weight length "@ + decimal_text(weights@.len() as int)
            + " does not match field layer count "@ + decimal_text(layers@.len() as int));
        return Err(invalid_input_owned(reason));
    }
    let layer_len = layers[0].len();
    let n = layers.len();
    let mut i: usize = 0;
    while i < n
        invariant
            i <= n,
            n == layers@.len(),
            n == weights@.len(),
            layer_len == layers@[0]@.len(),
            forall|j: int| 0 <= j < i ==> (#[trigger] layers@[j])@.len() == layer_len,
        decreases n - i,
    {
        if layers[i].len() != layer_len {
            return Err(invalid_input("all field layers must have the same length"));
        }
        i = i + 1;
    }
    let mut out: Vec<Scalar> = Vec::new();
    let mut k: usize = 0;
    while k < layer_len
        invariant
            k <= layer_len,
            n == layers@.len(),
            n == weights@.len(),
            layer_len == layers@[0]@.len(),
            forall|j: int| 0 <= j < n ==> (#[trigger] layers@[j])@.len() == layer_len,
            is_field_fold(out@, weights@, layers@, n as nat, k as nat),
        decreases layer_len - k,
    {
        let v = field_vec_column_dot_exec(weights, 0, layers, 0, k, n);
        out.push(v);
        k = k + 1;
    }
    Ok(out)
}

// ---------------------------------------------------------------------------
// Prefix materialization.
// ---------------------------------------------------------------------------

/// `sum_{p < n} w[p] * layers[off + p][k]` over the integers, for small layers.
pub open spec fn group_small_dot<SV: SmallValue>(
    w: Seq<Scalar>,
    layers: Seq<&[SV]>,
    off: int,
    k: int,
    n: nat,
) -> int
    decreases n,
{
    if n == 0 {
        0
    } else {
        group_small_dot(w, layers, off, k, (n - 1) as nat) + w[n - 1]@ * layers[off + n - 1]@[k].int_val()
    }
}

/// `sum_{p < n} w[p] * layers[off + p][k]` over the integers, for field layers.
pub open spec fn group_field_dot(w: Seq<Scalar>, layers: Seq<&[Scalar]>, off: int, k: int, n: nat) -> int
    decreases n,
{
    if n == 0 {
        0
    } else {
        group_field_dot(w, layers, off, k, (n - 1) as nat) + w[n - 1]@ * layers[off + n - 1]@[k]@
    }
}

/// The materialized value at position `k` of prefix group `g`: the weighted
/// fold of the group's field layers at a listed position below `total`, and
/// of its small layers elsewhere.
pub open spec fn prefix_value<SV: SmallValue>(
    w: Seq<Scalar>,
    small: Seq<&[SV]>,
    field: Seq<&[Scalar]>,
    pos: Seq<usize>,
    total: nat,
    g: int,
    size: nat,
    k: int,
) -> nat {
    if k < total && pos.contains(k as usize) {
        fmod(group_field_dot(w, field, g * size, k, size))
    } else {
        fmod(group_small_dot(w, small, g * size, k, size))
    }
}

/// Whether `out` is the materialized layer of prefix group `g`.
pub open spec fn is_prefix_layer<SV: SmallValue>(
    out: Seq<Scalar>,
    w: Seq<Scalar>,
    small: Seq<&[SV]>,
    field: Seq<&[Scalar]>,
    pos: Seq<usize>,
    total: nat,
    g: int,
    size: nat,
) -> bool {
    &&& out.len() == total
    &&& forall|k: int|
        0 <= k < total ==> (#[trigger] out[k])@ == prefix_value(w, small, field, pos, total, g, size, k)
}

/// `A/B/C` layers materialized per prefix group, with the `C` claim of each
/// group.
#[derive(Clone, Debug)]
pub struct PrefixAbcWithCClaims {
    /// Materialized `A` layers, one per prefix group.
    pub a_layers: Vec<Vec<Scalar>>,
    /// Materialized `B` layers, one per prefix group.
    pub b_layers: Vec<Vec<Scalar>>,
    /// Materialized `C` layers, one per prefix group.
    pub c_layers: Vec<Vec<Scalar>>,
    /// The split equality dot product of each materialized `C` layer.
    pub c_claims: Vec<Scalar>,
}

/// `sum_{p < n} w[p] * layers[off + p][k]` in the field, for small layers.
fn group_small_dot_exec<SV: SmallValue>(
    w: &[Scalar],
    layers: &[&[SV]],
    off: usize,
    k: usize,
    n: usize,
) -> (r: Scalar)
    requires
        n <= w@.len(),
        off + n <= layers@.len(),
        forall|p: int| off <= p < off + n ==> k < (#[trigger] layers@[p])@.len(),
    ensures
        r@ == fmod(group_small_dot(w@, layers@, off as int, k as int, n as nat)),
{
    let mut acc = Scalar::zero();
    let _ln = layers.len();
    let mut p: usize = 0;
    while p < n
        invariant
            p <= n,
            n <= w@.len(),
            off + n <= layers@.len(),
            layers@.len() <= usize::MAX,
            forall|q: int| off <= q < off + n ==> k < (#[trigger] layers@[q])@.len(),
            acc@ == fmod(group_small_dot(w@, layers@, off as int, k as int, p as nat)),
        decreases n - p,
    {
        let layer: &[SV] = layers[off + p];
        acc = crate::dot::mac_small(&acc, &w[p], layer[k]);
        p = p + 1;
    }
    acc
}

/// The layers `off..off + n` exist and reach position `k`.
pub open spec fn layers_reach(layers: Seq<&[Scalar]>, off: int, n: nat, k: int) -> bool {
    forall|i: int|
        #![trigger layers[i]]
        off <= i < off + n ==> i < layers.len() && k < layers[i]@.len()
}

/// `sum_{p < n} w[p] * layers[off + p][k]` in the field, for field layers.
fn group_field_dot_exec(w: &[Scalar], layers: &[&[Scalar]], off: usize, k: usize, n: usize) -> (r:
    Scalar)
    requires
        n <= w@.len(),
        layers_reach(layers@, off as int, n as nat, k as int),
    ensures
        r@ == fmod(group_field_dot(w@, layers@, off as int, k as int, n as nat)),
{
    let mut acc = Scalar::zero();
    let _ln = layers.len();
    let mut p: usize = 0;
    while p < n
        invariant
            p <= n,
            n <= w@.len(),
            layers@.len() <= usize::MAX,
            layers_reach(layers@, off as int, n as nat, k as int),
            acc@ == fmod(group_field_dot(w@, layers@, off as int, k as int, p as nat)),
        decreases n - p,
    {
        let ghost idx = off + p;
        assert(layers@[idx]@.len() >= 0);
        assert(off <= idx < off + n);
        assert(idx < layers@.len());
        assert(k < layers@[idx]@.len());
        let layer: &[Scalar] = layers[off + p];
        acc = mac_field(&acc, &w[p], &layer[k]);
        p = p + 1;
    }
    acc
}

/// The small fold of one prefix group over all positions.
fn group_small_layer<SV: SmallValue>(
    w: &[Scalar],
    layers: &[&[SV]],
    off: usize,
    n: usize,
    len: usize,
) -> (r: Vec<Scalar>)
    requires
        n <= w@.len(),
        off + n <= layers@.len(),
        forall|p: int| off <= p < off + n ==> len <= (#[trigger] layers@[p])@.len(),
    ensures
        r@.len() == len,
        forall|k: int|
            0 <= k < len ==> (#[trigger] r@[k])@ == fmod(
                group_small_dot(w@, layers@, off as int, k, n as nat),
            ),
{
    let mut out: Vec<Scalar> = Vec::new();
    let mut k: usize = 0;
    while k < len
        invariant
            k <= len,
            n <= w@.len(),
            off + n <= layers@.len(),
            forall|p: int| off <= p < off + n ==> len <= (#[trigger] layers@[p])@.len(),
            out@.len() == k,
            forall|j: int|
                0 <= j < k ==> (#[trigger] out@[j])@ == fmod(
                    group_small_dot(w@, layers@, off as int, j, n as nat),
                ),
        decreases len - k,
    {
        let v = group_small_dot_exec(w, layers, off, k, n);
        out.push(v);
        k = k + 1;
    }
    out
}

/// The layers `off..off + n` reach every listed position below `total`.
pub open spec fn group_layers_cover(
    layers: Seq<&[Scalar]>,
    off: int,
    n: nat,
    pos: Seq<usize>,
    total: nat,
) -> bool {
    &&& forall|p: int| 0 <= p < pos.len() && #[trigger] pos[p] < total && n > 0 ==> off + n <= layers.len()
    &&& forall|p: int, i: int|
        #![trigger pos[p], layers[i]]
        0 <= p < pos.len() && off <= i < off + n && pos[p] < total ==> pos[p] < layers[i]@.len()
}

/// Set each listed position below `total` of `out` to the weighted fold of
/// the group's field layers there.
fn correct_group_positions(
    out: &mut Vec<Scalar>,
    layers: &[&[Scalar]],
    positions: &[usize],
    total: usize,
    w: &[Scalar],
    off: usize,
    n: usize,
)
    requires
        n <= w@.len(),
        old(out)@.len() == total,
        group_layers_cover(layers@, off as int, n as nat, positions@, total as nat),
    ensures
        final(out)@.len() == total,
        forall|k: int|
            0 <= k < total ==> if positions@.contains(k as usize) {
                (#[trigger] final(out)@[k])@ == fmod(
                    group_field_dot(w@, layers@, off as int, k, n as nat),
                )
            } else {
                final(out)@[k] == old(out)@[k]
            },
{
    let ghost start = out@;
    let mut p: usize = 0;
    while p < positions.len()
        invariant
            p <= positions@.len(),
            n <= w@.len(),
            out@.len() == total,
            start.len() == total,
            group_layers_cover(layers@, off as int, n as nat, positions@, total as nat),
            forall|k: int|
                0 <= k < total ==> if positions@.take(p as int).contains(k as usize) {
                    (#[trigger] out@[k])@ == fmod(group_field_dot(w@, layers@, off as int, k, n as nat))
                } else {
                    out@[k] == start[k]
                },
        decreases positions@.len() - p,
    {
        let k = positions[p];
        if k < total {
            let ghost pp = p as int;
            let ghost offi = off as int;
            let ghost nn = n as nat;
            assert(positions@[pp] == k);
            assert forall|i: int| offi <= i < offi + nn implies i < layers@.len() && k < (
            #[trigger] layers@[i])@.len() by {
                assert(group_layers_cover(layers@, off as int, n as nat, positions@, total as nat));
                assert(0 <= pp < positions@.len());
                assert(positions@[pp] < total);
                assert(offi <= i < offi + nn);
            }
            assert(layers_reach(layers@, off as int, n as nat, k as int));
            let v = group_field_dot_exec(w, layers, off, k, n);
            out.set(k, v);
        }
        proof {
            let cur = positions@.take(p + 1);
            let prev = positions@.take(p as int);
            assert(cur[p as int] == k);
            assert forall|j: int| 0 <= j < total implies if cur.contains(j as usize) {
                (#[trigger] out@[j])@ == fmod(group_field_dot(w@, layers@, off as int, j, n as nat))
            } else {
                out@[j] == start[j]
            } by {
                if cur.contains(j as usize) && j != k {
                    let q = choose|q: int| 0 <= q < p + 1 && #[trigger] cur[q] == j as usize;
                    assert(prev[q] == j as usize);
                }
                if prev.contains(j as usize) {
                    let q = choose|q: int| 0 <= q < p && #[trigger] prev[q] == j as usize;
                    assert(cur[q] == j as usize);
                }
                if j == k {
                    assert(cur.contains(j as usize));
                }
            }
        }
        p = p + 1;
    }
    assert(positions@.take(positions@.len() as int) =~= positions@);
}

/// Replacing a value by its reduced form does not change a reduced sum.
proof fn lemma_fmod_shift(a: int, b: int)
    ensures
        fmod(fmod(a) + b - a) == fmod(b),
{
    let m = field_modulus() as int;
    vstd::arithmetic::div_mod::lemma_fundamental_div_mod(a, m);
    assert(fmod(a) + b - a == m * (-(a / m)) + b) by (nonlinear_arith)
        requires
            a == m * (a / m) + a % m,
            fmod(a) == a % m,
    ;
    vstd::arithmetic::div_mod::lemma_mod_multiples_vanish(-(a / m), b, m);
}

/// Adding the reduced product of reduced factors to a reduced sum gives the
/// reduced exact sum.
proof fn lemma_add_reduced_product(a: int, x: int, y: int)
    ensures
        fmod(fmod(a) + fmod((fmod(x) * fmod(y)) as int) as int) == fmod(a + x * y),
{
    let m = field_modulus() as int;
    vstd::arithmetic::div_mod::lemma_mul_mod_noop(x, y, m);
    vstd::arithmetic::div_mod::lemma_add_mod_noop(a, x * y, m);
}

/// Set each listed `C` position below `total` of a group's `C` layer to the
/// weighted fold of the group's field `C` layers there, keeping `claim` the
/// split equality dot product of the layer.
fn correct_group_c_positions(
    c_out: &mut Vec<Scalar>,
    claim: &mut Scalar,
    layers: &[&[Scalar]],
    positions: &[usize],
    w: &[Scalar],
    off: usize,
    n: usize,
    e_eq: &[Scalar],
    left: usize,
    right: usize,
)
    requires
        n <= w@.len(),
        left > 0,
        left * right <= usize::MAX,
        left + right <= usize::MAX,
        e_eq@.len() == left + right,
        old(c_out)@.len() == left * right,
        group_layers_cover(layers@, off as int, n as nat, positions@, (left * right) as nat),
    ensures
        final(c_out)@.len() == left * right,
        forall|k: int|
            0 <= k < left * right ==> if positions@.contains(k as usize) {
                (#[trigger] final(c_out)@[k])@ == fmod(
                    group_field_dot(w@, layers@, off as int, k, n as nat),
                )
            } else {
                final(c_out)@[k] == old(c_out)@[k]
            },
        final(claim)@ == fmod(
            old(claim)@ + split_eq_sum(e_eq@, field_vals(final(c_out)@), left as nat, right as nat)
                - split_eq_sum(e_eq@, field_vals(old(c_out)@), left as nat, right as nat),
        ),
{
    let total = left * right;
    let ghost start = c_out@;
    let ghost claim0 = claim@;
    let mut p: usize = 0;
    while p < positions.len()
        invariant
            p <= positions@.len(),
            n <= w@.len(),
            left > 0,
            total == left * right,
            total <= usize::MAX,
            left + right <= usize::MAX,
            e_eq@.len() == left + right,
            c_out@.len() == total,
            start.len() == total,
            group_layers_cover(layers@, off as int, n as nat, positions@, total as nat),
            forall|k: int|
                0 <= k < total ==> if positions@.take(p as int).contains(k as usize) {
                    (#[trigger] c_out@[k])@ == fmod(
                        group_field_dot(w@, layers@, off as int, k, n as nat),
                    )
                } else {
                    c_out@[k] == start[k]
                },
            claim@ == fmod(
                claim0 + split_eq_sum(e_eq@, field_vals(c_out@), left as nat, right as nat)
                    - split_eq_sum(e_eq@, field_vals(start), left as nat, right as nat),
            ),
        decreases positions@.len() - p,
    {
        let k = positions[p];
        if k < total {
            let ghost pp = p as int;
            let ghost offi = off as int;
            let ghost nn = n as nat;
            assert(positions@[pp] == k);
            assert forall|i: int| offi <= i < offi + nn implies i < layers@.len() && k < (
            #[trigger] layers@[i])@.len() by {
                assert(positions@[pp] < total);
            }
            assert(layers_reach(layers@, off as int, n as nat, k as int));
            assert(k / left < right) by (nonlinear_arith)
                requires
                    k < left * right,
                    left > 0,
            ;
            let c_val = group_field_dot_exec(w, layers, off, k, n);
            let old_val = c_out[k];
            let row = k / left;
            let col = k % left;
            let eq_k = e_eq[left + row].mul(&e_eq[col]);
            let ghost before = c_out@;
            c_out.set(k, c_val);
            let d = c_val.sub(&old_val);
            let delta = eq_k.mul(&d);
            let new_claim = claim.add(&delta);
            proof {
                let vb = field_vals(before);
                let va = field_vals(c_out@);
                assert forall|x: int| 0 <= x < right * left && x != k implies #[trigger] va(x) == vb(
                    x,
                ) by {
                    assert((right * left) as int == total) by (nonlinear_arith)
                        requires
                            total == left * right,
                    ;
                }
                lemma_split_eq_sum_update(e_eq@, vb, va, left as nat, right as nat, k as int);
                assert((right * left) as int == total) by (nonlinear_arith)
                    requires
                        total == left * right,
                ;
                let er = e_eq@[left + row]@ as int;
                let el = e_eq@[col as int]@ as int;
                let dv = c_val@ - old_val@;
                assert(er * (el * dv) == (er * el) * dv) by (nonlinear_arith);
                lemma_add_reduced_product(
                    claim0 + split_eq_sum(e_eq@, vb, left as nat, right as nat) - split_eq_sum(
                        e_eq@,
                        field_vals(start),
                        left as nat,
                        right as nat,
                    ),
                    er * el,
                    dv,
                );
            }
            *claim = new_claim;
        }
        proof {
            let cur = positions@.take(p + 1);
            let prev = positions@.take(p as int);
            assert(cur[p as int] == k);
            assert forall|j: int| 0 <= j < total implies if cur.contains(j as usize) {
                (#[trigger] c_out@[j])@ == fmod(group_field_dot(w@, layers@, off as int, j, n as nat))
            } else {
                c_out@[j] == start[j]
            } by {
                if cur.contains(j as usize) && j != k {
                    let q = choose|q: int| 0 <= q < p + 1 && #[trigger] cur[q] == j as usize;
                    assert(prev[q] == j as usize);
                }
                if prev.contains(j as usize) {
                    let q = choose|q: int| 0 <= q < p && #[trigger] prev[q] == j as usize;
                    assert(cur[q] == j as usize);
                }
                if j == k {
                    assert(cur.contains(j as usize));
                }
            }
        }
        p = p + 1;
    }
    assert(positions@.take(positions@.len() as int) =~= positions@);
}

/// Whether `out` is the small fold of prefix group `g` over `len` positions.
pub open spec fn is_group_small_fold<SV: SmallValue>(
    out: Seq<Scalar>,
    w: Seq<Scalar>,
    small: Seq<&[SV]>,
    g: int,
    size: nat,
    len: nat,
) -> bool {
    &&& out.len() == len
    &&& forall|k: int|
        0 <= k < len ==> (#[trigger] out[k])@ == fmod(group_small_dot(w, small, g * size, k, size))
}

/// Whether `after` is `before` with each listed position below `total` set
/// to the fold of prefix group `g`'s field layers there.
pub open spec fn is_group_corrected(
    after: Seq<Scalar>,
    before: Seq<Scalar>,
    w: Seq<Scalar>,
    field: Seq<&[Scalar]>,
    pos: Seq<usize>,
    total: nat,
    g: int,
    size: nat,
) -> bool {
    &&& after.len() == before.len()
    &&& forall|k: int|
        0 <= k < before.len() ==> if k < total && pos.contains(k as usize) {
            (#[trigger] after[k])@ == fmod(group_field_dot(w, field, g * size, k, size))
        } else {
            after[k] == before[k]
        }
}

/// Correct the folded prefix layers of every group at the large positions.
///
/// For group `g`, each listed `A/B` position `k < left * right` is set, in
/// the `A` and `B` layers, to `sum_p prefix_weights[p] * field[g *
/// prefix_size + p][k]`; each listed `C` position likewise in the `C` layer,
/// and the group's `C` claim moves by `eq(k)` times the change, where
/// `eq(k) = e_right[k / left] * e_left[k % left]`.
pub fn apply_large_prefix_corrections(
    a_folded: &mut Vec<Vec<Scalar>>,
    b_folded: &mut Vec<Vec<Scalar>>,
    c_folded: &mut Vec<Vec<Scalar>>,
    c_claims: &mut Vec<Scalar>,
    a_field_layers: &[&[Scalar]],
    b_field_layers: &[&[Scalar]],
    c_field_layers: &[&[Scalar]],
    ab_large_positions: &[usize],
    c_large_positions: &[usize],
    prefix_weights: &[Scalar],
    prefix_size: usize,
    e_eq: &[Scalar],
    left: usize,
    right: usize,
)
    requires
        old(b_folded)@.len() == old(a_folded)@.len(),
        old(c_folded)@.len() == old(a_folded)@.len(),
        old(c_claims)@.len() == old(a_folded)@.len(),
        prefix_weights@.len() == prefix_size,
        ab_large_positions@.len() > 0 || c_large_positions@.len() > 0 ==> {
            let groups = old(a_folded)@.len();
            let total = (left * right) as nat;
            &&& left * right <= usize::MAX
            &&& e_eq@.len() == left + right
            &&& left + right <= usize::MAX
            &&& groups * prefix_size <= usize::MAX
            &&& forall|g: int|
                0 <= g < groups ==> (#[trigger] old(a_folded)@[g])@.len() == total && old(
                    b_folded,
                )@[g]@.len() == total && old(c_folded)@[g]@.len() == total
            &&& group_layers_cover(
                a_field_layers@,
                0,
                (groups * prefix_size) as nat,
                ab_large_positions@,
                total,
            )
            &&& group_layers_cover(
                b_field_layers@,
                0,
                (groups * prefix_size) as nat,
                ab_large_positions@,
                total,
            )
            &&& group_layers_cover(
                c_field_layers@,
                0,
                (groups * prefix_size) as nat,
                c_large_positions@,
                total,
            )
        },
    ensures
        final(a_folded)@.len() == old(a_folded)@.len(),
        final(b_folded)@.len() == old(a_folded)@.len(),
        final(c_folded)@.len() == old(a_folded)@.len(),
        final(c_claims)@.len() == old(a_folded)@.len(),
        forall|g: int|
            0 <= g < old(a_folded)@.len() ==> {
                &&& is_group_corrected(
                    (#[trigger] final(a_folded)@[g])@,
                    old(a_folded)@[g]@,
                    prefix_weights@,
                    a_field_layers@,
                    ab_large_positions@,
                    (left * right) as nat,
                    g,
                    prefix_size as nat,
                )
                &&& is_group_corrected(
                    final(b_folded)@[g]@,
                    old(b_folded)@[g]@,
                    prefix_weights@,
                    b_field_layers@,
                    ab_large_positions@,
                    (left * right) as nat,
                    g,
                    prefix_size as nat,
                )
                &&& is_group_corrected(
                    final(c_folded)@[g]@,
                    old(c_folded)@[g]@,
                    prefix_weights@,
                    c_field_layers@,
                    c_large_positions@,
                    (left * right) as nat,
                    g,
                    prefix_size as nat,
                )
                &&& final(c_claims)@[g]@ == fmod(
                    old(c_claims)@[g]@ + split_eq_sum(
                        e_eq@,
                        field_vals(final(c_folded)@[g]@),
                        left as nat,
                        right as nat,
                    ) - split_eq_sum(e_eq@, field_vals(old(c_folded)@[g]@), left as nat, right as nat),
                )
            },
{
    if ab_large_positions.len() == 0 && c_large_positions.len() == 0 {
        proof {
            assert forall|g: int| 0 <= g < a_folded@.len() implies final_claim_unchanged(
                c_claims@[g]@,
                e_eq@,
                c_folded@[g]@,
                left as nat,
                right as nat,
            ) by {
                lemma_fmod_shift(
                    c_claims@[g]@ as int,
                    split_eq_sum(e_eq@, field_vals(c_folded@[g]@), left as nat, right as nat),
                );
            }
        }
        return;
    }
    let groups = a_folded.len();
    let total = left * right;
    let ghost a0 = a_folded@;
    let ghost b0 = b_folded@;
    let ghost c0 = c_folded@;
    let ghost claims0 = c_claims@;
    let mut g: usize = 0;
    while g < groups
        invariant
            g <= groups,
            groups == a0.len(),
            total == left * right,
            total <= usize::MAX,
            e_eq@.len() == left + right,
            left + right <= usize::MAX,
            prefix_weights@.len() == prefix_size,
            groups * prefix_size <= usize::MAX,
            a_folded@.len() == groups,
            b_folded@.len() == groups,
            c_folded@.len() == groups,
            c_claims@.len() == groups,
            b0.len() == groups,
            c0.len() == groups,
            claims0.len() == groups,
            forall|q: int|
                0 <= q < groups ==> (#[trigger] a0[q])@.len() == total && b0[q]@.len() == total
                    && c0[q]@.len() == total,
            group_layers_cover(a_field_layers@, 0, (groups * prefix_size) as nat, ab_large_positions@, total as nat),
            group_layers_cover(b_field_layers@, 0, (groups * prefix_size) as nat, ab_large_positions@, total as nat),
            group_layers_cover(c_field_layers@, 0, (groups * prefix_size) as nat, c_large_positions@, total as nat),
            forall|q: int| g <= q < groups ==> #[trigger] a_folded@[q] == a0[q],
            forall|q: int| g <= q < groups ==> #[trigger] b_folded@[q] == b0[q],
            forall|q: int| g <= q < groups ==> #[trigger] c_folded@[q] == c0[q],
            forall|q: int| g <= q < groups ==> #[trigger] c_claims@[q] == claims0[q],
            forall|q: int|
                0 <= q < g ==> {
                    &&& is_group_corrected(
                        (#[trigger] a_folded@[q])@,
                        a0[q]@,
                        prefix_weights@,
                        a_field_layers@,
                        ab_large_positions@,
                        total as nat,
                        q,
                        prefix_size as nat,
                    )
                    &&& is_group_corrected(
                        b_folded@[q]@,
                        b0[q]@,
                        prefix_weights@,
                        b_field_layers@,
                        ab_large_positions@,
                        total as nat,
                        q,
                        prefix_size as nat,
                    )
                    &&& is_group_corrected(
                        c_folded@[q]@,
                        c0[q]@,
                        prefix_weights@,
                        c_field_layers@,
                        c_large_positions@,
                        total as nat,
                        q,
                        prefix_size as nat,
                    )
                    &&& c_claims@[q]@ == fmod(
                        claims0[q]@ + split_eq_sum(
                            e_eq@,
                            field_vals(c_folded@[q]@),
                            left as nat,
                            right as nat,
                        ) - split_eq_sum(e_eq@, field_vals(c0[q]@), left as nat, right as nat),
                    )
                },
        decreases groups - g,
    {
        assert((g + 1) * prefix_size <= groups * prefix_size) by (nonlinear_arith)
            requires
                g < groups,
        ;
        assert((g + 1) * prefix_size == g * prefix_size + prefix_size) by (nonlinear_arith);
        let off = g * prefix_size;
        proof {
            lemma_group_cover_slice(
                a_field_layers@,
                (groups * prefix_size) as nat,
                ab_large_positions@,
                total as nat,
                off as int,
                prefix_size as nat,
            );
            lemma_group_cover_slice(
                b_field_layers@,
                (groups * prefix_size) as nat,
                ab_large_positions@,
                total as nat,
                off as int,
                prefix_size as nat,
            );
            lemma_group_cover_slice(
                c_field_layers@,
                (groups * prefix_size) as nat,
                c_large_positions@,
                total as nat,
                off as int,
                prefix_size as nat,
            );
        }
        let mut a_out: Vec<Scalar> = Vec::new();
        std::mem::swap(&mut a_out, &mut a_folded[g]);
        let mut b_out: Vec<Scalar> = Vec::new();
        std::mem::swap(&mut b_out, &mut b_folded[g]);
        let mut c_out: Vec<Scalar> = Vec::new();
        std::mem::swap(&mut c_out, &mut c_folded[g]);
        let mut claim = c_claims[g];
        assert(a_out@ == a0[g as int]@);
        assert(b_out@ == b0[g as int]@);
        assert(c_out@ == c0[g as int]@);
        if left > 0 {
            correct_group_positions(&mut a_out, a_field_layers, ab_large_positions, total, prefix_weights, off, prefix_size);
            correct_group_positions(&mut b_out, b_field_layers, ab_large_positions, total, prefix_weights, off, prefix_size);
            correct_group_c_positions(
                &mut c_out,
                &mut claim,
                c_field_layers,
                c_large_positions,
                prefix_weights,
                off,
                prefix_size,
                e_eq,
                left,
                right,
            );
        } else {
            proof {
                lemma_fmod_shift(
                    claim@ as int,
                    split_eq_sum(e_eq@, field_vals(c_out@), left as nat, right as nat),
                );
            }
        }
        proof {
            assert(off as int == g as int * prefix_size as nat);
        }
        a_folded[g] = a_out;
        b_folded[g] = b_out;
        c_folded[g] = c_out;
        c_claims.set(g, claim);
        g = g + 1;
    }
}

/// The claim is unchanged when the layer is.
pub open spec fn final_claim_unchanged(
    claim: nat,
    e: Seq<Scalar>,
    layer: Seq<Scalar>,
    left: nat,
    right: nat,
) -> bool {
    claim == fmod(claim + split_eq_sum(e, field_vals(layer), left, right) - split_eq_sum(
        e,
        field_vals(layer),
        left,
        right,
    ))
}

/// `a * b`, or `usize::MAX` when the product does not fit.
pub open spec fn saturating_product(a: int, b: int) -> int {
    if a * b > usize::MAX {
        usize::MAX as int
    } else {
        a * b
    }
}

/// The failure of the checks of [`materialize_prefix_abc_with_c_claims`], if
/// any.
pub open spec fn prefix_failure<SV>(
    a: Seq<&[SV]>,
    b: Seq<&[SV]>,
    c: Seq<&[SV]>,
    n_weights: int,
    prefix_size: int,
    e_len: int,
    left: int,
    right: int,
) -> Option<Seq<char>> {
    if a.len() == 0 {
        Some("cannot materialize empty prefix layer list"@)
    } else if b.len() != a.len() || c.len() != a.len() {
        Some("A/B/C prefix layer counts must match"@)
    } else if prefix_size == 0 || a.len() % (prefix_size as nat) != 0 {
        Some("invalid small prefix group size"@)
    } else if n_weights != prefix_size {
        Some(
            "prefix weight length "@ + decimal_text(n_weights) + " does not match prefix size "@
                + decimal_text(prefix_size),
        )
    } else if left == 0 || right == 0 {
        Some("prefix materialization requires non-empty tensor factors"@)
    } else if !(all_slices_len(a, a[0]@.len() as int) && all_slices_len(b, a[0]@.len() as int)
        && all_slices_len(c, a[0]@.len() as int)) {
        Some("all prefix layers must have the same length"@)
    } else if left * right != a[0]@.len() {
        Some(
            "prefix layer length "@ + decimal_text(a[0]@.len() as int)
                + " does not match left * right "@ + decimal_text(saturating_product(left, right)),
        )
    } else if left + right > usize::MAX {
        Some("left + right overflows"@)
    } else if e_len != left + right {
        Some(
            "e_eq length "@ + decimal_text(e_len) + " does not match left + right "@ + decimal_text(
                left + right,
            ),
        )
    } else {
        None
    }
}

/// Whether `res` holds the materialized prefix groups: for each group `g` of
/// `prefix_size` consecutive layers, the weighted `A/B/C` folds corrected at
/// the listed positions, and the split equality dot product of the `C` fold.
pub open spec fn is_prefix_materialization<SV: SmallValue>(
    res: PrefixAbcWithCClaims,
    a: Seq<&[SV]>,
    b: Seq<&[SV]>,
    c: Seq<&[SV]>,
    a_field: Seq<&[Scalar]>,
    b_field: Seq<&[Scalar]>,
    c_field: Seq<&[Scalar]>,
    ab_pos: Seq<usize>,
    c_pos: Seq<usize>,
    w: Seq<Scalar>,
    prefix_size: nat,
    e: Seq<Scalar>,
    left: nat,
    right: nat,
) -> bool {
    let groups = a.len() / prefix_size;
    let total = left * right;
    &&& res.a_layers@.len() == groups
    &&& res.b_layers@.len() == groups
    &&& res.c_layers@.len() == groups
    &&& res.c_claims@.len() == groups
    &&& forall|g: int|
        0 <= g < groups ==> {
            &&& is_prefix_layer((#[trigger] res.a_layers@[g])@, w, a, a_field, ab_pos, total, g, prefix_size)
            &&& is_prefix_layer(res.b_layers@[g]@, w, b, b_field, ab_pos, total, g, prefix_size)
            &&& is_prefix_layer(res.c_layers@[g]@, w, c, c_field, c_pos, total, g, prefix_size)
            &&& res.c_claims@[g]@ == fmod(split_eq_sum(e, field_vals(res.c_layers@[g]@), left, right))
        }
}

/// Materialize the `A/B/C` layers of each prefix group and the `C` claim of
/// each group.
///
/// Layers are taken in groups of `prefix_size` consecutive layers; group `g`
/// folds its layers with `prefix_weights` at every position, takes the fold
/// of its field layers at each listed position below `left * right`, and
/// claims the split equality dot product of its `C` fold with `e_eq`.
pub fn materialize_prefix_abc_with_c_claims<SV: SmallValue>(
    a_layers: &[&[SV]],
    b_layers: &[&[SV]],
    c_layers: &[&[SV]],
    a_field_layers: &[&[Scalar]],
    b_field_layers: &[&[Scalar]],
    c_field_layers: &[&[Scalar]],
    ab_large_positions: &[usize],
    c_large_positions: &[usize],
    prefix_weights: &[Scalar],
    prefix_size: usize,
    e_eq: &[Scalar],
    left: usize,
    right: usize,
) -> (r: Result<PrefixAbcWithCClaims, SpartanError>)
    requires
        prefix_failure(
            a_layers@,
            b_layers@,
            c_layers@,
            prefix_weights@.len() as int,
            prefix_size as int,
            e_eq@.len() as int,
            left as int,
            right as int,
        ) is None ==> {
            let n = a_layers@.len();
            let total = (left * right) as nat;
            &&& group_layers_cover(a_field_layers@, 0, n, ab_large_positions@, total)
            &&& group_layers_cover(b_field_layers@, 0, n, ab_large_positions@, total)
            &&& group_layers_cover(c_field_layers@, 0, n, c_large_positions@, total)
        },
    ensures
        match prefix_failure(
            a_layers@,
            b_layers@,
            c_layers@,
            prefix_weights@.len() as int,
            prefix_size as int,
            e_eq@.len() as int,
            left as int,
            right as int,
        ) {
            Some(t) => fails_with(r, t),
            None => r matches Ok(res) && is_prefix_materialization(
                res,
                a_layers@,
                b_layers@,
                c_layers@,
                a_field_layers@,
                b_field_layers@,
                c_field_layers@,
                ab_large_positions@,
                c_large_positions@,
                prefix_weights@,
                prefix_size as nat,
                e_eq@,
                left as nat,
                right as nat,
            ),
        },
{
    proof {
        reveal_strlit("");
    }
    if a_layers.len() == 0 {
        return Err(invalid_input("cannot materialize empty prefix layer list"));
    }
    if b_layers.len() != a_layers.len() || c_layers.len() != a_layers.len() {
        return Err(invalid_input("A/B/C prefix layer counts must match"));
    }
    if prefix_size == 0 || a_layers.len() % prefix_size != 0 {
        return Err(invalid_input("invalid small prefix group size"));
    }
    if prefix_weights.len() != prefix_size {
        let reason = text_with_two_numbers(
            "prefix weight length ",
            prefix_weights.len(),
            " does not match prefix size ",
            prefix_size,
            "",
        );
        assert(reason@ =~= "prefix weight length "@ + decimal_text(prefix_weights@.len() as int)
            + " does not match prefix size "@ + decimal_text(prefix_size as int));
        return Err(invalid_input_owned(reason));
    }
    if left == 0 || right == 0 {
        return Err(invalid_input("prefix materialization requires non-empty tensor factors"));
    }
    let layer_len = a_layers[0].len();
    if !(slices_all_len(a_layers, layer_len) && slices_all_len(b_layers, layer_len)
        && slices_all_len(c_layers, layer_len)) {
        return Err(invalid_input("all prefix layers must have the same length"));
    }
    let total = match left.checked_mul(right) {
        Some(t) => t,
        None => {
            let reason = text_with_two_numbers(
                "prefix layer length ",
                layer_len,
                " does not match left * right ",
                usize::MAX,
                "",
            );
            assert(reason@ =~= "prefix layer length "@ + decimal_text(layer_len as int)
                + " does not match left * right "@ + decimal_text(
                saturating_product(left as int, right as int),
            ));
            return Err(invalid_input_owned(reason));
        },
    };
    if total != layer_len {
        let reason = text_with_two_numbers(
            "prefix layer length ",
            layer_len,
            " does not match left * right ",
            total,
            "",
        );
        assert(reason@ =~= "prefix layer length "@ + decimal_text(layer_len as int)
            + " does not match left * right "@ + decimal_text(
            saturating_product(left as int, right as int),
        ));
        return Err(invalid_input_owned(reason));
    }
    let expected_eq_len = match left.checked_add(right) {
        Some(t) => t,
        None => {
            return Err(invalid_input("left + right overflows"));
        },
    };
    if e_eq.len() != expected_eq_len {
        let reason = text_with_two_numbers(
            "e_eq length ",
            e_eq.len(),
            " does not match left + right ",
            expected_eq_len,
            "",
        );
        assert(reason@ =~= "e_eq length "@ + decimal_text(e_eq@.len() as int)
            + " does not match left + right "@ + decimal_text(expected_eq_len as int));
        return Err(invalid_input_owned(reason));
    }
    let n = a_layers.len();
    let groups = n / prefix_size;
    let mut a_folded: Vec<Vec<Scalar>> = Vec::new();
    let mut b_folded: Vec<Vec<Scalar>> = Vec::new();
    let mut c_folded: Vec<Vec<Scalar>> = Vec::new();
    let mut c_claims: Vec<Scalar> = Vec::new();
    let mut g: usize = 0;
    while g < groups
        invariant
            g <= groups,
            groups == n / prefix_size,
            n == a_layers@.len(),
            n == b_layers@.len(),
            n == c_layers@.len(),
            prefix_size > 0,
            n % prefix_size == 0,
            prefix_weights@.len() == prefix_size,
            total == left * right,
            total == layer_len,
            left + right <= usize::MAX,
            e_eq@.len() == left + right,
            all_slices_len(a_layers@, layer_len as int),
            all_slices_len(b_layers@, layer_len as int),
            all_slices_len(c_layers@, layer_len as int),
            a_folded@.len() == g,
            b_folded@.len() == g,
            c_folded@.len() == g,
            c_claims@.len() == g,
            forall|q: int|
                0 <= q < g ==> {
                    &&& is_group_small_fold(
                        (#[trigger] a_folded@[q])@,
                        prefix_weights@,
                        a_layers@,
                        q,
                        prefix_size as nat,
                        total as nat,
                    )
                    &&& is_group_small_fold(
                        b_folded@[q]@,
                        prefix_weights@,
                        b_layers@,
                        q,
                        prefix_size as nat,
                        total as nat,
                    )
                    &&& is_group_small_fold(
                        c_folded@[q]@,
                        prefix_weights@,
                        c_layers@,
                        q,
                        prefix_size as nat,
                        total as nat,
                    )
                    &&& c_claims@[q]@ == fmod(
                        split_eq_sum(e_eq@, field_vals(c_folded@[q]@), left as nat, right as nat),
                    )
                },
        decreases groups - g,
    {
        assert((g + 1) * prefix_size <= n) by (nonlinear_arith)
            requires
                g < groups,
                groups == n / prefix_size,
                prefix_size > 0,
        {
            vstd::arithmetic::div_mod::lemma_fundamental_div_mod(n as int, prefix_size as int);
        }
        assert((g + 1) * prefix_size == g * prefix_size + prefix_size) by (nonlinear_arith);
        let off = g * prefix_size;
        let a_out = group_small_layer(prefix_weights, a_layers, off, prefix_size, layer_len);
        let b_out = group_small_layer(prefix_weights, b_layers, off, prefix_size, layer_len);
        let c_out = group_small_layer(prefix_weights, c_layers, off, prefix_size, layer_len);
        let claim = split_eq_dot(c_out.as_slice(), e_eq, left, right);
        a_folded.push(a_out);
        b_folded.push(b_out);
        c_folded.push(c_out);
        c_claims.push(claim);
        g = g + 1;
    }
    assert(groups * prefix_size == n) by (nonlinear_arith)
        requires
            groups == n / prefix_size,
            prefix_size > 0,
            n % prefix_size == 0,
    {
        vstd::arithmetic::div_mod::lemma_fundamental_div_mod(n as int, prefix_size as int);
    }
    let ghost a0 = a_folded@;
    let ghost b0 = b_folded@;
    let ghost c0 = c_folded@;
    let ghost claims0 = c_claims@;
    apply_large_prefix_corrections(
        &mut a_folded,
        &mut b_folded,
        &mut c_folded,
        &mut c_claims,
        a_field_layers,
        b_field_layers,
        c_field_layers,
        ab_large_positions,
        c_large_positions,
        prefix_weights,
        prefix_size,
        e_eq,
        left,
        right,
    );
    proof {
        let ps = prefix_size as nat;
        assert forall|q: int| 0 <= q < groups implies {
            &&& is_prefix_layer(
                (#[trigger] a_folded@[q])@,
                prefix_weights@,
                a_layers@,
                a_field_layers@,
                ab_large_positions@,
                total as nat,
                q,
                ps,
            )
            &&& is_prefix_layer(
                b_folded@[q]@,
                prefix_weights@,
                b_layers@,
                b_field_layers@,
                ab_large_positions@,
                total as nat,
                q,
                ps,
            )
            &&& is_prefix_layer(
                c_folded@[q]@,
                prefix_weights@,
                c_layers@,
                c_field_layers@,
                c_large_positions@,
                total as nat,
                q,
                ps,
            )
            &&& c_claims@[q]@ == fmod(
                split_eq_sum(e_eq@, field_vals(c_folded@[q]@), left as nat, right as nat),
            )
        } by {
            assert(is_group_small_fold(a0[q]@, prefix_weights@, a_layers@, q, ps, total as nat));
            assert(is_group_small_fold(b0[q]@, prefix_weights@, b_layers@, q, ps, total as nat));
            assert(is_group_small_fold(c0[q]@, prefix_weights@, c_layers@, q, ps, total as nat));
            lemma_fmod_shift(
                split_eq_sum(e_eq@, field_vals(c0[q]@), left as nat, right as nat),
                split_eq_sum(e_eq@, field_vals(c_folded@[q]@), left as nat, right as nat),
            );
        }
    }
    Ok(PrefixAbcWithCClaims {
        a_layers: a_folded,
        b_layers: b_folded,
        c_layers: c_folded,
        c_claims,
    })
}

/// A cover of layers `0..n` covers each group `off..off + size` inside it.
proof fn lemma_group_cover_slice(
    layers: Seq<&[Scalar]>,
    n: nat,
    pos: Seq<usize>,
    total: nat,
    off: int,
    size: nat,
)
    requires
        group_layers_cover(layers, 0, n, pos, total),
        0 <= off,
        off + size <= n,
    ensures
        group_layers_cover(layers, off, size, pos, total),
{
    assert forall|p: int| 0 <= p < pos.len() && #[trigger] pos[p] < total && size > 0 implies off + size
        <= layers.len() by {
        assert(n > 0);
    }
}

// ---------------------------------------------------------------------------
// Padded layer views.
// ---------------------------------------------------------------------------

/// The error reported when a small fold produces no layer.
pub fn empty_fold_error() -> (r: SpartanError)
    ensures
        is_invalid_input(r, "small NeutronNova NIFS produced no folded layer"@),
{
    invalid_input("small NeutronNova NIFS produced no folded layer")
}

/// The layer that padded position `idx` repeats: `idx` itself for the first
/// `num_instances` positions, layer 0 after them.
pub open spec fn padded_source(idx: int, num_instances: int) -> int {
    if idx < num_instances {
        idx
    } else {
        0
    }
}

/// References to `n_padded` certified layers, repeating layer 0 past the
/// first `num_instances`.
pub fn padded_bounded_layers<'a, SV: SmallValue, Product: ExtensionMagnitude, const D: usize, const L0: usize>(
    layers: &'a [ExtensionBoundedPoly<SV, Product, D, L0>],
    num_instances: usize,
    n_padded: usize,
) -> (r: Vec<&'a ExtensionBoundedPoly<SV, Product, D, L0>>)
    requires
        n_padded > 0 ==> layers@.len() > 0,
        forall|i: int| 0 <= i < n_padded ==> padded_source(i, num_instances as int) < layers@.len(),
    ensures
        r@.len() == n_padded,
        forall|i: int|
            0 <= i < n_padded ==> *(#[trigger] r@[i]) == layers@[padded_source(
                i,
                num_instances as int,
            )],
{
    let mut out: Vec<&'a ExtensionBoundedPoly<SV, Product, D, L0>> = Vec::new();
    let mut idx: usize = 0;
    while idx < n_padded
        invariant
            idx <= n_padded,
            n_padded > 0 ==> layers@.len() > 0,
            forall|i: int| 0 <= i < n_padded ==> padded_source(i, num_instances as int) < layers@.len(),
            out@.len() == idx,
            forall|i: int|
                0 <= i < idx ==> *(#[trigger] out@[i]) == layers@[padded_source(
                    i,
                    num_instances as int,
                )],
        decreases n_padded - idx,
    {
        let row = if idx < num_instances {
            idx
        } else {
            0
        };
        assert(row as int == padded_source(idx as int, num_instances as int));
        out.push(&layers[row]);
        idx = idx + 1;
    }
    out
}

/// The evaluation tables of certified layers.
pub fn bounded_layer_evals<'a, SV: SmallValue, Product: ExtensionMagnitude, const D: usize, const L0: usize>(
    layers: &[&'a ExtensionBoundedPoly<SV, Product, D, L0>],
) -> (r: Vec<&'a [SV]>)
    ensures
        r@.len() == layers@.len(),
        forall|i: int| 0 <= i < layers@.len() ==> (#[trigger] r@[i])@ == layers@[i]@,
{
    let mut out: Vec<&'a [SV]> = Vec::new();
    let mut i: usize = 0;
    while i < layers.len()
        invariant
            i <= layers@.len(),
            out@.len() == i,
            forall|j: int| 0 <= j < i ==> (#[trigger] out@[j])@ == layers@[j]@,
        decreases layers@.len() - i,
    {
        let layer: &'a ExtensionBoundedPoly<SV, Product, D, L0> = layers[i];
        let poly: &'a MultilinearPolynomial<SV> = layer.as_poly();
        out.push(poly.Z.as_slice());
        i = i + 1;
    }
    out
}

/// The evaluation tables of `n_padded` certified layers, repeating layer 0
/// past the first `num_instances`.
pub fn padded_bounded_layer_evals<'a, SV: SmallValue, Product: ExtensionMagnitude, const D: usize, const L0: usize>(
    layers: &'a [ExtensionBoundedPoly<SV, Product, D, L0>],
    num_instances: usize,
    n_padded: usize,
) -> (r: Vec<&'a [SV]>)
    requires
        n_padded > 0 ==> layers@.len() > 0,
        forall|i: int| 0 <= i < n_padded ==> padded_source(i, num_instances as int) < layers@.len(),
    ensures
        r@.len() == n_padded,
        forall|i: int|
            0 <= i < n_padded ==> (#[trigger] r@[i])@ == layers@[padded_source(
                i,
                num_instances as int,
            )]@,
{
    let bounded = padded_bounded_layers(layers, num_instances, n_padded);
    bounded_layer_evals(bounded.as_slice())
}

/// The evaluation tables of `n_padded` plain layers, repeating layer 0 past
/// the first `num_instances`.
pub fn padded_plain_layer_evals<'a, SV: SmallValue>(
    layers: &'a [MultilinearPolynomial<SV>],
    num_instances: usize,
    n_padded: usize,
) -> (r: Vec<&'a [SV]>)
    requires
        n_padded > 0 ==> layers@.len() > 0,
        forall|i: int| 0 <= i < n_padded ==> padded_source(i, num_instances as int) < layers@.len(),
    ensures
        r@.len() == n_padded,
        forall|i: int|
            0 <= i < n_padded ==> (#[trigger] r@[i])@ == layers@[padded_source(
                i,
                num_instances as int,
            )].Z@,
{
    let mut out: Vec<&'a [SV]> = Vec::new();
    let mut idx: usize = 0;
    while idx < n_padded
        invariant
            idx <= n_padded,
            n_padded > 0 ==> layers@.len() > 0,
            forall|i: int| 0 <= i < n_padded ==> padded_source(i, num_instances as int) < layers@.len(),
            out@.len() == idx,
            forall|i: int|
                0 <= i < idx ==> (#[trigger] out@[i])@ == layers@[padded_source(
                    i,
                    num_instances as int,
                )].Z@,
        decreases n_padded - idx,
    {
        let row = if idx < num_instances {
            idx
        } else {
            0
        };
        assert(row as int == padded_source(idx as int, num_instances as int));
        let layer: &'a MultilinearPolynomial<SV> = &layers[row];
        out.push(layer.Z.as_slice());
        idx = idx + 1;
    }
    out
}

} // verus!
