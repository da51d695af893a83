//! Properties that relate the library's operations: conversions that undo
//! each other, bounds that the extension certificate guarantees, the
//! agreement of the small-value paths, corrected at the large positions,
//! with the field paths, the prefix workspace as a transposition of the
//! padded rows, folding by prefix then suffix as the final fold, and claims
//! that fold as their layers do.

use crate::dot::{column_dot, field_column_dot, field_vec_column_dot, run_dot};
use crate::extension_bound::{
    is_zeroed_above_bound, abs_int, position_set, fit_input_bound, lemma_floor_sqrt, min_int, product_input_bound, step_growth,
    step_growth_fits, floor_sqrt,
};
use crate::field::{field_modulus, fmod, lemma_fmod_range, lemma_scalar_lt_modulus, Scalar};
use crate::neutronnova_zk::{bit_factor, fold_value, is_folded_layer, suffix_weight_upto};
use crate::round_claims::{
    ab_product_vals, abc_residual_vals, claim_round_e0, field_round_e0, cross_vals, diff_product_vals, diff_vals, eq_weighted, fold_vals, lemma_add_cong, lemma_mul_cong,
    lemma_reduced_fixed, lemma_sub_cong, listed_total, prod_vals, small_diff_product_vals, split_eq_claim,
};
use crate::small_c::{
    field_vals, i64_vals, lemma_split_eq_sum_congruent, lemma_split_eq_sum_update,
    lemma_split_eq_sum_zero_width, row_sum, split_eq_sum, with_listed,
};
use crate::small_int::{ExtensionMagnitude, SmallValue};
use crate::small_neutronnova::{
    group_field_dot, group_small_dot, is_corrected, is_prefix_layer, is_small_fold, prefix_value,
};
use crate::small_neutronnova_workspace::{final_table_dot, padded_row, transpose_source_index};
use crate::small_value::{field_to_int_in, lemma_field_to_int_roundtrip};
use vstd::arithmetic::power::pow;
use vstd::arithmetic::power2::pow2;
use vstd::prelude::*;

verus! {

broadcast use {lemma_scalar_lt_modulus, lemma_fmod_range};

// ---------------------------------------------------------------------------
// Conversions.
// ---------------------------------------------------------------------------

/// A small value survives the trip to the field and back: the field element
/// of `x` reads as `x` in the type's range, so `try_field_to_small` of
/// `small_to_field(x)` is `x`.
pub proof fn law_small_value_roundtrip<SV: SmallValue>(x: SV)
    ensures
        field_to_int_in(fmod(x.int_val()), SV::min_int(), SV::max_int()) == Some(x.int_val()),
{
    SV::lemma_range(x);
    assert(SV::max_int() - SV::min_int() < field_modulus()) by {
        assert(SV::max_int() <= i128::MAX);
    }
    lemma_field_to_int_roundtrip(x.int_val(), SV::min_int(), SV::max_int());
}

// ---------------------------------------------------------------------------
// Extension bounds.
// ---------------------------------------------------------------------------

/// One extension round grows magnitudes by at most `H_D`: when both endpoints
/// of a line have magnitude at most `bound`, every finite point `t < D` of
/// `U_D` and the point `∞` (the slope) have magnitude at most `H_D * bound`.
pub proof fn law_extension_step_growth(a: int, b: int, bound: int, t: int, d: nat)
    requires
        abs_int(a) <= bound,
        abs_int(b) <= bound,
        0 <= t < d,
    ensures
        abs_int((1 - t) * a + t * b) <= step_growth(d) * bound,
        abs_int(b - a) <= step_growth(d) * bound,
{
    assert(bound >= 0);
    if t == 0 {
        assert((1 - t) * a + t * b == a) by (nonlinear_arith)
            requires
                t == 0,
        ;
    } else {
        let s = (t - 1) * abs_int(a) + t * abs_int(b);
        assert(abs_int((1 - t) * a + t * b) <= s) by (nonlinear_arith)
            requires
                t >= 1,
                abs_int(a) >= 0,
                abs_int(b) >= 0,
                abs_int(a) == a || abs_int(a) == -a,
                abs_int(b) == b || abs_int(b) == -b,
                abs_int((1 - t) * a + t * b) == (1 - t) * a + t * b || abs_int((1 - t) * a + t * b)
                    == -((1 - t) * a + t * b),
                s == (t - 1) * abs_int(a) + t * abs_int(b),
        ;
        assert(s <= (2 * t - 1) * bound) by (nonlinear_arith)
            requires
                t >= 1,
                abs_int(a) <= bound,
                abs_int(b) <= bound,
                s == (t - 1) * abs_int(a) + t * abs_int(b),
        ;
        assert((2 * t - 1) * bound <= step_growth(d) * bound) by (nonlinear_arith)
            requires
                bound >= 0,
                2 * t - 1 <= step_growth(d),
        ;
    }
    assert(2 * bound <= step_growth(d) * bound) by (nonlinear_arith)
        requires
            bound >= 0,
            2 <= step_growth(d),
    ;
}

/// Values within the product input bound stay in range: when `0 <= b <=
/// min(SV_max, floor(sqrt(P_max))) / H_D^rounds`, the extended magnitude
/// `b * H_D^rounds` fits in `SV`, and its square fits in `Product`.
pub proof fn law_product_bound_is_sound(sv_max: int, p_max: int, d: nat, rounds: nat, b: int)
    requires
        sv_max >= 0,
        p_max >= 0,
        0 <= b <= product_input_bound(sv_max, p_max, d, rounds),
    ensures
        b * pow(step_growth(d), rounds) <= sv_max,
        (b * pow(step_growth(d), rounds)) * (b * pow(step_growth(d), rounds)) <= p_max,
{
    let g = pow(step_growth(d), rounds);
    vstd::arithmetic::power::lemma_pow_positive(step_growth(d), rounds);
    let limit = min_int(min_int(sv_max, p_max), floor_sqrt(p_max as nat) as int);
    if b > 0 {
        assert(product_input_bound(sv_max, p_max, d, rounds) == limit / g);
        vstd::arithmetic::div_mod::lemma_fundamental_div_mod(limit, g);
        assert(b * g <= limit) by (nonlinear_arith)
            requires
                b <= limit / g,
                g > 0,
                limit == g * (limit / g) + limit % g,
                limit % g >= 0,
        ;
        lemma_floor_sqrt(p_max as nat);
        let s = floor_sqrt(p_max as nat) as int;
        let x = b * g;
        assert(x * x <= p_max) by (nonlinear_arith)
            requires
                0 <= x <= s,
                s * s <= p_max,
        ;
    } else {
        assert(b * g == 0);
    }
}

/// Values within the extension-only bound stay in range: when `0 <= b <=
/// min(SV_max, M_max) / H_D^rounds`, the extended magnitude fits in `SV`.
pub proof fn law_fit_bound_is_sound(sv_max: int, m_max: int, d: nat, rounds: nat, b: int)
    requires
        sv_max >= 0,
        m_max >= 0,
        0 <= b <= fit_input_bound(sv_max, m_max, d, rounds),
    ensures
        b * pow(step_growth(d), rounds) <= sv_max,
{
    let g = pow(step_growth(d), rounds);
    vstd::arithmetic::power::lemma_pow_positive(step_growth(d), rounds);
    let limit = min_int(sv_max, m_max);
    if b > 0 {
        vstd::arithmetic::div_mod::lemma_fundamental_div_mod(limit, g);
        assert(b * g <= limit) by (nonlinear_arith)
            requires
                b <= limit / g,
                g > 0,
                limit == g * (limit / g) + limit % g,
                limit % g >= 0,
        ;
    } else {
        assert(b * g == 0);
    }
}

/// The growth factor `H_D^rounds` does not shrink with more rounds.
proof fn lemma_growth_increases(d: nat, r1: nat, r2: nat)
    requires
        r1 <= r2,
    ensures
        0 < pow(step_growth(d), r1) <= pow(step_growth(d), r2),
{
    vstd::arithmetic::power::lemma_pow_positive(step_growth(d), r1);
    vstd::arithmetic::power::lemma_pow_increases(step_growth(d) as nat, r1, r2);
}

/// The product input bound never grows with more rounds: for `r1 <= r2`,
/// the bound for `r2` rounds is at most the bound for `r1` rounds, and both
/// are non-negative.
pub proof fn law_product_bound_shrinks_with_rounds(sv_max: int, p_max: int, d: nat, r1: nat, r2: nat)
    requires
        sv_max >= 0,
        p_max >= 0,
        r1 <= r2,
    ensures
        0 <= product_input_bound(sv_max, p_max, d, r2) <= product_input_bound(sv_max, p_max, d, r1),
{
    let g1 = pow(step_growth(d), r1);
    let g2 = pow(step_growth(d), r2);
    lemma_growth_increases(d, r1, r2);
    let limit = min_int(min_int(sv_max, p_max), floor_sqrt(p_max as nat) as int);
    if product_input_bound(sv_max, p_max, d, r1) != 0 {
        assert(g1 <= limit);
        vstd::arithmetic::div_mod::lemma_div_pos_is_pos(limit, g1);
    }
    if product_input_bound(sv_max, p_max, d, r2) != 0 {
        assert(g2 <= limit);
        vstd::arithmetic::div_mod::lemma_div_pos_is_pos(limit, g2);
        vstd::arithmetic::div_mod::lemma_div_is_ordered_by_denominator(limit, g1, g2);
    }
}

/// The extension-only input bound never grows with more rounds: for `r1 <=
/// r2`, the bound for `r2` rounds is at most the bound for `r1` rounds, and
/// both are non-negative.
pub proof fn law_fit_bound_shrinks_with_rounds(sv_max: int, m_max: int, d: nat, r1: nat, r2: nat)
    requires
        sv_max >= 0,
        m_max >= 0,
        r1 <= r2,
    ensures
        0 <= fit_input_bound(sv_max, m_max, d, r2) <= fit_input_bound(sv_max, m_max, d, r1),
{
    let g1 = pow(step_growth(d), r1);
    let g2 = pow(step_growth(d), r2);
    lemma_growth_increases(d, r1, r2);
    let limit = min_int(sv_max, m_max);
    if fit_input_bound(sv_max, m_max, d, r1) != 0 {
        assert(g1 <= limit);
        vstd::arithmetic::div_mod::lemma_div_pos_is_pos(limit, g1);
    }
    if fit_input_bound(sv_max, m_max, d, r2) != 0 {
        assert(g2 <= limit);
        vstd::arithmetic::div_mod::lemma_div_pos_is_pos(limit, g2);
        vstd::arithmetic::div_mod::lemma_div_is_ordered_by_denominator(limit, g1, g2);
    }
}

/// The product bound never exceeds the extension-only bound computed in the
/// same magnitude type.
pub proof fn law_product_bound_within_fit_bound(sv_max: int, p_max: int, d: nat, rounds: nat)
    requires
        sv_max >= 0,
        p_max >= 0,
    ensures
        product_input_bound(sv_max, p_max, d, rounds) <= fit_input_bound(sv_max, p_max, d, rounds),
{
    let g = pow(step_growth(d), rounds);
    vstd::arithmetic::power::lemma_pow_positive(step_growth(d), rounds);
    let limit = min_int(min_int(sv_max, p_max), floor_sqrt(p_max as nat) as int);
    let limit2 = min_int(sv_max, p_max);
    if step_growth_fits(d, p_max) && g <= p_max && g <= limit {
        lemma_floor_sqrt(p_max as nat);
        vstd::arithmetic::div_mod::lemma_div_is_ordered(limit, limit2, g);
    } else if step_growth_fits(d, p_max) && g <= p_max && g <= limit2 {
        vstd::arithmetic::div_mod::lemma_div_pos_is_pos(limit2, g);
    }
}

// ---------------------------------------------------------------------------
// Folding.
// ---------------------------------------------------------------------------

/// Folding a pair at challenge 0 keeps the low value, and at challenge 1
/// takes the high value.
pub proof fn law_fold_endpoints(lo: Scalar, hi: Scalar)
    ensures
        fold_value(lo@, hi@, 0) == lo@,
        fold_value(lo@, hi@, 1) == hi@,
{
    vstd::arithmetic::div_mod::lemma_small_mod(lo@, field_modulus());
    vstd::arithmetic::div_mod::lemma_small_mod(hi@, field_modulus());
}

// ---------------------------------------------------------------------------
// Small-value paths agree with field paths.
// ---------------------------------------------------------------------------

/// Column sums of small layers agree with those of field layers whose values
/// they denote.
proof fn lemma_column_dot_congruent<SV: SmallValue>(
    w: Seq<Scalar>,
    small: Seq<&[SV]>,
    field: Seq<&[Scalar]>,
    k: int,
    n: nat,
)
    requires
        forall|i: int| 0 <= i < n ==> fmod((#[trigger] small[i])@[k].int_val()) == field[i]@[k]@,
    ensures
        fmod(column_dot(w, small, k, n)) == fmod(field_column_dot(w, field, k, n)),
    decreases n,
{
    if n > 0 {
        lemma_column_dot_congruent(w, small, field, k, (n - 1) as nat);
        let m = field_modulus() as int;
        let a = column_dot(w, small, k, (n - 1) as nat);
        let b = field_column_dot(w, field, k, (n - 1) as nat);
        let x = small[n - 1]@[k].int_val();
        let y = field[n - 1]@[k]@ as int;
        let c = w[n - 1]@ as int;
        vstd::arithmetic::div_mod::lemma_small_mod(y as nat, field_modulus());
        vstd::arithmetic::div_mod::lemma_mul_mod_noop_right(c, x, m);
        vstd::arithmetic::div_mod::lemma_mul_mod_noop_right(c, y, m);
        vstd::arithmetic::div_mod::lemma_add_mod_noop(a, c * x, m);
        vstd::arithmetic::div_mod::lemma_add_mod_noop(b, c * y, m);
    }
}

/// Group sums of small layers agree with those of field layers whose values
/// they denote.
proof fn lemma_group_dot_congruent<SV: SmallValue>(
    w: Seq<Scalar>,
    small: Seq<&[SV]>,
    field: Seq<&[Scalar]>,
    off: int,
    k: int,
    n: nat,
)
    requires
        forall|i: int|
            off <= i < off + n ==> fmod((#[trigger] small[i])@[k].int_val()) == field[i]@[k]@,
    ensures
        fmod(group_small_dot(w, small, off, k, n)) == fmod(group_field_dot(w, field, off, k, n)),
    decreases n,
{
    if n > 0 {
        lemma_group_dot_congruent(w, small, field, off, k, (n - 1) as nat);
        let m = field_modulus() as int;
        let a = group_small_dot(w, small, off, k, (n - 1) as nat);
        let b = group_field_dot(w, field, off, k, (n - 1) as nat);
        let x = small[off + n - 1]@[k].int_val();
        let y = field[off + n - 1]@[k]@ as int;
        let c = w[n - 1]@ as int;
        vstd::arithmetic::div_mod::lemma_small_mod(y as nat, field_modulus());
        vstd::arithmetic::div_mod::lemma_mul_mod_noop_right(c, x, m);
        vstd::arithmetic::div_mod::lemma_mul_mod_noop_right(c, y, m);
        vstd::arithmetic::div_mod::lemma_add_mod_noop(a, c * x, m);
        vstd::arithmetic::div_mod::lemma_add_mod_noop(b, c * y, m);
    }
}

/// Whether the small layers denote the field layers over the first `n`
/// layers, away from the listed positions, at every position below `len`.
pub open spec fn small_layers_denote<SV: SmallValue>(
    small: Seq<&[SV]>,
    field: Seq<&[Scalar]>,
    pos: Seq<usize>,
    n: nat,
    len: nat,
) -> bool {
    forall|i: int, k: int|
        0 <= i < n && 0 <= k < len && !pos.contains(k as usize) ==> fmod(
            (#[trigger] small[i]@[k]).int_val(),
        ) == field[i]@[k]@
}

/// The corrected final fold equals the field fold: when the small layers
/// denote the field layers away from the listed positions, each position of
/// a small fold corrected at the listed positions (as
/// [`crate::small_neutronnova::fold_final_abc_with_weights`] returns it) is
/// `sum_i weights[i] * field[i][k]`.
pub proof fn law_corrected_final_fold_matches_field_fold<SV: SmallValue>(
    out: Seq<Scalar>,
    small_fold: Seq<Scalar>,
    weights: Seq<Scalar>,
    small: Seq<&[SV]>,
    field: Seq<&[Scalar]>,
    pos: Seq<usize>,
    len: nat,
)
    requires
        is_small_fold(small_fold, weights, small, weights.len(), len),
        is_corrected(out, small_fold, pos, len, weights, field),
        small_layers_denote(small, field, pos, weights.len(), len),
    ensures
        out.len() == len,
        forall|k: int|
            0 <= k < len ==> (#[trigger] out[k])@ == fmod(
                field_column_dot(weights, field, k, weights.len()),
            ),
{
    assert forall|k: int| 0 <= k < len implies (#[trigger] out[k])@ == fmod(
        field_column_dot(weights, field, k, weights.len()),
    ) by {
        if !pos.contains(k as usize) {
            assert forall|i: int| 0 <= i < weights.len() implies fmod(
                (#[trigger] small[i])@[k].int_val(),
            ) == field[i]@[k]@ by {
                assert(fmod(small[i]@[k].int_val()) == field[i]@[k]@);
            }
            lemma_column_dot_congruent(weights, small, field, k, weights.len());
            assert(out[k] == small_fold[k]);
        }
    }
}

/// A materialized prefix group equals the field fold of the group: when the
/// small layers denote the field layers away from the listed positions, each
/// position of the group's materialized layer is `sum_p weights[p] *
/// field[g * size + p][k]`.
pub proof fn law_prefix_layer_matches_field_fold<SV: SmallValue>(
    out: Seq<Scalar>,
    weights: Seq<Scalar>,
    small: Seq<&[SV]>,
    field: Seq<&[Scalar]>,
    pos: Seq<usize>,
    total: nat,
    g: int,
    size: nat,
)
    requires
        is_prefix_layer(out, weights, small, field, pos, total, g, size),
        0 <= g,
        small_layers_denote(small, field, pos, ((g + 1) * size) as nat, total),
    ensures
        forall|k: int|
            0 <= k < total ==> (#[trigger] out[k])@ == fmod(
                group_field_dot(weights, field, g * size, k, size),
            ),
{
    assert forall|k: int| 0 <= k < total implies (#[trigger] out[k])@ == fmod(
        group_field_dot(weights, field, g * size, k, size),
    ) by {
        assert(out[k]@ == prefix_value(weights, small, field, pos, total, g, size, k));
        if !pos.contains(k as usize) {
            assert forall|i: int| g * size <= i < g * size + size implies fmod(
                (#[trigger] small[i])@[k].int_val(),
            ) == field[i]@[k]@ by {
                assert(g * size + size == (g + 1) * size) by (nonlinear_arith);
                assert(0 <= g * size) by (nonlinear_arith)
                    requires
                        0 <= g,
                ;
                assert(fmod(small[i]@[k].int_val()) == field[i]@[k]@);
            }
            lemma_group_dot_congruent(weights, small, field, g * size, k, size);
        }
    }
}

// ---------------------------------------------------------------------------
// The prefix workspace layout.
// ---------------------------------------------------------------------------

/// Destination entry `(g * nc + c) * ps + p` of a transposition reads row
/// `padded_row(g * ps + p)`, column `c`, of the source.
proof fn lemma_transpose_source_of_entry(num_instances: int, nc: int, ps: int, g: int, c: int, p: int)
    requires
        nc > 0,
        ps > 0,
        g >= 0,
        0 <= c < nc,
        0 <= p < ps,
    ensures
        transpose_source_index((g * nc + c) * ps + p, num_instances, nc, ps) == padded_row(
            g * ps + p,
            num_instances,
        ) * nc + c,
{
    let chunk = nc * ps;
    let i = (g * nc + c) * ps + p;
    let rem = c * ps + p;
    assert(i == g * chunk + rem) by (nonlinear_arith)
        requires
            i == (g * nc + c) * ps + p,
            chunk == nc * ps,
            rem == c * ps + p,
    ;
    assert(0 <= rem < chunk) by (nonlinear_arith)
        requires
            rem == c * ps + p,
            chunk == nc * ps,
            0 <= c < nc,
            0 <= p < ps,
    ;
    vstd::arithmetic::div_mod::lemma_fundamental_div_mod_converse(i, chunk, g, rem);
    vstd::arithmetic::div_mod::lemma_fundamental_div_mod_converse(rem, ps, c, p);
}

/// `sum_{q < n} w[q] * dest[base + q]` equals the column sum of the padded
/// rows `g * ps .. g * ps + n` at column `c`, when `dest` is the
/// transposition of the source rows.
proof fn lemma_transposed_run_dot<SV: SmallValue>(
    weights: Seq<Scalar>,
    source: Seq<SV>,
    dest: Seq<SV>,
    layers: Seq<&[SV]>,
    num_instances: int,
    nc: int,
    ps: int,
    g: int,
    c: int,
    n: nat,
)
    requires
        nc > 0,
        ps > 0,
        g >= 0,
        0 <= c < nc,
        n <= ps,
        g * ps + ps <= layers.len(),
        forall|p: int|
            0 <= p < n ==> #[trigger] dest[(g * nc + c) * ps + p] == source[transpose_source_index(
                (g * nc + c) * ps + p,
                num_instances,
                nc,
                ps,
            )],
        forall|p: int|
            0 <= p < n ==> (#[trigger] layers[g * ps + p])@[c] == source[padded_row(
                g * ps + p,
                num_instances,
            ) * nc + c],
    ensures
        run_dot(weights, 0, dest, (g * nc + c) * ps, n) == column_dot(
            weights,
            layers.subrange(g * ps, g * ps + ps),
            c,
            n,
        ),
    decreases n,
{
    if n > 0 {
        let p = n - 1;
        lemma_transposed_run_dot(weights, source, dest, layers, num_instances, nc, ps, g, c, p as nat);
        lemma_transpose_source_of_entry(num_instances, nc, ps, g, c, p);
        assert(dest[(g * nc + c) * ps + p] == source[padded_row(g * ps + p, num_instances) * nc + c]);
        assert(layers.subrange(g * ps, g * ps + ps)[p] == layers[g * ps + p]);
    }
}

/// The prefix workspace is a transposition of the padded instance rows, so
/// folding it by prefix weights agrees with folding the padded rows: when
/// `dest` holds the transposition that
/// [`crate::small_neutronnova_workspace::PrefixWorkspace::transpose_table`]
/// writes for `groups` suffix groups, and `layers[l]` is the padded source
/// row `padded_row(l)`, then for every group `g` and constraint `c` the
/// prefix-weighted sum of the workspace slice (as
/// [`crate::small_neutronnova_workspace::fold_prefix_workspace_table`]
/// computes it) equals the prefix-weighted column sum of the group's rows (as
/// [`crate::small_neutronnova_workspace::fold_small_layers_by_prefix`]
/// computes it).
pub proof fn law_workspace_fold_matches_layer_fold<SV: SmallValue>(
    weights: Seq<Scalar>,
    source: Seq<SV>,
    dest: Seq<SV>,
    layers: Seq<&[SV]>,
    num_instances: int,
    nc: int,
    groups: int,
    g: int,
    c: int,
)
    requires
        nc > 0,
        weights.len() > 0,
        0 <= g < groups,
        0 <= c < nc,
        num_instances > 0,
        source.len() == num_instances * nc,
        forall|i: int|
            0 <= i < groups * (nc * weights.len()) ==> #[trigger] dest[i]
                == source[transpose_source_index(i, num_instances, nc, weights.len() as int)],
        layers.len() == groups * weights.len(),
        forall|l: int|
            0 <= l < layers.len() ==> (#[trigger] layers[l])@ == source.subrange(
                padded_row(l, num_instances) * nc,
                padded_row(l, num_instances) * nc + nc,
            ),
    ensures
        run_dot(weights, 0, dest, (g * nc + c) * weights.len(), weights.len()) == column_dot(
            weights,
            layers.subrange(g * weights.len(), g * weights.len() + weights.len()),
            c,
            weights.len(),
        ),
{
    let ps = weights.len() as int;
    assert forall|p: int| 0 <= p < ps implies #[trigger] dest[(g * nc + c) * ps + p]
        == source[transpose_source_index((g * nc + c) * ps + p, num_instances, nc, ps)] by {
        let i = (g * nc + c) * ps + p;
        assert(0 <= i < groups * (nc * ps)) by (nonlinear_arith)
            requires
                i == (g * nc + c) * ps + p,
                0 <= g < groups,
                0 <= c < nc,
                0 <= p < ps,
        ;
    }
    assert forall|p: int| 0 <= p < ps implies (#[trigger] layers[g * ps + p])@[c] == source[padded_row(
        g * ps + p,
        num_instances,
    ) * nc + c] by {
        let l = g * ps + p;
        assert(0 <= l < groups * ps) by (nonlinear_arith)
            requires
                l == g * ps + p,
                0 <= g < groups,
                0 <= p < ps,
        ;
        let row = padded_row(l, num_instances);
        assert(0 <= row * nc && row * nc + nc <= num_instances * nc) by (nonlinear_arith)
            requires
                0 <= row < num_instances,
                nc > 0,
        ;
    }
    assert(g * ps + ps <= groups * ps) by (nonlinear_arith)
        requires
            0 <= g < groups,
            ps > 0,
    ;
    lemma_transposed_run_dot(weights, source, dest, layers, num_instances, nc, ps, g, c, ps as nat);
}

// ---------------------------------------------------------------------------
// Round claims from small layers.
// ---------------------------------------------------------------------------

/// No listed position lies below a total of zero.
proof fn lemma_listed_total_empty(pos: Seq<usize>, term: spec_fn(int) -> int, n: nat)
    ensures
        listed_total(pos, 0, term, n) == 0,
    decreases n,
{
    if n > 0 {
        lemma_listed_total_empty(pos, term, (n - 1) as nat);
    }
}

/// Adding the listed eq-weighted terms one by one adds the listed values to
/// the layer.
proof fn lemma_listed_total_as_layer(
    e: Seq<Scalar>,
    small: spec_fn(int) -> int,
    field: spec_fn(int) -> int,
    pos: Seq<usize>,
    left: nat,
    right: nat,
    n: nat,
)
    requires
        left > 0,
        n <= pos.len(),
        left * right <= usize::MAX,
        forall|i: int, j: int| 0 <= i < j < pos.len() ==> pos[i] < pos[j],
    ensures
        split_eq_sum(e, small, left, right) + listed_total(
            pos,
            left * right,
            eq_weighted(e, left as int, field),
            n,
        ) == split_eq_sum(e, with_listed(small, field, pos, n), left, right),
    decreases n,
{
    let total = left * right;
    if n == 0 {
        assert forall|x: int| #[trigger] with_listed(small, field, pos, 0)(x) == small(x) by {
            assert(pos.take(0).len() == 0);
            assert(!pos.take(0).contains(x as usize));
        }
        assert(with_listed(small, field, pos, 0) =~= small);
    } else {
        lemma_listed_total_as_layer(e, small, field, pos, left, right, (n - 1) as nat);
        let m = pos[n - 1];
        let prev = with_listed(small, field, pos, (n - 1) as nat);
        let cur = with_listed(small, field, pos, n);
        let tp = pos.take((n - 1) as int);
        let tc = pos.take(n as int);
        assert(tc == tp.push(m));
        assert(!tp.contains(m)) by {
            if tp.contains(m) {
                let w = choose|w: int| 0 <= w < tp.len() && tp[w] == m;
                assert(pos[w] < pos[n - 1]);
            }
        }
        assert forall|x: int| 0 <= x < right * left && x != m implies #[trigger] cur(x) == prev(x) by {
            assert(right * left == total) by (nonlinear_arith)
                requires
                    total == left * right,
            ;
            assert(x as usize != m);
            if tc.contains(x as usize) {
                let w = choose|w: int| 0 <= w < tc.len() && tc[w] == x as usize;
                assert(w < tp.len());
                assert(tp[w] == x as usize);
            }
            if tp.contains(x as usize) {
                let w = choose|w: int| 0 <= w < tp.len() && tp[w] == x as usize;
                assert(tc[w] == x as usize);
            }
        }
        lemma_split_eq_sum_update(e, prev, cur, left, right, m as int);
        assert(right * left == total) by (nonlinear_arith)
            requires
                total == left * right,
        ;
        assert(tc[n - 1] == m);
        assert(tc.contains(m));
        assert(cur(m as int) == small(m as int) + field(m as int));
        assert(prev(m as int) == small(m as int));
        let md = m as int;
        let er = e[left + md / (left as int)]@ as int;
        let el = e[md % (left as int)]@ as int;
        let f = field(md);
        assert(er * (el * f) == er * el * f) by (nonlinear_arith);
        if m < total {
            assert(eq_weighted(e, left as int, field)(md) == er * el * f);
        }
    }
}

/// The small round-0 quadratic coefficient equals the field one: when the
/// four small layers hold zero at the listed positions and denote the field
/// layers everywhere else below `left * right`, and the listed positions
/// increase, the value that [`crate::round_claims::prove_helper_small`]
/// returns is the quadratic coefficient that
/// [`crate::round_claims::prove_helper`] returns for the field layers.
pub proof fn law_small_round_quad_matches_field_quad(
    e: Seq<Scalar>,
    az1_small: Seq<i64>,
    bz1_small: Seq<i64>,
    az2_small: Seq<i64>,
    bz2_small: Seq<i64>,
    az1: Seq<Scalar>,
    bz1: Seq<Scalar>,
    az2: Seq<Scalar>,
    bz2: Seq<Scalar>,
    pos: Seq<usize>,
    left: nat,
    right: nat,
)
    requires
        left * right <= usize::MAX,
        forall|i: int, j: int| 0 <= i < j < pos.len() ==> pos[i] < pos[j],
        forall|k: int|
            0 <= k < left * right ==> if pos.contains(k as usize) {
                &&& #[trigger] az1_small[k] == 0
                &&& bz1_small[k] == 0
                &&& az2_small[k] == 0
                &&& bz2_small[k] == 0
            } else {
                &&& fmod(az1_small[k] as int) == az1[k]@
                &&& fmod(bz1_small[k] as int) == bz1[k]@
                &&& fmod(az2_small[k] as int) == az2[k]@
                &&& fmod(bz2_small[k] as int) == bz2[k]@
            },
    ensures
        fmod(
            split_eq_sum(
                e,
                small_diff_product_vals(az1_small, bz1_small, az2_small, bz2_small),
                left,
                right,
            ) + listed_total(
                pos,
                left * right,
                eq_weighted(e, left as int, diff_product_vals(az1, bz1, az2, bz2)),
                pos.len(),
            ),
        ) == split_eq_claim(e, diff_product_vals(az1, bz1, az2, bz2), left as int, right as int),
{
    let small = small_diff_product_vals(az1_small, bz1_small, az2_small, bz2_small);
    let field = diff_product_vals(az1, bz1, az2, bz2);
    if left == 0 {
        lemma_split_eq_sum_zero_width(e, small, right);
        lemma_split_eq_sum_zero_width(e, field, right);
        lemma_listed_total_empty(pos, eq_weighted(e, left as int, field), pos.len());
    } else {
        let g = with_listed(small, field, pos, pos.len());
        lemma_listed_total_as_layer(e, small, field, pos, left, right, pos.len());
        assert(pos.take(pos.len() as int) =~= pos);
        assert forall|x: int| 0 <= x < right * left implies fmod(#[trigger] g(x)) == fmod(field(x)) by {
            assert(right * left == left * right) by (nonlinear_arith);
            if pos.contains(x as usize) {
                assert(az1_small[x] == 0 && bz1_small[x] == 0 && az2_small[x] == 0 && bz2_small[x] == 0);
                assert(small(x) == (az2_small[x] - az1_small[x]) * (bz2_small[x] - bz1_small[x]));
                assert(small(x) == 0) by (nonlinear_arith)
                    requires
                        small(x) == (az2_small[x] - az1_small[x]) * (bz2_small[x] - bz1_small[x]),
                        az1_small[x] == 0,
                        bz1_small[x] == 0,
                        az2_small[x] == 0,
                        bz2_small[x] == 0,
                ;
            } else {
                let m = field_modulus() as int;
                let a1 = az1_small[x] as int;
                let b1 = bz1_small[x] as int;
                let a2 = az2_small[x] as int;
                let b2 = bz2_small[x] as int;
                assert(fmod(a1) == az1[x]@);
                vstd::arithmetic::div_mod::lemma_sub_mod_noop(a2, a1, m);
                vstd::arithmetic::div_mod::lemma_sub_mod_noop(b2, b1, m);
                vstd::arithmetic::div_mod::lemma_sub_mod_noop(az2[x]@ as int, az1[x]@ as int, m);
                vstd::arithmetic::div_mod::lemma_sub_mod_noop(bz2[x]@ as int, bz1[x]@ as int, m);
                vstd::arithmetic::div_mod::lemma_small_mod(az1[x]@, field_modulus());
                vstd::arithmetic::div_mod::lemma_small_mod(bz1[x]@, field_modulus());
                vstd::arithmetic::div_mod::lemma_small_mod(az2[x]@, field_modulus());
                vstd::arithmetic::div_mod::lemma_small_mod(bz2[x]@, field_modulus());
                vstd::arithmetic::div_mod::lemma_mul_mod_noop(a2 - a1, b2 - b1, m);
                vstd::arithmetic::div_mod::lemma_mul_mod_noop(
                    az2[x]@ - az1[x]@,
                    bz2[x]@ - bz1[x]@,
                    m,
                );
            }
        }
        lemma_split_eq_sum_congruent(e, g, field, left, right);
    }
}

/// `a * p(k) + b * q(k) + c * s(k)` at each position.
pub open spec fn combine3_vals(
    a: int,
    p: spec_fn(int) -> int,
    b: int,
    q: spec_fn(int) -> int,
    c: int,
    s: spec_fn(int) -> int,
) -> spec_fn(int) -> int {
    |k: int| a * p(k) + b * q(k) + c * s(k)
}

/// Row sums are linear.
proof fn lemma_row_sum_combine3(
    e: Seq<Scalar>,
    a: int,
    p: spec_fn(int) -> int,
    b: int,
    q: spec_fn(int) -> int,
    c: int,
    s: spec_fn(int) -> int,
    base: int,
    n: nat,
)
    ensures
        row_sum(e, combine3_vals(a, p, b, q, c, s), base, n) == a * row_sum(e, p, base, n) + b
            * row_sum(e, q, base, n) + c * row_sum(e, s, base, n),
    decreases n,
{
    if n > 0 {
        lemma_row_sum_combine3(e, a, p, b, q, c, s, base, (n - 1) as nat);
        let x = base + n - 1;
        let w = e[n - 1]@ as int;
        let (px, qx, sx) = (p(x), q(x), s(x));
        let (rp, rq, rs) = (
            row_sum(e, p, base, (n - 1) as nat),
            row_sum(e, q, base, (n - 1) as nat),
            row_sum(e, s, base, (n - 1) as nat),
        );
        lemma_scaled_step(w, a, px, b, qx, c, sx, rp, rq, rs);
    }
}

/// Split equality sums are linear.
proof fn lemma_split_eq_sum_combine3(
    e: Seq<Scalar>,
    a: int,
    p: spec_fn(int) -> int,
    b: int,
    q: spec_fn(int) -> int,
    c: int,
    s: spec_fn(int) -> int,
    left: nat,
    rows: nat,
)
    ensures
        split_eq_sum(e, combine3_vals(a, p, b, q, c, s), left, rows) == a * split_eq_sum(
            e,
            p,
            left,
            rows,
        ) + b * split_eq_sum(e, q, left, rows) + c * split_eq_sum(e, s, left, rows),
    decreases rows,
{
    if rows > 0 {
        let r = (rows - 1) as nat;
        lemma_split_eq_sum_combine3(e, a, p, b, q, c, s, left, r);
        let base = (r * left) as int;
        lemma_row_sum_combine3(e, a, p, b, q, c, s, base, left);
        let w = e[left + rows - 1]@ as int;
        let (sp, sq, ss) = (
            split_eq_sum(e, p, left, r),
            split_eq_sum(e, q, left, r),
            split_eq_sum(e, s, left, r),
        );
        let (rp, rq, rs) = (
            row_sum(e, p, base, left),
            row_sum(e, q, base, left),
            row_sum(e, s, base, left),
        );
        lemma_scaled_step(w, a, rp, b, rq, c, rs, sp, sq, ss);
    }
}

/// The bilinear expansion of a product of two folds: `((1 - r) u0 + r u1) *
/// ((1 - r) v0 + r v1) = (1 - r)^2 u0 v0 + (1 - r) r (u0 v1 + u1 v0) + r^2
/// u1 v1`.
proof fn lemma_fold_product_expansion(r: int, u0: int, u1: int, v0: int, v1: int)
    ensures
        ((1 - r) * u0 + r * u1) * ((1 - r) * v0 + r * v1) == (1 - r) * (1 - r) * (u0 * v0) + (1 - r)
            * r * (u0 * v1 + u1 * v0) + r * r * (u1 * v1),
{
    let t = 1 - r;
    let l = t * u0 + r * u1;
    let m = t * v0 + r * v1;
    vstd::arithmetic::mul::lemma_mul_is_distributive_add_other_way(m, t * u0, r * u1);
    vstd::arithmetic::mul::lemma_mul_is_distributive_add(t * u0, t * v0, r * v1);
    vstd::arithmetic::mul::lemma_mul_is_distributive_add(r * u1, t * v0, r * v1);
    lemma_mul4(t, u0, t, v0);
    lemma_mul4(t, u0, r, v1);
    lemma_mul4(r, u1, t, v0);
    lemma_mul4(r, u1, r, v1);
    vstd::arithmetic::mul::lemma_mul_is_commutative(r, t);
    vstd::arithmetic::mul::lemma_mul_is_distributive_add(t * r, u0 * v1, u1 * v0);
}

/// `(a * b) * (c * d) == (a * c) * (b * d)`.
proof fn lemma_mul4(a: int, b: int, c: int, d: int)
    ensures
        (a * b) * (c * d) == (a * c) * (b * d),
{
    vstd::arithmetic::mul::lemma_mul_is_associative(a, b, c * d);
    vstd::arithmetic::mul::lemma_mul_is_associative(b, c, d);
    vstd::arithmetic::mul::lemma_mul_is_commutative(b, c);
    vstd::arithmetic::mul::lemma_mul_is_associative(c, b, d);
    vstd::arithmetic::mul::lemma_mul_is_associative(a, c, b * d);
}

/// One step of a weighted sum of three linear combinations:
/// `w * (a x + b y + c z) + (a p + b q + c s) == a (p + w x) + b (q + w y) + c
/// (s + w z)`.
proof fn lemma_scaled_step(w: int, a: int, x: int, b: int, y: int, c: int, z: int, p: int, q: int, s: int)
    ensures
        w * (a * x + b * y + c * z) + (a * p + b * q + c * s) == a * (p + w * x) + b * (q + w * y) + c
            * (s + w * z),
{
    vstd::arithmetic::mul::lemma_mul_is_distributive_add(w, a * x + b * y, c * z);
    vstd::arithmetic::mul::lemma_mul_is_distributive_add(w, a * x, b * y);
    lemma_swap_factor(w, a, x);
    lemma_swap_factor(w, b, y);
    lemma_swap_factor(w, c, z);
    vstd::arithmetic::mul::lemma_mul_is_distributive_add(a, p, w * x);
    vstd::arithmetic::mul::lemma_mul_is_distributive_add(b, q, w * y);
    vstd::arithmetic::mul::lemma_mul_is_distributive_add(c, s, w * z);
}

/// `w * (a * x) == a * (w * x)`.
proof fn lemma_swap_factor(w: int, a: int, x: int)
    ensures
        w * (a * x) == a * (w * x),
{
    vstd::arithmetic::mul::lemma_mul_is_associative(w, a, x);
    vstd::arithmetic::mul::lemma_mul_is_commutative(w, a);
    vstd::arithmetic::mul::lemma_mul_is_associative(a, w, x);
}

/// The bilinear combination of small layer sums, corrected at the listed
/// positions by the folded field products, is the split equality claim of
/// the folded field products.
proof fn lemma_bilinear_round(
    e: Seq<Scalar>,
    x0: spec_fn(int) -> int,
    x1: spec_fn(int) -> int,
    y0: spec_fn(int) -> int,
    y1: spec_fn(int) -> int,
    u0: spec_fn(int) -> int,
    u1: spec_fn(int) -> int,
    v0: spec_fn(int) -> int,
    v1: spec_fn(int) -> int,
    c00: nat,
    c01: nat,
    c11: nat,
    r: int,
    pos: Seq<usize>,
    left: nat,
    right: nat,
)
    requires
        left * right <= usize::MAX,
        forall|i: int, j: int| 0 <= i < j < pos.len() ==> pos[i] < pos[j],
        fmod(c00 as int) == fmod((1 - r) * (1 - r)),
        fmod(c01 as int) == fmod((1 - r) * r),
        fmod(c11 as int) == fmod(r * r),
        forall|k: int|
            0 <= k < left * right ==> if pos.contains(k as usize) {
                &&& #[trigger] x0(k) == 0
                &&& x1(k) == 0
                &&& y0(k) == 0
                &&& y1(k) == 0
            } else {
                &&& fmod(x0(k)) == fmod(u0(k))
                &&& fmod(x1(k)) == fmod(u1(k))
                &&& fmod(y0(k)) == fmod(v0(k))
                &&& fmod(y1(k)) == fmod(v1(k))
            },
    ensures
        fmod(
            c00 * split_eq_sum(e, prod_vals(x0, y0), left, right) + c01 * split_eq_sum(
                e,
                cross_vals(x0, x1, y0, y1),
                left,
                right,
            ) + c11 * split_eq_sum(e, prod_vals(x1, y1), left, right) + listed_total(
                pos,
                left * right,
                eq_weighted(e, left as int, prod_vals(fold_vals(r, u0, u1), fold_vals(r, v0, v1))),
                pos.len(),
            ),
        ) == fmod(
            split_eq_sum(e, prod_vals(fold_vals(r, u0, u1), fold_vals(r, v0, v1)), left, right),
        ),
{
    let f = prod_vals(fold_vals(r, u0, u1), fold_vals(r, v0, v1));
    let p00 = prod_vals(x0, y0);
    let p01 = cross_vals(x0, x1, y0, y1);
    let p11 = prod_vals(x1, y1);
    let w = combine3_vals(c00 as int, p00, c01 as int, p01, c11 as int, p11);
    lemma_split_eq_sum_combine3(e, c00 as int, p00, c01 as int, p01, c11 as int, p11, left, right);
    if left == 0 {
        lemma_split_eq_sum_zero_width(e, p00, right);
        lemma_split_eq_sum_zero_width(e, p01, right);
        lemma_split_eq_sum_zero_width(e, p11, right);
        lemma_split_eq_sum_zero_width(e, f, right);
        lemma_listed_total_empty(pos, eq_weighted(e, left as int, f), pos.len());
    } else {
        let g = with_listed(w, f, pos, pos.len());
        lemma_listed_total_as_layer(e, w, f, pos, left, right, pos.len());
        assert(pos.take(pos.len() as int) =~= pos);
        assert forall|k: int| 0 <= k < right * left implies fmod(#[trigger] g(k)) == fmod(f(k)) by {
            assert(right * left == left * right) by (nonlinear_arith);
            assert(x0(k) == 0 || fmod(x0(k)) == fmod(u0(k)));
            if pos.contains(k as usize) {
                assert(w(k) == c00 * (x0(k) * y0(k)) + c01 * (x0(k) * y1(k) + x1(k) * y0(k)) + c11
                    * (x1(k) * y1(k)));
                assert(w(k) == 0) by (nonlinear_arith)
                    requires
                        w(k) == c00 * (x0(k) * y0(k)) + c01 * (x0(k) * y1(k) + x1(k) * y0(k)) + c11 * (
                        x1(k) * y1(k)),
                        x0(k) == 0,
                        x1(k) == 0,
                        y0(k) == 0,
                        y1(k) == 0,
                ;
            } else {
                let (a0, a1, b0, b1) = (x0(k), x1(k), y0(k), y1(k));
                let (ua, ub, va, vb) = (u0(k), u1(k), v0(k), v1(k));
                lemma_mul_cong(a0, b0, ua, va);
                lemma_mul_cong(a0, b1, ua, vb);
                lemma_mul_cong(a1, b0, ub, va);
                lemma_mul_cong(a1, b1, ub, vb);
                lemma_add_cong(a0 * b1, a1 * b0, ua * vb, ub * va);
                lemma_mul_cong(c00 as int, a0 * b0, (1 - r) * (1 - r), ua * va);
                lemma_mul_cong(c01 as int, a0 * b1 + a1 * b0, (1 - r) * r, ua * vb + ub * va);
                lemma_mul_cong(c11 as int, a1 * b1, r * r, ub * vb);
                lemma_add_cong(
                    c00 * (a0 * b0),
                    c01 * (a0 * b1 + a1 * b0),
                    (1 - r) * (1 - r) * (ua * va),
                    (1 - r) * r * (ua * vb + ub * va),
                );
                lemma_add_cong(
                    c00 * (a0 * b0) + c01 * (a0 * b1 + a1 * b0),
                    c11 * (a1 * b1),
                    (1 - r) * (1 - r) * (ua * va) + (1 - r) * r * (ua * vb + ub * va),
                    r * r * (ub * vb),
                );
                lemma_fold_product_expansion(r, ua, ub, va, vb);
                assert(f(k) == ((1 - r) * ua + r * ub) * ((1 - r) * va + r * vb));
                assert(!pos.take(pos.len() as int).contains(k as usize));
                assert(g(k) == w(k));
            }
        }
        lemma_split_eq_sum_congruent(e, g, f, left, right);
    }
}

/// Round 1 from small layers equals round 1 on the folded field layers:
/// when `c00`, `c01` and `c11` are `(1 - r0)^2`, `(1 - r0) r0` and `r0^2` in
/// the field, the four small `A` and `B` layers hold zero at the listed
/// positions and denote the field layers everywhere else below `left *
/// right`, and the listed positions increase, then the `e0` and `quad` that
/// [`crate::round_claims::prove_helper_ab_cross`] returns are the claims of
/// [`crate::round_claims::prove_helper_ab_only`] on the field layers folded
/// at `r0`: `e0` of `A_lo * B_lo` and `quad` of `(A_hi - A_lo) * (B_hi -
/// B_lo)`.
pub proof fn law_cross_round_matches_folded_field_round(
    e: Seq<Scalar>,
    a_small: [&[i64]; 4],
    b_small: [&[i64]; 4],
    a_field: [&[Scalar]; 4],
    b_field: [&[Scalar]; 4],
    c00: nat,
    c01: nat,
    c11: nat,
    r0: nat,
    pos: Seq<usize>,
    left: nat,
    right: nat,
)
    requires
        left * right <= usize::MAX,
        c00 < field_modulus(),
        c01 < field_modulus(),
        c11 < field_modulus(),
        c00 == fmod((1 - r0) * (1 - r0)),
        c01 == fmod((1 - r0) * r0),
        c11 == fmod((r0 * r0) as int),
        forall|i: int, j: int| 0 <= i < j < pos.len() ==> pos[i] < pos[j],
        forall|t: int, k: int|
            0 <= t < 4 && 0 <= k < left * right ==> if pos.contains(k as usize) {
                (#[trigger] a_small@[t]@[k]) == 0 && b_small@[t]@[k] == 0
            } else {
                fmod(a_small@[t]@[k] as int) == a_field@[t]@[k]@ && fmod(b_small@[t]@[k] as int)
                    == b_field@[t]@[k]@
            },
    ensures
        ({
            let sa = |t: int| i64_vals(a_small@[t]@);
            let sb = |t: int| i64_vals(b_small@[t]@);
            let fa = |t: int| field_vals(a_field@[t]@);
            let fb = |t: int| field_vals(b_field@[t]@);
            let a_lo = fold_vals(r0 as int, fa(0), fa(1));
            let a_hi = fold_vals(r0 as int, fa(2), fa(3));
            let b_lo = fold_vals(r0 as int, fb(0), fb(1));
            let b_hi = fold_vals(r0 as int, fb(2), fb(3));
            let da0 = diff_vals(sa(2), sa(0));
            let da1 = diff_vals(sa(3), sa(1));
            let db0 = diff_vals(sb(2), sb(0));
            let db1 = diff_vals(sb(3), sb(1));
            let s = |v: spec_fn(int) -> int| split_eq_sum(e, v, left, right);
            &&& fmod(
                c00 * s(prod_vals(sa(0), sb(0))) + c01 * s(cross_vals(sa(0), sa(1), sb(0), sb(1)))
                    + c11 * s(prod_vals(sa(1), sb(1))) + listed_total(
                    pos,
                    left * right,
                    eq_weighted(e, left as int, prod_vals(a_lo, b_lo)),
                    pos.len(),
                ),
            ) == split_eq_claim(e, prod_vals(a_lo, b_lo), left as int, right as int)
            &&& fmod(
                c00 * s(prod_vals(da0, db0)) + c01 * s(cross_vals(da0, da1, db0, db1)) + c11 * s(
                    prod_vals(da1, db1),
                ) + listed_total(
                    pos,
                    left * right,
                    eq_weighted(
                        e,
                        left as int,
                        prod_vals(diff_vals(a_hi, a_lo), diff_vals(b_hi, b_lo)),
                    ),
                    pos.len(),
                ),
            ) == split_eq_claim(
                e,
                prod_vals(diff_vals(a_hi, a_lo), diff_vals(b_hi, b_lo)),
                left as int,
                right as int,
            )
        }),
{
    let r = r0 as int;
    let sa = |t: int| i64_vals(a_small@[t]@);
    let sb = |t: int| i64_vals(b_small@[t]@);
    let fa = |t: int| field_vals(a_field@[t]@);
    let fb = |t: int| field_vals(b_field@[t]@);
    vstd::arithmetic::div_mod::lemma_small_mod(c00, field_modulus());
    vstd::arithmetic::div_mod::lemma_small_mod(c01, field_modulus());
    vstd::arithmetic::div_mod::lemma_small_mod(c11, field_modulus());
    // e0: the folds of layers 0 and 1.
    assert forall|k: int| 0 <= k < left * right implies if pos.contains(k as usize) {
        &&& #[trigger] sa(0)(k) == 0
        &&& sa(1)(k) == 0
        &&& sb(0)(k) == 0
        &&& sb(1)(k) == 0
    } else {
        &&& fmod(sa(0)(k)) == fmod(fa(0)(k))
        &&& fmod(sa(1)(k)) == fmod(fa(1)(k))
        &&& fmod(sb(0)(k)) == fmod(fb(0)(k))
        &&& fmod(sb(1)(k)) == fmod(fb(1)(k))
    } by {
        vstd::arithmetic::div_mod::lemma_small_mod(a_field@[0]@[k]@, field_modulus());
        vstd::arithmetic::div_mod::lemma_small_mod(a_field@[1]@[k]@, field_modulus());
        vstd::arithmetic::div_mod::lemma_small_mod(b_field@[0]@[k]@, field_modulus());
        vstd::arithmetic::div_mod::lemma_small_mod(b_field@[1]@[k]@, field_modulus());
    }
    lemma_bilinear_round(
        e,
        sa(0),
        sa(1),
        sb(0),
        sb(1),
        fa(0),
        fa(1),
        fb(0),
        fb(1),
        c00,
        c01,
        c11,
        r,
        pos,
        left,
        right,
    );
    // quad: the folds of the differences of layers 2 and 0, 3 and 1.
    let da0 = diff_vals(sa(2), sa(0));
    let da1 = diff_vals(sa(3), sa(1));
    let db0 = diff_vals(sb(2), sb(0));
    let db1 = diff_vals(sb(3), sb(1));
    let ua0 = diff_vals(fa(2), fa(0));
    let ua1 = diff_vals(fa(3), fa(1));
    let vb0 = diff_vals(fb(2), fb(0));
    let vb1 = diff_vals(fb(3), fb(1));
    assert forall|k: int| 0 <= k < left * right implies if pos.contains(k as usize) {
        &&& #[trigger] da0(k) == 0
        &&& da1(k) == 0
        &&& db0(k) == 0
        &&& db1(k) == 0
    } else {
        &&& fmod(da0(k)) == fmod(ua0(k))
        &&& fmod(da1(k)) == fmod(ua1(k))
        &&& fmod(db0(k)) == fmod(vb0(k))
        &&& fmod(db1(k)) == fmod(vb1(k))
    } by {
        if !pos.contains(k as usize) {
            vstd::arithmetic::div_mod::lemma_small_mod(a_field@[0]@[k]@, field_modulus());
            vstd::arithmetic::div_mod::lemma_small_mod(a_field@[1]@[k]@, field_modulus());
            vstd::arithmetic::div_mod::lemma_small_mod(a_field@[2]@[k]@, field_modulus());
            vstd::arithmetic::div_mod::lemma_small_mod(a_field@[3]@[k]@, field_modulus());
            vstd::arithmetic::div_mod::lemma_small_mod(b_field@[0]@[k]@, field_modulus());
            vstd::arithmetic::div_mod::lemma_small_mod(b_field@[1]@[k]@, field_modulus());
            vstd::arithmetic::div_mod::lemma_small_mod(b_field@[2]@[k]@, field_modulus());
            vstd::arithmetic::div_mod::lemma_small_mod(b_field@[3]@[k]@, field_modulus());
            lemma_sub_cong(sa(2)(k), sa(0)(k), fa(2)(k), fa(0)(k));
            lemma_sub_cong(sa(3)(k), sa(1)(k), fa(3)(k), fa(1)(k));
            lemma_sub_cong(sb(2)(k), sb(0)(k), fb(2)(k), fb(0)(k));
            lemma_sub_cong(sb(3)(k), sb(1)(k), fb(3)(k), fb(1)(k));
        }
    }
    lemma_bilinear_round(e, da0, da1, db0, db1, ua0, ua1, vb0, vb1, c00, c01, c11, r, pos, left, right);
    let a_lo = fold_vals(r, fa(0), fa(1));
    let a_hi = fold_vals(r, fa(2), fa(3));
    let b_lo = fold_vals(r, fb(0), fb(1));
    let b_hi = fold_vals(r, fb(2), fb(3));
    assert forall|k: int| #[trigger] diff_vals(a_hi, a_lo)(k) == fold_vals(r, ua0, ua1)(k) by {
        let (x0, x1, x2, x3) = (fa(0)(k), fa(1)(k), fa(2)(k), fa(3)(k));
        assert((1 - r) * x2 + r * x3 - ((1 - r) * x0 + r * x1) == (1 - r) * (x2 - x0) + r * (x3 - x1))
            by (nonlinear_arith);
    }
    assert forall|k: int| #[trigger] diff_vals(b_hi, b_lo)(k) == fold_vals(r, vb0, vb1)(k) by {
        let (x0, x1, x2, x3) = (fb(0)(k), fb(1)(k), fb(2)(k), fb(3)(k));
        assert((1 - r) * x2 + r * x3 - ((1 - r) * x0 + r * x1) == (1 - r) * (x2 - x0) + r * (x3 - x1))
            by (nonlinear_arith);
    }
    assert(diff_vals(a_hi, a_lo) =~= fold_vals(r, ua0, ua1));
    assert(diff_vals(b_hi, b_lo) =~= fold_vals(r, vb0, vb1));
}

// ---------------------------------------------------------------------------
// Folding by prefix, then by suffix.
// ---------------------------------------------------------------------------

/// `sum_{p < m} w[a + p] * layers[a + p][k]` over the integers.
pub open spec fn block_field_dot(w: Seq<Scalar>, layers: Seq<&[Scalar]>, a: int, k: int, m: nat) -> int
    decreases m,
{
    if m == 0 {
        0
    } else {
        block_field_dot(w, layers, a, k, (m - 1) as nat) + w[a + m - 1]@ * layers[a + m - 1]@[k]@
    }
}

/// A column sum over `a + m` layers is the sum over the first `a` plus the
/// block of the next `m`.
proof fn lemma_column_dot_block(w: Seq<Scalar>, layers: Seq<&[Scalar]>, k: int, a: nat, m: nat)
    ensures
        field_column_dot(w, layers, k, a + m) == field_column_dot(w, layers, k, a) + block_field_dot(
            w,
            layers,
            a as int,
            k,
            m,
        ),
    decreases m,
{
    if m > 0 {
        lemma_column_dot_block(w, layers, k, a, (m - 1) as nat);
        assert((a + m - 1) as nat == a + (m - 1));
    }
}

/// A block weighted by `pw[p] * s` is `s` times the group sum weighted by
/// `pw`, in the field.
proof fn lemma_block_product_weights(
    pw: Seq<Scalar>,
    s: nat,
    fw: Seq<Scalar>,
    layers: Seq<&[Scalar]>,
    a: int,
    k: int,
    m: nat,
)
    requires
        forall|p: int| 0 <= p < m ==> (#[trigger] fw[a + p])@ == fmod((pw[p]@ * s) as int),
    ensures
        fmod(block_field_dot(fw, layers, a, k, m)) == fmod(s * group_field_dot(pw, layers, a, k, m)),
    decreases m,
{
    if m > 0 {
        let p = m - 1;
        lemma_block_product_weights(pw, s, fw, layers, a, k, p as nat);
        let x = layers[a + p]@[k]@ as int;
        let wp = pw[p]@ as int;
        let b = block_field_dot(fw, layers, a, k, p as nat);
        let g = group_field_dot(pw, layers, a, k, p as nat);
        assert(fw[a + p]@ == fmod(wp * s));
        vstd::arithmetic::div_mod::lemma_small_mod(fw[a + p]@, field_modulus());
        lemma_mul_cong(fw[a + p]@ as int, x, wp * s, x);
        lemma_add_cong(b, fw[a + p]@ * x, s * g, wp * s * x);
        vstd::arithmetic::mul::lemma_mul_is_distributive_add(s as int, g, wp * x);
        vstd::arithmetic::mul::lemma_mul_is_associative(wp, s as int, x);
        vstd::arithmetic::mul::lemma_mul_is_commutative(wp, s as int);
        vstd::arithmetic::mul::lemma_mul_is_associative(s as int, wp, x);
    }
}

/// The fold of the first `n` prefix groups by the suffix weights is the fold
/// of their layers by the product weights, in the field.
proof fn lemma_prefix_then_suffix(
    pw: Seq<Scalar>,
    sw: Seq<Scalar>,
    fw: Seq<Scalar>,
    field: Seq<&[Scalar]>,
    groups: Seq<Vec<Scalar>>,
    k: int,
    n: nat,
)
    requires
        n <= sw.len(),
        forall|g: int, p: int|
            0 <= g < sw.len() && 0 <= p < pw.len() ==> (#[trigger] fw[g * pw.len() + p])@ == fmod(
                (pw[p]@ * sw[g]@) as int,
            ),
        forall|g: int|
            0 <= g < sw.len() ==> (#[trigger] groups[g])@[k]@ == fmod(
                group_field_dot(pw, field, g * pw.len(), k, pw.len()),
            ),
    ensures
        fmod(field_vec_column_dot(sw, 0, groups, 0, k, n)) == fmod(
            field_column_dot(fw, field, k, n * pw.len()),
        ),
    decreases n,
{
    let ps = pw.len();
    if n == 0 {
        assert(n * ps == 0) by (nonlinear_arith)
            requires
                n == 0,
        ;
    } else {
        let g = n - 1;
        lemma_prefix_then_suffix(pw, sw, fw, field, groups, k, g as nat);
        let a = g * ps;
        assert(n * ps == a + ps) by (nonlinear_arith)
            requires
                g == n - 1,
                a == g * ps,
        ;
        assert(a >= 0) by (nonlinear_arith)
            requires
                g >= 0,
                a == g * ps,
        ;
        lemma_column_dot_block(fw, field, k, a as nat, ps);
        assert forall|p: int| 0 <= p < ps implies (#[trigger] fw[a + p])@ == fmod((pw[p]@ * sw[g]@) as int) by {
            assert(fw[g * ps + p]@ == fmod((pw[p]@ * sw[g]@) as int));
        }
        lemma_block_product_weights(pw, sw[g]@, fw, field, a, k, ps);
        let gd = group_field_dot(pw, field, a, k, ps);
        let y = groups[g]@[k]@ as int;
        assert(y == fmod(gd));
        vstd::arithmetic::div_mod::lemma_mod_twice(gd, field_modulus() as int);
        lemma_mul_cong(sw[g]@ as int, y, sw[g]@ as int, gd);
        lemma_add_cong(
            field_vec_column_dot(sw, 0, groups, 0, k, g as nat),
            sw[g]@ * y,
            field_column_dot(fw, field, k, a as nat),
            block_field_dot(fw, field, a, k, ps),
        );
    }
}

/// Folding by prefix groups, then by suffix weights, is the final fold with
/// the product weights: when `fw[g * ps + p] = pw[p] * sw[g]` in the field
/// and each group layer holds `sum_p pw[p] * field[g * ps + p][k]` at `k` (as
/// [`crate::small_neutronnova::materialize_prefix_abc_with_c_claims`]
/// materializes it, [`law_prefix_layer_matches_field_fold`]), then the
/// suffix fold of the group layers (as
/// [`crate::small_neutronnova::fold_field_layers_with_weights`] computes it)
/// is `sum_i fw[i] * field[i][k]` (the final fold of
/// [`law_corrected_final_fold_matches_field_fold`]).
pub proof fn law_prefix_then_suffix_fold_is_final_fold(
    pw: Seq<Scalar>,
    sw: Seq<Scalar>,
    fw: Seq<Scalar>,
    field: Seq<&[Scalar]>,
    groups: Seq<Vec<Scalar>>,
    k: int,
)
    requires
        fw.len() == sw.len() * pw.len(),
        forall|g: int, p: int|
            0 <= g < sw.len() && 0 <= p < pw.len() ==> (#[trigger] fw[g * pw.len() + p])@ == fmod(
                (pw[p]@ * sw[g]@) as int,
            ),
        forall|g: int|
            0 <= g < sw.len() ==> (#[trigger] groups[g])@[k]@ == fmod(
                group_field_dot(pw, field, g * pw.len(), k, pw.len()),
            ),
    ensures
        fmod(field_vec_column_dot(sw, 0, groups, 0, k, sw.len())) == fmod(
            field_column_dot(fw, field, k, fw.len()),
        ),
{
    lemma_prefix_then_suffix(pw, sw, fw, field, groups, k, sw.len());
}

// ---------------------------------------------------------------------------
// Claims fold as their layers do.
// ---------------------------------------------------------------------------

/// The split equality claim of a folded layer is the fold of the two claims:
/// when `out` is `lo` folded with `hi` at `r` (as
/// [`crate::neutronnova_zk::fold_layer_pair_into`] leaves it) over the first
/// `left * right` positions, the claim of `out` (as
/// [`crate::small_c::dot_field_layer_with_split_eq`] computes it) is
/// `claim(lo) + r * (claim(hi) - claim(lo))` (as
/// [`crate::neutronnova_zk::fold_c_claim_pair_into`] folds claims). So a
/// `C` claim can be folded in place of its layer.
pub proof fn law_claim_of_folded_layer_is_folded_claim(
    e: Seq<Scalar>,
    lo: Seq<Scalar>,
    hi: Seq<Scalar>,
    out: Seq<Scalar>,
    r: nat,
    left: nat,
    right: nat,
)
    requires
        is_folded_layer(out, lo, hi, r),
        left * right <= lo.len(),
        left * right <= hi.len(),
    ensures
        fmod(split_eq_sum(e, field_vals(out), left, right)) == fold_value(
            fmod(split_eq_sum(e, field_vals(lo), left, right)),
            fmod(split_eq_sum(e, field_vals(hi), left, right)),
            r,
        ),
{
    let combo = combine3_vals(1, field_vals(lo), r as int, field_vals(hi), -r, field_vals(lo));
    lemma_split_eq_sum_combine3(
        e,
        1,
        field_vals(lo),
        r as int,
        field_vals(hi),
        -r,
        field_vals(lo),
        left,
        right,
    );
    assert forall|k: int| 0 <= k < right * left implies fmod(#[trigger] field_vals(out)(k)) == fmod(
        combo(k),
    ) by {
        assert(right * left == left * right) by (nonlinear_arith);
        let (a, b) = (lo[k]@ as int, hi[k]@ as int);
        assert(out[k]@ == fold_value(lo[k]@, hi[k]@, r));
        vstd::arithmetic::div_mod::lemma_small_mod(out[k]@, field_modulus());
        vstd::arithmetic::mul::lemma_mul_is_distributive_sub(r as int, b, a);
        vstd::arithmetic::mul::lemma_mul_unary_negation(r as int, a);
        assert(combo(k) == 1 * a + r * b + (-r) * a);
        assert(1 * a == a);
    }
    lemma_split_eq_sum_congruent(e, field_vals(out), combo, left, right);
    let sl = split_eq_sum(e, field_vals(lo), left, right);
    let sh = split_eq_sum(e, field_vals(hi), left, right);
    vstd::arithmetic::mul::lemma_mul_is_distributive_sub(r as int, sh, sl);
    vstd::arithmetic::mul::lemma_mul_unary_negation(r as int, sl);
    assert(1 * sl == sl);
    lemma_sub_cong(fmod(sh) as int, fmod(sl) as int, sh, sl);
    vstd::arithmetic::div_mod::lemma_mod_twice(sh, field_modulus() as int);
    vstd::arithmetic::div_mod::lemma_mod_twice(sl, field_modulus() as int);
    lemma_mul_cong(r as int, fmod(sh) - fmod(sl), r as int, sh - sl);
    lemma_add_cong(fmod(sl) as int, r * (fmod(sh) - fmod(sl)), sl, r * (sh - sl));
}

/// The residual claim of a pair is the product claim minus the `C` claim:
/// `claim(A * B - C) = claim(A * B) - claim(C)` in the field.
proof fn lemma_residual_claim(e: Seq<Scalar>, a: Seq<Scalar>, b: Seq<Scalar>, c: Seq<Scalar>, left: int, right: int)
    ensures
        split_eq_claim(e, abc_residual_vals(a, b, c), left, right) == fmod(
            split_eq_claim(e, ab_product_vals(a, b), left, right) - split_eq_claim(
                e,
                field_vals(c),
                left,
                right,
            ),
        ),
{
    let (l, rows) = (left as nat, right as nat);
    let ab = ab_product_vals(a, b);
    let cv = field_vals(c);
    let combo = combine3_vals(1, ab, -1, cv, 0, cv);
    lemma_split_eq_sum_combine3(e, 1, ab, -1, cv, 0, cv, l, rows);
    assert forall|k: int| #[trigger] abc_residual_vals(a, b, c)(k) == combo(k) by {
        assert(combo(k) == 1 * ab(k) + (-1) * cv(k) + 0 * cv(k));
    }
    assert(abc_residual_vals(a, b, c) =~= combo);
    let sab = split_eq_sum(e, ab, l, rows);
    let sc = split_eq_sum(e, cv, l, rows);
    assert(split_eq_sum(e, combo, l, rows) == 1 * sab + (-1) * sc + 0 * sc);
    vstd::arithmetic::div_mod::lemma_mod_twice(sab, field_modulus() as int);
    vstd::arithmetic::div_mod::lemma_mod_twice(sc, field_modulus() as int);
    lemma_sub_cong(fmod(sab) as int, fmod(sc) as int, sab, sc);
}

/// A round with scalar `C` claims gives the same claims as the round with
/// the materialized `C` layers: after round 0, when each even-indexed claim
/// is the split equality claim of its `C` layer, the `e0` of
/// [`crate::round_claims::compute_ab_c_claim_round`] equals that of
/// [`crate::round_claims::compute_field_round_claim`] (and both compute the
/// same `quad`).
pub proof fn law_claim_round_matches_materialized_round(
    a: Seq<Vec<Scalar>>,
    b: Seq<Vec<Scalar>>,
    c: Seq<Vec<Scalar>>,
    c_claims: Seq<Scalar>,
    e: Seq<Scalar>,
    left: int,
    right: int,
    rhos: Seq<Scalar>,
    round: int,
    n: nat,
)
    requires
        round != 0,
        forall|p: int|
            0 <= p < n ==> (#[trigger] c_claims[2 * p])@ == split_eq_claim(
                e,
                field_vals(c[2 * p]@),
                left,
                right,
            ),
    ensures
        field_round_e0(a, b, c, e, left, right, rhos, round, n) == claim_round_e0(
            a,
            b,
            c_claims,
            e,
            left,
            right,
            rhos,
            round,
            n,
        ),
    decreases n,
{
    if n > 0 {
        let p = n - 1;
        law_claim_round_matches_materialized_round(a, b, c, c_claims, e, left, right, rhos, round, p as nat);
        lemma_residual_claim(e, a[2 * p]@, b[2 * p]@, c[2 * p]@, left, right);
        assert(c_claims[2 * p]@ == split_eq_claim(e, field_vals(c[2 * p]@), left, right));
    }
}

/// `sum_{p < m} w[a + p] * layers[a + p][k]` over the integers, for small
/// layers.
pub open spec fn block_small_dot<SV: SmallValue>(w: Seq<Scalar>, layers: Seq<&[SV]>, a: int, k: int, m: nat) -> int
    decreases m,
{
    if m == 0 {
        0
    } else {
        block_small_dot(w, layers, a, k, (m - 1) as nat) + w[a + m - 1]@ * layers[a + m - 1]@[k].int_val()
    }
}

/// A small column sum over `a + m` layers is the sum over the first `a`
/// plus the block of the next `m`.
proof fn lemma_small_column_dot_block<SV: SmallValue>(w: Seq<Scalar>, layers: Seq<&[SV]>, k: int, a: nat, m: nat)
    ensures
        column_dot(w, layers, k, a + m) == column_dot(w, layers, k, a) + block_small_dot(
            w,
            layers,
            a as int,
            k,
            m,
        ),
    decreases m,
{
    if m > 0 {
        lemma_small_column_dot_block(w, layers, k, a, (m - 1) as nat);
        assert((a + m - 1) as nat == a + (m - 1));
    }
}

/// The weighted sum of one transposed slice, with the weights of its suffix
/// group, is the block of the group's padded rows.
proof fn lemma_transposed_block<SV: SmallValue>(
    weights: Seq<Scalar>,
    source: Seq<SV>,
    dest: Seq<SV>,
    layers: Seq<&[SV]>,
    num_instances: int,
    nc: int,
    ps: int,
    g: int,
    c: int,
    n: nat,
)
    requires
        nc > 0,
        ps > 0,
        g >= 0,
        0 <= c < nc,
        n <= ps,
        forall|p: int|
            0 <= p < n ==> #[trigger] dest[(g * nc + c) * ps + p] == source[transpose_source_index(
                (g * nc + c) * ps + p,
                num_instances,
                nc,
                ps,
            )],
        forall|p: int|
            0 <= p < n ==> (#[trigger] layers[g * ps + p])@[c] == source[padded_row(
                g * ps + p,
                num_instances,
            ) * nc + c],
    ensures
        run_dot(weights, g * ps, dest, (g * nc + c) * ps, n) == block_small_dot(
            weights,
            layers,
            g * ps,
            c,
            n,
        ),
    decreases n,
{
    if n > 0 {
        let p = n - 1;
        lemma_transposed_block(weights, source, dest, layers, num_instances, nc, ps, g, c, p as nat);
        lemma_transpose_source_of_entry(num_instances, nc, ps, g, c, p);
        assert(dest[(g * nc + c) * ps + p] == source[padded_row(g * ps + p, num_instances) * nc + c]);
    }
}

/// The final fold of a prefix workspace agrees with the final fold of the
/// padded rows: when `dest` holds the transposition that
/// [`crate::small_neutronnova_workspace::PrefixWorkspace::transpose_table`]
/// writes for `groups` suffix groups and `layers[l]` is the padded source
/// row `padded_row(l)`, the sum over all suffix groups and prefix slots that
/// [`crate::small_neutronnova_workspace::fold_prefix_workspace_final_table`]
/// computes for constraint `c` is the weighted column sum over all padded
/// rows that [`crate::small_neutronnova_workspace::fold_small_value_vectors`]
/// computes.
pub proof fn law_workspace_final_fold_matches_layer_fold<SV: SmallValue>(
    weights: Seq<Scalar>,
    source: Seq<SV>,
    dest: Seq<SV>,
    layers: Seq<&[SV]>,
    num_instances: int,
    nc: int,
    ps: int,
    groups: nat,
    c: int,
)
    requires
        nc > 0,
        ps > 0,
        0 <= c < nc,
        num_instances > 0,
        source.len() == num_instances * nc,
        forall|i: int|
            0 <= i < groups * (nc * ps) ==> #[trigger] dest[i] == source[transpose_source_index(
                i,
                num_instances,
                nc,
                ps,
            )],
        layers.len() == groups * ps,
        forall|l: int|
            0 <= l < layers.len() ==> (#[trigger] layers[l])@ == source.subrange(
                padded_row(l, num_instances) * nc,
                padded_row(l, num_instances) * nc + nc,
            ),
    ensures
        final_table_dot(weights, dest, nc, ps, c, groups) == column_dot(weights, layers, c, groups * ps as nat),
    decreases groups,
{
    if groups > 0 {
        let g = groups - 1;
        assert forall|i: int| 0 <= i < g * (nc * ps) implies #[trigger] dest[i] == source[transpose_source_index(
            i,
            num_instances,
            nc,
            ps,
        )] by {
            assert(g * (nc * ps) <= groups * (nc * ps)) by (nonlinear_arith)
                requires
                    g == groups - 1,
                    nc > 0,
                    ps > 0,
            ;
        }
        assert(nc * ps > 0) by (nonlinear_arith)
            requires
                nc > 0,
                ps > 0,
        ;
        let prev = layers.subrange(0, g * ps);
        assert(g * ps <= layers.len()) by (nonlinear_arith)
            requires
                g == groups - 1,
                layers.len() == groups * ps,
                ps > 0,
        ;
        law_workspace_final_fold_matches_layer_fold(
            weights,
            source,
            dest,
            prev,
            num_instances,
            nc,
            ps,
            g as nat,
            c,
        );
        lemma_column_dot_prefix(weights, prev, layers, c, (g * ps) as nat);
        assert forall|p: int| 0 <= p < ps implies #[trigger] dest[(g * nc + c) * ps + p]
            == source[transpose_source_index((g * nc + c) * ps + p, num_instances, nc, ps)] by {
            let i = (g * nc + c) * ps + p;
            assert(0 <= i < groups * (nc * ps)) by (nonlinear_arith)
                requires
                    i == (g * nc + c) * ps + p,
                    g == groups - 1,
                    groups > 0,
                    0 <= c < nc,
                    0 <= p < ps,
            ;
        }
        assert forall|p: int| 0 <= p < ps implies (#[trigger] layers[g * ps + p])@[c] == source[padded_row(
            g * ps + p,
            num_instances,
        ) * nc + c] by {
            let l = g * ps + p;
            assert(0 <= l < groups * ps) by (nonlinear_arith)
                requires
                    l == g * ps + p,
                    g == groups - 1,
                    groups > 0,
                    0 <= p < ps,
            ;
            let row = padded_row(l, num_instances);
            assert(0 <= row * nc && row * nc + nc <= num_instances * nc) by (nonlinear_arith)
                requires
                    0 <= row < num_instances,
                    nc > 0,
            ;
        }
        lemma_transposed_block(weights, source, dest, layers, num_instances, nc, ps, g, c, ps as nat);
        lemma_small_column_dot_block(weights, layers, c, (g * ps) as nat, ps as nat);
        assert(groups * ps == g * ps + ps) by (nonlinear_arith)
            requires
                g == groups - 1,
        ;
        assert((g * ps) as nat + ps as nat == groups * ps as nat);
        let gn = g as nat;
        assert(gn * (ps as nat) == (g * ps) as nat);
        assert(final_table_dot(weights, dest, nc, ps, c, groups) == final_table_dot(
            weights,
            dest,
            nc,
            ps,
            c,
            gn,
        ) + run_dot(weights, g * ps, dest, (g * nc + c) * ps, ps as nat));
        assert(final_table_dot(weights, dest, nc, ps, c, gn) == column_dot(
            weights,
            layers,
            c,
            (g * ps) as nat,
        ));
        assert(g * ps >= 0) by (nonlinear_arith)
            requires
                g >= 0,
                ps > 0,
        ;
        assert(((g * ps) as nat) as int == g * ps);
        assert(column_dot(weights, layers, c, groups * ps as nat) == column_dot(
            weights,
            layers,
            c,
            (g * ps) as nat,
        ) + block_small_dot(weights, layers, g * ps, c, ps as nat));
        assert(run_dot(weights, g * ps, dest, (g * nc + c) * ps, ps as nat) == block_small_dot(
            weights,
            layers,
            g * ps,
            c,
            ps as nat,
        ));
    } else {
        assert(groups * ps as nat == 0) by (nonlinear_arith)
            requires
                groups == 0,
        ;
    }
}

/// A column sum over the first `n` layers depends only on those layers.
proof fn lemma_column_dot_prefix<SV: SmallValue>(
    w: Seq<Scalar>,
    short: Seq<&[SV]>,
    long: Seq<&[SV]>,
    k: int,
    n: nat,
)
    requires
        n <= short.len(),
        n <= long.len(),
        forall|i: int| 0 <= i < n ==> #[trigger] short[i] == long[i],
    ensures
        column_dot(w, short, k, n) == column_dot(w, long, k, n),
    decreases n,
{
    if n > 0 {
        lemma_column_dot_prefix(w, short, long, k, (n - 1) as nat);
    }
}

// ---------------------------------------------------------------------------
// Certificates.
// ---------------------------------------------------------------------------

/// A certificate of a table is unique: two certified tables that each keep
/// the entries of `input` within `bound` and hold the zero value elsewhere,
/// with position sets that each hold exactly the entries beyond `bound`, are
/// equal, and so are their sets. So the borrowed and the owned
/// constructors
/// ([`crate::extension_bound::ExtensionBoundedPoly::try_new_with_field_positions`]
/// and
/// [`crate::extension_bound::ExtensionBoundedPoly::try_new_owned_with_field_positions`],
/// and their extension-only forms) give the same certificate of the same
/// polynomial.
pub proof fn law_certificate_is_unique<SV: SmallValue>(
    input: Seq<SV>,
    bound: int,
    out1: Seq<SV>,
    pos1: Set<usize>,
    out2: Seq<SV>,
    pos2: Set<usize>,
)
    requires
        is_zeroed_above_bound(out1, input, bound),
        is_zeroed_above_bound(out2, input, bound),
        pos1 == position_set(input.len(), |i: int| abs_int(input[i].int_val()) > bound),
        pos2 == position_set(input.len(), |i: int| abs_int(input[i].int_val()) > bound),
    ensures
        out1 == out2,
        pos1 == pos2,
{
    assert forall|i: int| 0 <= i < input.len() implies out1[i] == out2[i] by {
        assert(abs_int(input[i].int_val()) <= bound || (out1[i] == SV::zero_value() && out2[i]
            == SV::zero_value()));
    }
    assert(out1 =~= out2);
}

/// The suffix weight of round `t` for pair `k` peels off the next round: it
/// is the weight of the lowest bit of `k` at the challenge `rhos[t + 1]` of
/// round `t + 1` (`rhos[t + 1]` for bit 1, `1 - rhos[t + 1]` for bit 0),
/// times the weight of round `t + 1` for pair `k / 2`. The weight of the last
/// round, which has no later rounds, is 1.
pub proof fn law_suffix_weight_peels_next_round(rhos: Seq<Scalar>, t: int, k: nat, end: int)
    requires
        t + 1 < end,
    ensures
        suffix_weight_upto(rhos, t, k, end) == fmod(
            bit_factor(rhos[t + 1]@, k % 2) * suffix_weight_upto(rhos, t + 1, k / 2, end) as int,
        ),
        suffix_weight_upto(rhos, end - 1, k, end) == 1,
    decreases end - t,
{
    let b0 = bit_factor(rhos[t + 1]@, k % 2);
    vstd::arithmetic::power2::lemma2_to64();
    if end == t + 2 {
        assert(suffix_weight_upto(rhos, t, k, t + 1) == 1);
        assert(k / pow2(0) == k);
        assert(suffix_weight_upto(rhos, t + 1, k / 2, end) == 1);
        assert(suffix_weight_upto(rhos, t, k, end) == fmod(1 * b0));
        assert(1 * b0 == b0 * 1);
    } else {
        let s = end - 1;
        let e = (s - (t + 1)) as nat;
        law_suffix_weight_peels_next_round(rhos, t, k, s);
        let x = suffix_weight_upto(rhos, t + 1, k / 2, s) as int;
        let bit = (k / pow2(e)) % 2;
        let c = bit_factor(rhos[s]@, bit);
        // The bit of round `s` is the same read from `k` or from `k / 2`.
        vstd::arithmetic::power2::lemma_pow2_unfold(e);
        vstd::arithmetic::power2::lemma_pow2_pos((e - 1) as nat);
        vstd::arithmetic::div_mod::lemma_div_denominator(k as int, 2, pow2((e - 1) as nat) as int);
        assert(pow2(e) == 2 * pow2((e - 1) as nat));
        assert((k / 2) / pow2((e - 1) as nat) == k / pow2(e));
        assert((s - (t + 2)) as nat == (e - 1) as nat);
        assert(suffix_weight_upto(rhos, t + 1, k / 2, end) == fmod(x * c));
        assert(suffix_weight_upto(rhos, t, k, end) == fmod(
            suffix_weight_upto(rhos, t, k, s) as int * c,
        ));
        // fmod(fmod(b0 * x) * c) == fmod(b0 * fmod(x * c)).
        lemma_reduced_fixed(fmod(b0 * x));
        lemma_reduced_fixed(fmod(x * c));
        lemma_mul_cong(fmod(b0 * x) as int, c, b0 * x, c);
        lemma_mul_cong(b0, fmod(x * c) as int, b0, x * c);
        assert((b0 * x) * c == b0 * (x * c)) by (nonlinear_arith);
    }
}

} // verus!
