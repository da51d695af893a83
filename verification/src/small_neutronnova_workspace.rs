//! Prove-local tables of the small-value accumulator path: the instance-major
//! `SmallAbc` tables, their prefix-contiguous transposition `PrefixWorkspace`,
//! and the prefix/suffix fold helpers that operate on them.

use crate::dot::{column_dot, run_dot, small_column_dot, small_run_dot};
use crate::errors::{invalid_input, SpartanError};
use crate::field::{fmod, Scalar};
use crate::neutronnova_zk::{
    compacted, fold_c_claim_pair_into, fold_layer_pair_into, fold_layer_pairs, fold_value,
    is_folded_layer,
};
use crate::multilinear::MultilinearPolynomial;
use crate::small_int::SmallValue;
use vstd::arithmetic::power::pow;
use vstd::prelude::*;
use vstd::slice::slice_subrange;

verus! {

broadcast use {crate::field::lemma_scalar_lt_modulus, crate::field::lemma_fmod_range};

/// The instance row used for padded position `idx`: padding repeats row 0.
pub open spec fn padded_row(idx: int, num_instances: int) -> int {
    if idx < num_instances {
        idx
    } else {
        0
    }
}

/// Instance-major small `Az/Bz/Cz` tables: row `i` of a table holds the
/// `num_constraints` values of instance `i`.
#[derive(Clone, Debug)]
pub struct SmallAbc<SV> {
    pub l0: usize,
    pub num_instances: usize,
    pub num_constraints: usize,
    pub a: Vec<SV>,
    pub b: Vec<SV>,
    pub c: Vec<SV>,
}

impl<SV: SmallValue> SmallAbc<SV> {
    /// Row `idx` of `table`.
    pub fn row<'a>(&'a self, table: &'a [SV], idx: usize) -> (r: &'a [SV])
        requires
            (idx + 1) * self.num_constraints <= table@.len(),
        ensures
            r@ == table@.subrange(
                idx * self.num_constraints,
                idx * self.num_constraints + self.num_constraints,
            ),
    {
        let nc = self.num_constraints;
        proof {
            assert((idx + 1) * nc == idx * nc + nc) by (nonlinear_arith);
        }
        let _len = table.len();
        let start = idx * nc;
        &table[start..start + nc]
    }

    /// The row that padded instance `idx` reads; an error for an empty batch.
    pub fn padded_row_idx(&self, idx: usize) -> (r: Result<usize, SpartanError>)
        ensures
            r is Err <==> self.num_instances == 0,
            r matches Err(e) ==> e matches SpartanError::InvalidInputLength { reason } && reason@
                == "accumulator cache has no step-instance rows"@,
            r matches Ok(v) ==> v == padded_row(idx as int, self.num_instances as int),
    {
        if self.num_instances == 0 {
            return Err(invalid_input("accumulator cache has no step-instance rows"));
        }
        Ok(
            if idx < self.num_instances {
                idx
            } else {
                0
            },
        )
    }

    /// Row `idx` of the `Az` table.
    pub fn a_row(&self, idx: usize) -> (r: &[SV])
        requires
            (idx + 1) * self.num_constraints <= self.a@.len(),
        ensures
            r@ == self.a@.subrange(
                idx * self.num_constraints,
                idx * self.num_constraints + self.num_constraints,
            ),
    {
        self.row(self.a.as_slice(), idx)
    }

    /// Row `idx` of the `Bz` table.
    pub fn b_row(&self, idx: usize) -> (r: &[SV])
        requires
            (idx + 1) * self.num_constraints <= self.b@.len(),
        ensures
            r@ == self.b@.subrange(
                idx * self.num_constraints,
                idx * self.num_constraints + self.num_constraints,
            ),
    {
        self.row(self.b.as_slice(), idx)
    }

    /// Row `idx` of the `Cz` table.
    pub fn c_row(&self, idx: usize) -> (r: &[SV])
        requires
            (idx + 1) * self.num_constraints <= self.c@.len(),
        ensures
            r@ == self.c@.subrange(
                idx * self.num_constraints,
                idx * self.num_constraints + self.num_constraints,
            ),
    {
        self.row(self.c.as_slice(), idx)
    }
}

/// Prefix-contiguous view of `SmallAbc` for a partial-`l0` proof.
///
/// Each table uses the layout `suffix_group -> constraint -> prefix[0..2^l0]`,
/// so the prefix slice of one constraint in one suffix group is contiguous.
/// `ab_ext` holds products of the extended `Az` and `Bz` prefixes in the wide
/// type `Wide`.
#[derive(Clone, Debug)]
pub struct PrefixWorkspace<SV, Wide> {
    pub l0: usize,
    pub prefix_size: usize,
    pub ext_size: usize,
    pub suffix_groups: usize,
    pub num_constraints: usize,
    pub beta_indices: Vec<usize>,
    pub a: Vec<SV>,
    pub b: Vec<SV>,
    pub c: Vec<SV>,
    pub ab_ext: Vec<Wide>,
}

/// Number of complete suffix groups that a transposition writes into a
/// destination of length `len`.
pub open spec fn transposed_groups(len: int, chunk: int, suffix_groups: int) -> int {
    if len / chunk < suffix_groups {
        len / chunk
    } else {
        suffix_groups
    }
}

/// Source index of destination entry `i` of a transposition.
pub open spec fn transpose_source_index(i: int, num_instances: int, nc: int, ps: int) -> int {
    let s = i / (nc * ps);
    let c = (i % (nc * ps)) / ps;
    let p = (i % (nc * ps)) % ps;
    padded_row(s * ps + p, num_instances) * nc + c
}

proof fn lemma_transpose_index_bounds(i: int, g: int, nc: int, ps: int)
    requires
        nc > 0,
        ps > 0,
        0 <= i < g * (nc * ps),
    ensures
        0 <= i / (nc * ps) < g,
        0 <= (i % (nc * ps)) / ps < nc,
        0 <= (i % (nc * ps)) % ps < ps,
{
    let chunk = nc * ps;
    assert(nc * ps > 0) by (nonlinear_arith)
        requires
            nc > 0,
            ps > 0,
    ;
    vstd::arithmetic::div_mod::lemma_div_pos_is_pos(i, chunk);
    vstd::arithmetic::div_mod::lemma_div_is_ordered_by_denominator(i, chunk, chunk);
    if i / chunk >= g {
        vstd::arithmetic::div_mod::lemma_fundamental_div_mod(i, chunk);
        vstd::arithmetic::div_mod::lemma_mod_pos_bound(i, chunk);
        assert(i >= g * chunk) by (nonlinear_arith)
            requires
                i == chunk * (i / chunk) + i % chunk,
                i % chunk >= 0,
                i / chunk >= g,
                chunk > 0,
        ;
    }
    let rem = i % chunk;
    vstd::arithmetic::div_mod::lemma_mod_pos_bound(i, chunk);
    vstd::arithmetic::div_mod::lemma_div_pos_is_pos(rem, ps);
    vstd::arithmetic::div_mod::lemma_mod_pos_bound(rem, ps);
    vstd::arithmetic::div_mod::lemma_div_by_multiple_is_strongly_ordered(rem, chunk, nc, ps);
    assert(chunk == nc * ps);
    if rem / ps >= nc {
        vstd::arithmetic::div_mod::lemma_fundamental_div_mod(rem, ps);
        assert(rem >= nc * ps) by (nonlinear_arith)
            requires
                rem == ps * (rem / ps) + rem % ps,
                rem % ps >= 0,
                rem / ps >= nc,
                ps > 0,
        ;
    }
}

impl<SV: SmallValue, Wide> PrefixWorkspace<SV, Wide> {
    /// Transpose an instance-major table into the prefix-contiguous layout:
    /// destination entry `(s * nc + c) * ps + p` receives row
    /// `padded_row(s * ps + p)`, column `c`, of the source, for every complete
    /// suffix group `s` that fits in `dest`.
    pub fn transpose_table(
        mle_inputs: &SmallAbc<SV>,
        source: &[SV],
        dest: &mut Vec<SV>,
        prefix_size: usize,
        suffix_groups: usize,
    )
        requires
            mle_inputs.num_constraints > 0,
            prefix_size > 0,
            mle_inputs.num_constraints * prefix_size <= usize::MAX,
            old(dest)@.len() >= suffix_groups * (mle_inputs.num_constraints * prefix_size)
                || (old(dest)@.len() as int) % ((mle_inputs.num_constraints * prefix_size) as int) == 0,
            forall|i: int|
                0 <= i < transposed_groups(
                    old(dest)@.len() as int,
                    mle_inputs.num_constraints * prefix_size,
                    suffix_groups as int,
                ) * (mle_inputs.num_constraints * prefix_size) ==> #[trigger] transpose_source_index(
                    i,
                    mle_inputs.num_instances as int,
                    mle_inputs.num_constraints as int,
                    prefix_size as int,
                ) < source@.len(),
        ensures
            final(dest)@.len() == old(dest)@.len(),
            forall|i: int|
                0 <= i < final(dest)@.len() ==> #[trigger] final(dest)@[i] == if i
                    < transposed_groups(
                    old(dest)@.len() as int,
                    mle_inputs.num_constraints * prefix_size,
                    suffix_groups as int,
                ) * (mle_inputs.num_constraints * prefix_size) {
                    source@[transpose_source_index(
                        i,
                        mle_inputs.num_instances as int,
                        mle_inputs.num_constraints as int,
                        prefix_size as int,
                    )]
                } else {
                    old(dest)@[i]
                },
    {
        let nc = mle_inputs.num_constraints;
        let n = mle_inputs.num_instances;
        let ghost start = dest@;
        let len = dest.len();
        proof {
            assert(nc * prefix_size > 0) by (nonlinear_arith)
                requires
                    nc > 0,
                    prefix_size > 0,
            ;
            assert(nc * prefix_size <= len || (len as int) / ((nc * prefix_size) as int) == 0) by {
                if nc * prefix_size > len {
                    vstd::arithmetic::div_mod::lemma_basic_div(len as int, (nc * prefix_size) as int);
                }
            }
        }
        let chunk = if nc * prefix_size <= len {
            nc * prefix_size
        } else {
            proof {
                assert(nc <= nc * prefix_size) by (nonlinear_arith)
                    requires
                        prefix_size > 0,
                        nc > 0,
                ;
            }
            // No complete group fits; nothing is written.
            return;
        };
        let fit = len / chunk;
        let groups = if fit < suffix_groups {
            fit
        } else {
            suffix_groups
        };
        proof {
            vstd::arithmetic::div_mod::lemma_fundamental_div_mod(len as int, chunk as int);
            vstd::arithmetic::div_mod::lemma_mod_pos_bound(len as int, chunk as int);
            assert(groups * chunk <= len) by (nonlinear_arith)
                requires
                    groups <= fit,
                    len == chunk * fit + (len as int) % (chunk as int),
                    (len as int) % (chunk as int) >= 0,
                    chunk > 0,
            ;
        }
        let total = groups * chunk;
        let _src_len = source.len();
        let mut i: usize = 0;
        while i < total
            invariant
                i <= total,
                total == groups * chunk,
                total <= len,
                len == start.len(),
                dest@.len() == len,
                chunk == nc * prefix_size,
                chunk > 0,
                nc > 0,
                prefix_size > 0,
                n == mle_inputs.num_instances,
                nc == mle_inputs.num_constraints,
                groups == transposed_groups(start.len() as int, chunk as int, suffix_groups as int),
                source@.len() <= usize::MAX,
                forall|i: int|
                    0 <= i < groups * chunk ==> #[trigger] transpose_source_index(
                        i,
                        n as int,
                        nc as int,
                        prefix_size as int,
                    ) < source@.len(),
                forall|j: int|
                    0 <= j < i ==> #[trigger] dest@[j] == source@[transpose_source_index(
                        j,
                        n as int,
                        nc as int,
                        prefix_size as int,
                    )],
                forall|j: int| i <= j < len ==> #[trigger] dest@[j] == start[j],
            decreases total - i,
        {
            proof {
                lemma_transpose_index_bounds(i as int, groups as int, nc as int, prefix_size as int);
            }
            let s = i / chunk;
            let rem = i % chunk;
            let c = rem / prefix_size;
            let p = rem % prefix_size;
            proof {
                assert(s * prefix_size + p < groups * prefix_size) by (nonlinear_arith)
                    requires
                        s < groups,
                        p < prefix_size,
                ;
                assert(groups * prefix_size <= total) by (nonlinear_arith)
                    requires
                        total == groups * chunk,
                        chunk == nc * prefix_size,
                        nc >= 1,
                        prefix_size > 0,
                ;
            }
            let layer_idx = s * prefix_size + p;
            let row_idx = if layer_idx < n {
                layer_idx
            } else {
                0
            };
            proof {
                assert(transpose_source_index(i as int, n as int, nc as int, prefix_size as int) == row_idx
                    * nc + c);
                assert(row_idx * nc <= row_idx * nc + c) by (nonlinear_arith)
                    requires
                        c >= 0,
                ;
            }
            let v = source[row_idx * nc + c];
            dest.set(i, v);
            i = i + 1;
        }
    }
}

/// Whether `idx` has a zero among its `l0` base-3 digits.
pub open spec fn has_zero_trit(idx: nat, l0: nat) -> bool
    decreases l0,
{
    if l0 == 0 {
        false
    } else {
        idx % 3 == 0 || has_zero_trit(idx / 3, (l0 - 1) as nat)
    }
}

/// How many `k < n` have no zero among their `l0` base-3 digits.
pub open spec fn zero_free_below(n: nat, l0: nat) -> nat
    decreases n,
{
    if n == 0 {
        0
    } else {
        zero_free_below((n - 1) as nat, l0) + if has_zero_trit((n - 1) as nat, l0) {
            0nat
        } else {
            1nat
        }
    }
}

/// Below `3q`, the indices free of zero digits among `l0 + 1` digits are
/// twice those below `q` among `l0` digits: the low digit must be 1 or 2.
proof fn lemma_zero_free_below_triple(q: nat, l0: nat)
    ensures
        zero_free_below(3 * q, l0 + 1) == 2 * zero_free_below(q, l0),
    decreases q,
{
    if q > 0 {
        let p = (q - 1) as nat;
        lemma_zero_free_below_triple(p, l0);
        assert(has_zero_trit(3 * p, l0 + 1));
        assert(has_zero_trit(3 * p + 1, l0 + 1) == has_zero_trit(p, l0));
        assert(has_zero_trit(3 * p + 2, l0 + 1) == has_zero_trit(p, l0));
        assert(zero_free_below(3 * q, l0 + 1) == zero_free_below((3 * p + 2) as nat, l0 + 1) + if has_zero_trit(
            3 * p + 2,
            l0 + 1,
        ) {
            0nat
        } else {
            1nat
        });
        assert(zero_free_below((3 * p + 2) as nat, l0 + 1) == zero_free_below((3 * p + 1) as nat, l0 + 1)
            + if has_zero_trit(3 * p + 1, l0 + 1) {
            0nat
        } else {
            1nat
        });
        assert(zero_free_below((3 * p + 1) as nat, l0 + 1) == zero_free_below(3 * p, l0 + 1));
    }
}

/// Exactly `2^l0` of the `3^l0` indices have no zero digit.
proof fn lemma_zero_free_count(l0: nat)
    ensures
        zero_free_below(pow(3, l0) as nat, l0) == pow(2, l0),
    decreases l0,
{
    if l0 == 0 {
        vstd::arithmetic::power::lemma_pow0(3);
        vstd::arithmetic::power::lemma_pow0(2);
        assert(zero_free_below(0, 0) == 0);
        assert(!has_zero_trit(0, 0));
        assert(zero_free_below(1, 0) == 1);
    } else {
        let l = (l0 - 1) as nat;
        lemma_zero_free_count(l);
        vstd::arithmetic::power::lemma_pow_positive(3, l);
        reveal(pow);
        lemma_zero_free_below_triple(pow(3, l) as nat, l);
    }
}

/// The points of `U_2^l0 = {∞, 0, 1}^l0`, in base-3 index order, that have at
/// least one `∞` coordinate (digit 0): `3^l0 - 2^l0` of them.
pub fn beta_indices_with_infty(l0: usize) -> (r: Vec<usize>)
    requires
        pow(3, l0 as nat) <= usize::MAX,
    ensures
        forall|i: int, j: int| 0 <= i < j < r@.len() ==> r@[i] < r@[j],
        forall|i: int|
            0 <= i < r@.len() ==> r@[i] < pow(3, l0 as nat) && has_zero_trit(
                #[trigger] r@[i] as nat,
                l0 as nat,
            ),
        forall|k: int|
            0 <= k < pow(3, l0 as nat) && #[trigger] has_zero_trit(k as nat, l0 as nat) ==> r@.contains(
                k as usize,
            ),
        r@.len() == pow(3, l0 as nat) - pow(2, l0 as nat),
{
    let mut ext_size: usize = 1;
    let mut d: usize = 0;
    proof {
        vstd::arithmetic::power::lemma_pow0(3);
    }
    while d < l0
        invariant
            d <= l0,
            ext_size == pow(3, d as nat),
            pow(3, l0 as nat) <= usize::MAX,
        decreases l0 - d,
    {
        proof {
            vstd::arithmetic::power::lemma_pow_adds(3, d as nat, 1);
            vstd::arithmetic::power::lemma_pow1(3);
            vstd::arithmetic::power::lemma_pow_increases(3, (d + 1) as nat, l0 as nat);
        }
        ext_size = ext_size * 3;
        d = d + 1;
    }
    let mut out: Vec<usize> = Vec::new();
    let mut idx: usize = 0;
    while idx < ext_size
        invariant
            idx <= ext_size,
            ext_size == pow(3, l0 as nat),
            forall|i: int, j: int| 0 <= i < j < out@.len() ==> out@[i] < out@[j],
            forall|i: int|
                0 <= i < out@.len() ==> out@[i] < idx && has_zero_trit(
                    #[trigger] out@[i] as nat,
                    l0 as nat,
                ),
            forall|k: int|
                0 <= k < idx && #[trigger] has_zero_trit(k as nat, l0 as nat) ==> out@.contains(k as usize),
            out@.len() + zero_free_below(idx as nat, l0 as nat) == idx,
        decreases ext_size - idx,
    {
        let ghost old_out = out@;
        if has_zero_trit_exec(idx, l0) {
            out.push(idx);
        }
        proof {
            assert forall|k: int|
                0 <= k < idx + 1 && #[trigger] has_zero_trit(k as nat, l0 as nat) implies out@.contains(
                k as usize,
            ) by {
                if k < idx {
                    let w = choose|w: int| 0 <= w < old_out.len() && old_out[w] == k as usize;
                    assert(out@[w] == k as usize);
                } else {
                    assert(out@[out@.len() - 1] == idx);
                }
            }
        }
        idx = idx + 1;
    }
    proof {
        lemma_zero_free_count(l0 as nat);
    }
    out
}

/// Executable [`has_zero_trit`].
fn has_zero_trit_exec(idx: usize, l0: usize) -> (r: bool)
    ensures
        r == has_zero_trit(idx as nat, l0 as nat),
{
    let mut q = idx;
    let mut d: usize = 0;
    while d < l0
        invariant
            d <= l0,
            has_zero_trit(idx as nat, l0 as nat) == has_zero_trit(q as nat, (l0 - d) as nat),
        decreases l0 - d,
    {
        if q % 3 == 0 {
            return true;
        }
        q = q / 3;
        d = d + 1;
    }
    false
}

/// `out[j] = sum_{i < m} weights[i] * vectors[i][j]` for every column `j` of
/// the first vector, with `m` the shorter of the weight and vector counts.
pub fn fold_small_value_vectors<SV: SmallValue>(weights: &[Scalar], vectors: &[&[SV]]) -> (r: Vec<
    Scalar,
>)
    requires
        vectors@.len() > 0,
        forall|i: int|
            0 <= i < vectors@.len() && i < weights@.len() ==> vectors@[0]@.len() <= (
            #[trigger] vectors@[i])@.len(),
    ensures
        r@.len() == vectors@[0]@.len(),
        forall|j: int|
            0 <= j < r@.len() ==> (#[trigger] r@[j])@ == fmod(
                column_dot(
                    weights@,
                    vectors@,
                    j,
                    if weights@.len() < vectors@.len() {
                        weights@.len()
                    } else {
                        vectors@.len()
                    },
                ),
            ),
{
    let first: &[SV] = vectors[0];
    let dim = first.len();
    let m = if weights.len() < vectors.len() {
        weights.len()
    } else {
        vectors.len()
    };
    let mut out: Vec<Scalar> = Vec::new();
    let mut j: usize = 0;
    while j < dim
        invariant
            j <= dim,
            dim == vectors@[0]@.len(),
            m <= weights@.len(),
            m <= vectors@.len(),
            m == (if weights@.len() < vectors@.len() {
                weights@.len()
            } else {
                vectors@.len()
            }),
            forall|i: int|
                0 <= i < vectors@.len() && i < weights@.len() ==> vectors@[0]@.len() <= (
                #[trigger] vectors@[i])@.len(),
            out@.len() == j,
            forall|q: int|
                0 <= q < j ==> (#[trigger] out@[q])@ == fmod(column_dot(weights@, vectors@, q, m as nat)),
        decreases dim - j,
    {
        let v = small_column_dot(weights, vectors, j, m);
        out.push(v);
        j = j + 1;
    }
    out
}

/// Length of the shortest prefix after which every value is zero.
pub fn effective_nonzero_prefix(values: &[Scalar]) -> (r: usize)
    ensures
        r <= values@.len(),
        r > 0 ==> values@[r - 1]@ != 0,
        forall|i: int| r <= i < values@.len() ==> (#[trigger] values@[i])@ == 0,
{
    let mut k = values.len();
    while k > 0
        invariant
            k <= values@.len(),
            forall|i: int| k <= i < values@.len() ==> (#[trigger] values@[i])@ == 0,
        decreases k,
    {
        if !values[k - 1].is_zero() {
            return k;
        }
        k = k - 1;
    }
    0
}

/// Whether `r` is the length of the shortest prefix of `s` after which every
/// value is zero.
pub open spec fn is_effective_prefix(s: Seq<Scalar>, r: int) -> bool {
    &&& 0 <= r <= s.len()
    &&& r > 0 ==> s[r - 1]@ != 0
    &&& forall|i: int| r <= i < s.len() ==> (#[trigger] s[i])@ == 0
}

/// The multilinear polynomial over `values`, together with the effective
/// lengths of its low and high halves (the shortest prefixes of each half
/// after which the half is zero).
pub fn multilinear_with_effective_halves(values: Vec<Scalar>) -> (r: (
    MultilinearPolynomial<Scalar>,
    usize,
    usize,
))
    ensures
        r.0.Z@ == values@,
        is_effective_prefix(values@.subrange(0, (values@.len() / 2) as int), r.1 as int),
        is_effective_prefix(values@.subrange((values@.len() / 2) as int, values@.len() as int), r.2 as int),
{
    let half = values.len() / 2;
    let lo_eff = effective_nonzero_prefix(slice_subrange(values.as_slice(), 0, half));
    let hi_eff = effective_nonzero_prefix(slice_subrange(values.as_slice(), half, values.len()));
    (MultilinearPolynomial::new(values), lo_eff, hi_eff)
}

/// Fold the prefix slices of one constraint in two suffix groups of a
/// workspace with the prefix weights: `(A_lo, A_hi, B_lo, B_hi, C_lo, C_hi)`.
pub fn fold_prefix_workspace_pair_values<SV: SmallValue, Wide>(
    weights: &[Scalar],
    prefix_workspace: &PrefixWorkspace<SV, Wide>,
    lo_suffix: usize,
    hi_suffix: usize,
    constraint_idx: usize,
    num_constraints: usize,
) -> (r: (Scalar, Scalar, Scalar, Scalar, Scalar, Scalar))
    requires
        weights@.len() > 0,
        num_constraints > 0,
        prefix_workspace.num_constraints == num_constraints,
        prefix_workspace.prefix_size == weights@.len(),
        (lo_suffix * num_constraints + constraint_idx) * weights@.len() + weights@.len()
            <= prefix_workspace.a@.len(),
        (hi_suffix * num_constraints + constraint_idx) * weights@.len() + weights@.len()
            <= prefix_workspace.a@.len(),
        (lo_suffix * num_constraints + constraint_idx) * weights@.len() + weights@.len()
            <= prefix_workspace.b@.len(),
        (hi_suffix * num_constraints + constraint_idx) * weights@.len() + weights@.len()
            <= prefix_workspace.b@.len(),
        (lo_suffix * num_constraints + constraint_idx) * weights@.len() + weights@.len()
            <= prefix_workspace.c@.len(),
        (hi_suffix * num_constraints + constraint_idx) * weights@.len() + weights@.len()
            <= prefix_workspace.c@.len(),
    ensures
        ({
            let ps = weights@.len() as nat;
            let lo = (lo_suffix * num_constraints + constraint_idx) * ps;
            let hi = (hi_suffix * num_constraints + constraint_idx) * ps;
            &&& r.0@ == fmod(run_dot(weights@, 0, prefix_workspace.a@, lo, ps))
            &&& r.1@ == fmod(run_dot(weights@, 0, prefix_workspace.a@, hi, ps))
            &&& r.2@ == fmod(run_dot(weights@, 0, prefix_workspace.b@, lo, ps))
            &&& r.3@ == fmod(run_dot(weights@, 0, prefix_workspace.b@, hi, ps))
            &&& r.4@ == fmod(run_dot(weights@, 0, prefix_workspace.c@, lo, ps))
            &&& r.5@ == fmod(run_dot(weights@, 0, prefix_workspace.c@, hi, ps))
        }),
{
    let prefix_size = weights.len();
    let _alen = prefix_workspace.a.len();
    proof {
        lemma_block_start_fits(lo_suffix, num_constraints, constraint_idx, prefix_size);
        lemma_block_start_fits(hi_suffix, num_constraints, constraint_idx, prefix_size);
    }
    let lo_start = (lo_suffix * num_constraints + constraint_idx) * prefix_size;
    let hi_start = (hi_suffix * num_constraints + constraint_idx) * prefix_size;
    let a = prefix_workspace.a.as_slice();
    let b = prefix_workspace.b.as_slice();
    let c = prefix_workspace.c.as_slice();
    (
        small_run_dot(weights, 0, a, lo_start, prefix_size),
        small_run_dot(weights, 0, a, hi_start, prefix_size),
        small_run_dot(weights, 0, b, lo_start, prefix_size),
        small_run_dot(weights, 0, b, hi_start, prefix_size),
        small_run_dot(weights, 0, c, lo_start, prefix_size),
        small_run_dot(weights, 0, c, hi_start, prefix_size),
    )
}

/// The intermediate products of a block start stay below the block end.
proof fn lemma_block_start_fits(s: usize, nc: usize, c: usize, ps: usize)
    requires
        ps > 0,
        (s * nc + c) * ps + ps <= usize::MAX,
    ensures
        s * nc + c <= usize::MAX,
        s * nc <= usize::MAX,
{
    assert(s * nc + c <= (s * nc + c) * ps) by (nonlinear_arith)
        requires
            ps >= 1,
            s * nc + c >= 0,
    ;
    assert(s * nc >= 0) by (nonlinear_arith);
}

/// Fold every prefix row of a prefix-contiguous table with the prefix
/// weights, and group the results by `num_constraints`.
pub fn fold_prefix_workspace_table<SV: SmallValue>(
    weights: &[Scalar],
    table: &[SV],
    num_constraints: usize,
) -> (r: Vec<Vec<Scalar>>)
    requires
        weights@.len() > 0,
        num_constraints > 0,
        num_constraints * weights@.len() <= usize::MAX,
        (table@.len() as int) % ((num_constraints * weights@.len()) as int) == 0,
    ensures
        r@.len() * num_constraints * weights@.len() == table@.len(),
        forall|g: int|
            0 <= g < r@.len() ==> (#[trigger] r@[g])@.len() == num_constraints && forall|c: int|
                0 <= c < num_constraints ==> (#[trigger] r@[g]@[c])@ == fmod(
                    run_dot(
                        weights@,
                        0,
                        table@,
                        (g * num_constraints + c) * weights@.len(),
                        weights@.len() as nat,
                    ),
                ),
{
    let prefix_size = weights.len();
    let _tlen = table.len();
    proof {
        assert(num_constraints * prefix_size > 0) by (nonlinear_arith)
            requires
                num_constraints > 0,
                prefix_size > 0,
        ;
    }
    let chunk = num_constraints * prefix_size;
    let groups = table.len() / chunk;
    proof {
        vstd::arithmetic::div_mod::lemma_fundamental_div_mod(table@.len() as int, chunk as int);
    }
    let mut out: Vec<Vec<Scalar>> = Vec::new();
    let mut g: usize = 0;
    while g < groups
        invariant
            g <= groups,
            chunk == num_constraints * prefix_size,
            prefix_size == weights@.len(),
            prefix_size > 0,
            num_constraints > 0,
            table@.len() == chunk * groups,
            table@.len() <= usize::MAX,
            out@.len() == g,
            forall|h: int|
                0 <= h < g ==> (#[trigger] out@[h])@.len() == num_constraints && forall|c: int|
                    0 <= c < num_constraints ==> (#[trigger] out@[h]@[c])@ == fmod(
                        run_dot(
                            weights@,
                            0,
                            table@,
                            (h * num_constraints + c) * prefix_size,
                            prefix_size as nat,
                        ),
                    ),
        decreases groups - g,
    {
        let mut row: Vec<Scalar> = Vec::new();
        let mut c: usize = 0;
        while c < num_constraints
            invariant
                c <= num_constraints,
                g < groups,
                chunk == num_constraints * prefix_size,
                prefix_size == weights@.len(),
                prefix_size > 0,
                table@.len() == chunk * groups,
                table@.len() <= usize::MAX,
                row@.len() == c,
                forall|q: int|
                    0 <= q < c ==> (#[trigger] row@[q])@ == fmod(
                        run_dot(
                            weights@,
                            0,
                            table@,
                            (g * num_constraints + q) * prefix_size,
                            prefix_size as nat,
                        ),
                    ),
            decreases num_constraints - c,
        {
            proof {
                assert((g * num_constraints + c) * prefix_size + prefix_size <= chunk * groups)
                    by (nonlinear_arith)
                    requires
                        g < groups,
                        c < num_constraints,
                        chunk == num_constraints * prefix_size,
                        prefix_size > 0,
                ;
                lemma_block_start_fits(g, num_constraints, c, prefix_size);
            }
            let start = (g * num_constraints + c) * prefix_size;
            row.push(small_run_dot(weights, 0, table, start, prefix_size));
            c = c + 1;
        }
        out.push(row);
        g = g + 1;
    }
    proof {
        assert(out@.len() * num_constraints * weights@.len() == table@.len()) by (nonlinear_arith)
            requires
                out@.len() == groups,
                table@.len() == chunk * groups,
                chunk == num_constraints * weights@.len(),
        ;
    }
    out
}

/// Fold each group of `prefix_size` consecutive layers with the prefix
/// weights: group `s` yields [`fold_small_value_vectors`] of its layers.
pub fn fold_small_layers_by_prefix<SV: SmallValue>(
    weights: &[Scalar],
    layers: &[&[SV]],
    prefix_size: usize,
) -> (r: Vec<Vec<Scalar>>)
    requires
        prefix_size > 0,
        (layers@.len() as int) % (prefix_size as int) == 0,
        forall|g: int, i: int|
            0 <= g < (layers@.len() as int) / (prefix_size as int) && 0 <= i < prefix_size && i
                < weights@.len() ==> layers@[g * prefix_size]@.len() <= (#[trigger] layers@[g
                * prefix_size + i])@.len(),
    ensures
        r@.len() == (layers@.len() as int) / (prefix_size as int),
        forall|g: int|
            0 <= g < r@.len() ==> (#[trigger] r@[g])@.len() == layers@[g * prefix_size]@.len()
                && forall|j: int|
                0 <= j < r@[g]@.len() ==> (#[trigger] r@[g]@[j])@ == fmod(
                    column_dot(
                        weights@,
                        layers@.subrange(g * prefix_size, g * prefix_size + prefix_size),
                        j,
                        if weights@.len() < prefix_size {
                            weights@.len()
                        } else {
                            prefix_size as nat
                        },
                    ),
                ),
{
    let _llen = layers.len();
    let groups = layers.len() / prefix_size;
    proof {
        vstd::arithmetic::div_mod::lemma_fundamental_div_mod(layers@.len() as int, prefix_size as int);
    }
    let mut out: Vec<Vec<Scalar>> = Vec::new();
    let mut g: usize = 0;
    while g < groups
        invariant
            g <= groups,
            groups == (layers@.len() as int) / (prefix_size as int),
            layers@.len() == prefix_size * groups,
            layers@.len() <= usize::MAX,
            prefix_size > 0,
            forall|g: int, i: int|
                0 <= g < (layers@.len() as int) / (prefix_size as int) && 0 <= i < prefix_size && i
                    < weights@.len() ==> layers@[g * prefix_size]@.len() <= (#[trigger] layers@[g
                    * prefix_size + i])@.len(),
            out@.len() == g,
            forall|h: int|
                0 <= h < g ==> (#[trigger] out@[h])@.len() == layers@[h * prefix_size]@.len()
                    && forall|j: int|
                    0 <= j < out@[h]@.len() ==> (#[trigger] out@[h]@[j])@ == fmod(
                        column_dot(
                            weights@,
                            layers@.subrange(h * prefix_size, h * prefix_size + prefix_size),
                            j,
                            if weights@.len() < prefix_size {
                                weights@.len()
                            } else {
                                prefix_size as nat
                            },
                        ),
                    ),
        decreases groups - g,
    {
        proof {
            assert(g * prefix_size + prefix_size <= prefix_size * groups) by (nonlinear_arith)
                requires
                    g < groups,
                    prefix_size > 0,
            ;
        }
        let start = g * prefix_size;
        let group: &[&[SV]] = &layers[start..start + prefix_size];
        proof {
            assert forall|i: int|
                0 <= i < group@.len() && i < weights@.len() implies group@[0]@.len() <= (
            #[trigger] group@[i])@.len() by {
                assert(group@[i] == layers@[g * prefix_size + i]);
                assert(group@[0] == layers@[g * prefix_size]);
            }
        }
        let folded = fold_small_value_vectors(weights, group);
        out.push(folded);
        g = g + 1;
    }
    out
}

/// Fold the final prefix-contiguous table over all suffix groups:
/// `out[c] = sum_s sum_p weights[s * ps + p] * table[(s * nc + c) * ps + p]`.
pub fn fold_prefix_workspace_final_table<SV: SmallValue>(
    weights: &[Scalar],
    table: &[SV],
    num_constraints: usize,
    prefix_size: usize,
) -> (r: Vec<Scalar>)
    requires
        num_constraints > 0,
        prefix_size > 0,
        (weights@.len() as int) % (prefix_size as int) == 0,
        table@.len() == ((weights@.len() as int) / (prefix_size as int)) * num_constraints * prefix_size,
    ensures
        r@.len() == num_constraints,
        forall|c: int|
            0 <= c < num_constraints ==> (#[trigger] r@[c])@ == fmod(
                final_table_dot(
                    weights@,
                    table@,
                    num_constraints as int,
                    prefix_size as int,
                    c,
                    ((weights@.len() as int) / (prefix_size as int)) as nat,
                ),
            ),
{
    let _wlen = weights.len();
    let _tlen = table.len();
    let suffix_groups = weights.len() / prefix_size;
    proof {
        vstd::arithmetic::div_mod::lemma_fundamental_div_mod(weights@.len() as int, prefix_size as int);
    }
    let mut out: Vec<Scalar> = Vec::new();
    let mut c: usize = 0;
    while c < num_constraints
        invariant
            c <= num_constraints,
            num_constraints > 0,
            prefix_size > 0,
            suffix_groups == (weights@.len() as int) / (prefix_size as int),
            weights@.len() == prefix_size * suffix_groups,
            table@.len() == suffix_groups * num_constraints * prefix_size,
            table@.len() <= usize::MAX,
            weights@.len() <= usize::MAX,
            out@.len() == c,
            forall|q: int|
                0 <= q < c ==> (#[trigger] out@[q])@ == fmod(
                    final_table_dot(
                        weights@,
                        table@,
                        num_constraints as int,
                        prefix_size as int,
                        q,
                        suffix_groups as nat,
                    ),
                ),
        decreases num_constraints - c,
    {
        let mut acc = Scalar::zero();
        let mut s: usize = 0;
        while s < suffix_groups
            invariant
                s <= suffix_groups,
                c < num_constraints,
                prefix_size > 0,
                weights@.len() == prefix_size * suffix_groups,
                table@.len() == suffix_groups * num_constraints * prefix_size,
                table@.len() <= usize::MAX,
                weights@.len() <= usize::MAX,
                acc@ == fmod(
                    final_table_dot(
                        weights@,
                        table@,
                        num_constraints as int,
                        prefix_size as int,
                        c as int,
                        s as nat,
                    ),
                ),
            decreases suffix_groups - s,
        {
            proof {
                assert((s * num_constraints + c) * prefix_size + prefix_size <= suffix_groups
                    * num_constraints * prefix_size) by (nonlinear_arith)
                    requires
                        s < suffix_groups,
                        c < num_constraints,
                        prefix_size > 0,
                ;
                assert(s * prefix_size + prefix_size <= prefix_size * suffix_groups)
                    by (nonlinear_arith)
                    requires
                        s < suffix_groups,
                        prefix_size > 0,
                ;
                lemma_block_start_fits(s, num_constraints, c, prefix_size);
            }
            let table_base = (s * num_constraints + c) * prefix_size;
            let weight_base = s * prefix_size;
            let block = small_run_dot(weights, weight_base, table, table_base, prefix_size);
            proof {
                crate::dot::lemma_mac(
                    final_table_dot(
                        weights@,
                        table@,
                        num_constraints as int,
                        prefix_size as int,
                        c as int,
                        s as nat,
                    ),
                    1,
                    run_dot(
                        weights@,
                        weight_base as int,
                        table@,
                        table_base as int,
                        prefix_size as nat,
                    ),
                );
                vstd::arithmetic::div_mod::lemma_add_mod_noop(
                    final_table_dot(
                        weights@,
                        table@,
                        num_constraints as int,
                        prefix_size as int,
                        c as int,
                        s as nat,
                    ),
                    run_dot(
                        weights@,
                        weight_base as int,
                        table@,
                        table_base as int,
                        prefix_size as nat,
                    ),
                    crate::field::field_modulus() as int,
                );
            }
            acc = acc.add(&block);
            s = s + 1;
        }
        out.push(acc);
        c = c + 1;
    }
    out
}

/// `sum_{s < groups} sum_{p < ps} w[s * ps + p] * t[(s * nc + c) * ps + p]`.
pub open spec fn final_table_dot<SV: SmallValue>(
    w: Seq<Scalar>,
    t: Seq<SV>,
    nc: int,
    ps: int,
    c: int,
    groups: nat,
) -> int
    decreases groups,
{
    if groups == 0 {
        0
    } else {
        let s = groups - 1;
        final_table_dot(w, t, nc, ps, c, (groups - 1) as nat) + run_dot(
            w,
            s * ps,
            t,
            (s * nc + c) * ps,
            ps as nat,
        )
    }
}

/// Fold one pair of A and B layers with the same challenge.
pub fn fold_ab_pair_into(
    a_layers: &mut Vec<Vec<Scalar>>,
    b_layers: &mut Vec<Vec<Scalar>>,
    src_even: usize,
    src_odd: usize,
    dest: usize,
    r: Scalar,
)
    requires
        src_even < old(a_layers)@.len() && src_odd < old(a_layers)@.len() && dest < old(a_layers)@.len(),
        src_even < old(b_layers)@.len() && src_odd < old(b_layers)@.len() && dest < old(b_layers)@.len(),
    ensures
        final(a_layers)@.len() == old(a_layers)@.len(),
        final(b_layers)@.len() == old(b_layers)@.len(),
        src_even != src_odd ==> is_folded_layer(
            final(a_layers)@[dest as int]@,
            old(a_layers)@[src_even as int]@,
            old(a_layers)@[src_odd as int]@,
            r@,
        ),
        src_even != src_odd ==> is_folded_layer(
            final(b_layers)@[dest as int]@,
            old(b_layers)@[src_even as int]@,
            old(b_layers)@[src_odd as int]@,
            r@,
        ),
        forall|i: int|
            0 <= i < old(a_layers)@.len() && i != dest && i != src_even ==> #[trigger] final(a_layers)@[i] == old(a_layers)@[i],
        forall|i: int|
            0 <= i < old(b_layers)@.len() && i != dest && i != src_even ==> #[trigger] final(b_layers)@[i] == old(b_layers)@[i],
{
    fold_layer_pair_into(a_layers, src_even, src_odd, dest, r);
    fold_layer_pair_into(b_layers, src_even, src_odd, dest, r);
}

/// Compact folded layers: move, for each `j < prove_pairs`, the layers at
/// `4j` and `4j + 2` to `2j` and `2j + 1`.
pub fn compact_folded_layers(layers: &mut Vec<Vec<Scalar>>, prove_pairs: usize)
    requires
        prove_pairs == 0 || 4 * (prove_pairs - 1) + 2 < old(layers)@.len(),
    ensures
        final(layers)@ == compacted(old(layers)@, prove_pairs as nat),
        forall|j: int| 0 <= j < prove_pairs ==> #[trigger] final(layers)@[2 * j] == old(layers)@[4 * j],
        forall|j: int|
            0 <= j < prove_pairs ==> #[trigger] final(layers)@[2 * j + 1] == old(layers)@[4 * j + 2],
{
    crate::neutronnova_zk::compact_folded_layers(layers, prove_pairs);
}

/// [`compact_folded_layers`] on the A and B layers.
pub fn compact_folded_layers_ab(
    a_layers: &mut Vec<Vec<Scalar>>,
    b_layers: &mut Vec<Vec<Scalar>>,
    prove_pairs: usize,
)
    requires
        prove_pairs == 0 || 4 * (prove_pairs - 1) + 2 < old(a_layers)@.len(),
        prove_pairs == 0 || 4 * (prove_pairs - 1) + 2 < old(b_layers)@.len(),
    ensures
        final(a_layers)@ == compacted(old(a_layers)@, prove_pairs as nat),
        final(b_layers)@ == compacted(old(b_layers)@, prove_pairs as nat),
{
    compact_folded_layers(a_layers, prove_pairs);
    compact_folded_layers(b_layers, prove_pairs);
}

/// `values[dest] = even + r * (odd - even)` for the values at `src_even` and
/// `src_odd`.
pub fn fold_scalar_pair_into(
    values: &mut Vec<Scalar>,
    src_even: usize,
    src_odd: usize,
    dest: usize,
    r: Scalar,
)
    requires
        src_even < old(values)@.len(),
        src_odd < old(values)@.len(),
        dest < old(values)@.len(),
    ensures
        final(values)@ == old(values)@.update(dest as int, final(values)@[dest as int]),
        final(values)@[dest as int]@ == fold_value(
            old(values)@[src_even as int]@,
            old(values)@[src_odd as int]@,
            r@,
        ),
{
    fold_c_claim_pair_into(values, src_even, src_odd, dest, r);
}

/// [`compact_folded_layers`] on scalar values.
pub fn compact_folded_scalars(values: &mut Vec<Scalar>, prove_pairs: usize)
    requires
        prove_pairs == 0 || 4 * (prove_pairs - 1) + 2 < old(values)@.len(),
    ensures
        final(values)@ == compacted(old(values)@, prove_pairs as nat),
{
    crate::neutronnova_zk::compact_folded_layers(values, prove_pairs);
}

/// Fold the A and B layer pairs `(2i, 2i + 1)` into `i` for every `i < pairs`.
pub fn fold_final_ab_pairs(
    a_layers: &mut Vec<Vec<Scalar>>,
    b_layers: &mut Vec<Vec<Scalar>>,
    pairs: usize,
    r: Scalar,
)
    requires
        2 * pairs <= old(a_layers)@.len(),
        2 * pairs <= old(b_layers)@.len(),
    ensures
        final(a_layers)@.len() == old(a_layers)@.len(),
        final(b_layers)@.len() == old(b_layers)@.len(),
        forall|i: int|
            0 <= i < pairs ==> is_folded_layer(
                (#[trigger] final(a_layers)@[i])@,
                old(a_layers)@[2 * i]@,
                old(a_layers)@[2 * i + 1]@,
                r@,
            ),
        forall|i: int|
            0 <= i < pairs ==> is_folded_layer(
                (#[trigger] final(b_layers)@[i])@,
                old(b_layers)@[2 * i]@,
                old(b_layers)@[2 * i + 1]@,
                r@,
            ),
{
    fold_layer_pairs(a_layers, pairs, r);
    fold_layer_pairs(b_layers, pairs, r);
}

} // verus!
