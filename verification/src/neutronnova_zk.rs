//! Folding and validation kernels of the NeutronNova folding scheme (NIFS).
//!
//! The NIFS folds `2^ell_b` step instances pairwise, one round per bit. Each
//! round folds the layers of every pair `(2i, 2i + 1)` with the verifier
//! challenge `r`: `lo + r * (hi - lo)`.

use crate::errors::{
    decimal_text, fails_internally_with, fails_with, invalid_input, invalid_input_owned,
    is_invalid_input, text_with_number, text_with_two_numbers, SpartanError,
};
use crate::field::{fmod, lemma_fmod_range, lemma_scalar_lt_modulus, scalar_values, Scalar};
use vstd::arithmetic::power2::{lemma_pow2_unfold, pow2};
use vstd::prelude::*;

verus! {

broadcast use {lemma_scalar_lt_modulus, lemma_fmod_range};

// ---------------------------------------------------------------------------
// Specification.
// ---------------------------------------------------------------------------

/// The fold of two field values with challenge `r`: `lo + r * (hi - lo)`.
pub open spec fn fold_value(lo: nat, hi: nat, r: nat) -> nat {
    fmod(lo + r * (hi - lo))
}

/// `s` with the entries at `a` and `b` exchanged.
pub open spec fn swapped<T>(s: Seq<T>, a: int, b: int) -> Seq<T> {
    s.update(a, s[b]).update(b, s[a])
}

/// The first `j` compaction steps: step `i` moves the entries at `4i` and
/// `4i + 2` to `2i` and `2i + 1`.
pub open spec fn compacted<T>(s: Seq<T>, j: nat) -> Seq<T>
    decreases j,
{
    if j == 0 {
        s
    } else {
        let i = j - 1;
        swapped(swapped(compacted(s, i as nat), 2 * i, 4 * i), 2 * i + 1, 4 * i + 2)
    }
}

/// The fold of one layer into another: entry-wise `fold_value` over the
/// common length, the remaining entries of the low layer kept.
pub open spec fn is_folded_layer(out: Seq<Scalar>, lo: Seq<Scalar>, hi: Seq<Scalar>, r: nat) -> bool {
    &&& out.len() == lo.len()
    &&& forall|k: int|
        0 <= k < lo.len() ==> (#[trigger] out[k])@ == if k < hi.len() {
            fold_value(lo[k]@, hi[k]@, r)
        } else {
            lo[k]@
        }
}

/// The weight of a suffix bit: `1 - rho` for bit 0, `rho` for bit 1.
pub open spec fn bit_factor(rho: nat, bit: nat) -> int {
    if bit == 0 {
        1 - rho
    } else {
        rho as int
    }
}

/// `prod_{s = t+1}^{end-1} bit_factor(rhos[s], bit (s - t - 1) of k)` in the
/// field.
pub open spec fn suffix_weight_upto(rhos: Seq<Scalar>, t: int, k: nat, end: int) -> nat
    decreases end - (t + 1),
{
    if end <= t + 1 {
        1
    } else {
        let s = end - 1;
        let bit = (k / pow2((s - (t + 1)) as nat)) % 2;
        fmod(suffix_weight_upto(rhos, t, k, s) * bit_factor(rhos[s]@, bit))
    }
}

// ---------------------------------------------------------------------------
// Folding.
// ---------------------------------------------------------------------------

/// `layers[dest] = layers[src_even] + r * (layers[src_odd] - layers[src_even])`,
/// entry-wise over the common length. The even layer is taken out first, so it
/// is left empty unless it is the destination.
pub fn fold_layer_pair_into(
    layers: &mut Vec<Vec<Scalar>>,
    src_even: usize,
    src_odd: usize,
    dest: usize,
    r: Scalar,
)
    requires
        src_even < old(layers)@.len(),
        src_odd < old(layers)@.len(),
        dest < old(layers)@.len(),
    ensures
        final(layers)@.len() == old(layers)@.len(),
        is_folded_layer(
            final(layers)@[dest as int]@,
            old(layers)@[src_even as int]@,
            if src_odd == src_even {
                Seq::empty()
            } else {
                old(layers)@[src_odd as int]@
            },
            r@,
        ),
        dest != src_even ==> final(layers)@[src_even as int]@ == Seq::<Scalar>::empty(),
        forall|i: int|
            0 <= i < old(layers)@.len() && i != dest && i != src_even ==> #[trigger] final(layers)@[i] == old(layers)@[i],
{
    let ghost lo = layers@[src_even as int]@;
    let ghost hi = if src_odd == src_even {
        Seq::<Scalar>::empty()
    } else {
        layers@[src_odd as int]@
    };
    let ghost start = layers@;
    let mut folded: Vec<Scalar> = Vec::new();
    std::mem::swap(&mut folded, &mut layers[src_even]);
    assert(folded@ == lo);
    assert(layers@[src_odd as int]@ == hi);
    let n = if folded.len() < layers[src_odd].len() {
        folded.len()
    } else {
        layers[src_odd].len()
    };
    let mut k: usize = 0;
    while k < n
        invariant
            k <= n,
            n <= lo.len(),
            n <= hi.len(),
            n == lo.len() || n == hi.len(),
            src_odd < layers@.len(),
            layers@[src_odd as int]@ == hi,
            folded@.len() == lo.len(),
            forall|i: int| 0 <= i < k ==> (#[trigger] folded@[i])@ == fold_value(lo[i]@, hi[i]@, r@),
            forall|i: int| k <= i < lo.len() ==> #[trigger] folded@[i] == lo[i],
        decreases n - k,
    {
        let lo_k = folded[k];
        let diff = layers[src_odd][k].sub(&lo_k);
        let v = lo_k.add(&r.mul(&diff));
        proof {
            let m = crate::field::field_modulus() as int;
            let d = hi[k as int]@ - lo[k as int]@;
            vstd::arithmetic::div_mod::lemma_mul_mod_noop_right(r@ as int, d, m);
            vstd::arithmetic::div_mod::lemma_add_mod_noop(lo[k as int]@ as int, r@ * d, m);
            vstd::arithmetic::div_mod::lemma_mod_twice(r@ * d, m);
            vstd::arithmetic::div_mod::lemma_small_mod(lo[k as int]@, m as nat);
        }
        folded.set(k, v);
        k = k + 1;
    }
    layers[dest] = folded;
}

/// Fold one pair of A, B and C layers with the same challenge.
pub fn fold_abc_pair_into(
    a_layers: &mut Vec<Vec<Scalar>>,
    b_layers: &mut Vec<Vec<Scalar>>,
    c_layers: &mut Vec<Vec<Scalar>>,
    src_even: usize,
    src_odd: usize,
    dest: usize,
    r: Scalar,
)
    requires
        src_even < old(a_layers)@.len() && src_odd < old(a_layers)@.len() && dest < old(a_layers)@.len(),
        src_even < old(b_layers)@.len() && src_odd < old(b_layers)@.len() && dest < old(b_layers)@.len(),
        src_even < old(c_layers)@.len() && src_odd < old(c_layers)@.len() && dest < old(c_layers)@.len(),
    ensures
        final(a_layers)@.len() == old(a_layers)@.len(),
        final(b_layers)@.len() == old(b_layers)@.len(),
        final(c_layers)@.len() == old(c_layers)@.len(),
        is_folded_layer(
            final(a_layers)@[dest as int]@,
            old(a_layers)@[src_even as int]@,
            if src_odd == src_even {
                Seq::empty()
            } else {
                old(a_layers)@[src_odd as int]@
            },
            r@,
        ),
        dest != src_even ==> final(a_layers)@[src_even as int]@ == Seq::<Scalar>::empty(),
        is_folded_layer(
            final(b_layers)@[dest as int]@,
            old(b_layers)@[src_even as int]@,
            if src_odd == src_even {
                Seq::empty()
            } else {
                old(b_layers)@[src_odd as int]@
            },
            r@,
        ),
        dest != src_even ==> final(b_layers)@[src_even as int]@ == Seq::<Scalar>::empty(),
        is_folded_layer(
            final(c_layers)@[dest as int]@,
            old(c_layers)@[src_even as int]@,
            if src_odd == src_even {
                Seq::empty()
            } else {
                old(c_layers)@[src_odd as int]@
            },
            r@,
        ),
        dest != src_even ==> final(c_layers)@[src_even as int]@ == Seq::<Scalar>::empty(),
        forall|i: int|
            0 <= i < old(a_layers)@.len() && i != dest && i != src_even ==> #[trigger] final(a_layers)@[i] == old(a_layers)@[i],
        forall|i: int|
            0 <= i < old(b_layers)@.len() && i != dest && i != src_even ==> #[trigger] final(b_layers)@[i] == old(b_layers)@[i],
        forall|i: int|
            0 <= i < old(c_layers)@.len() && i != dest && i != src_even ==> #[trigger] final(c_layers)@[i] == old(c_layers)@[i],
{
    fold_layer_pair_into(a_layers, src_even, src_odd, dest, r);
    fold_layer_pair_into(b_layers, src_even, src_odd, dest, r);
    fold_layer_pair_into(c_layers, src_even, src_odd, dest, r);
}

/// Fold the layer pairs `(2i, 2i + 1)` into `i` for every `i < pairs`.
#[verifier::spinoff_prover]
pub fn fold_layer_pairs(layers: &mut Vec<Vec<Scalar>>, pairs: usize, r: Scalar)
    requires
        2 * pairs <= old(layers)@.len(),
    ensures
        final(layers)@.len() == old(layers)@.len(),
        forall|i: int|
            0 <= i < pairs ==> is_folded_layer(
                (#[trigger] final(layers)@[i])@,
                old(layers)@[2 * i]@,
                old(layers)@[2 * i + 1]@,
                r@,
            ),
        forall|i: int| 2 * pairs <= i < old(layers)@.len() ==> #[trigger] final(layers)@[i] == old(layers)@[i],
        forall|i: int|
            pairs <= i < 2 * pairs ==> if i % 2 == 0 {
                (#[trigger] final(layers)@[i])@ == Seq::<Scalar>::empty()
            } else {
                final(layers)@[i] == old(layers)@[i]
            },
{
    let ghost start = layers@;
    let _len = layers.len();
    let mut i: usize = 0;
    while i < pairs
        invariant
            i <= pairs,
            2 * pairs <= start.len(),
            start.len() <= usize::MAX,
            layers@.len() == start.len(),
            forall|j: int|
                0 <= j < i ==> is_folded_layer(
                    (#[trigger] layers@[j])@,
                    start[2 * j]@,
                    start[2 * j + 1]@,
                    r@,
                ),
            forall|j: int| 2 * i <= j < start.len() ==> #[trigger] layers@[j] == start[j],
            forall|j: int|
                i <= j < 2 * i ==> if j % 2 == 0 {
                    (#[trigger] layers@[j])@ == Seq::<Scalar>::empty()
                } else {
                    layers@[j] == start[j]
                },
        decreases pairs - i,
    {
        fold_layer_pair_into(layers, 2 * i, 2 * i + 1, i, r);
        i = i + 1;
    }
}

/// Append `additional` clones of the first value.
pub fn extend_with_first_clones<T: Clone>(values: &mut Vec<T>, additional: usize)
    requires
        additional > 0 ==> old(values)@.len() > 0,
        old(values)@.len() + additional <= usize::MAX,
    ensures
        final(values)@.len() == old(values)@.len() + additional,
        forall|i: int| 0 <= i < old(values)@.len() ==> #[trigger] final(values)@[i] == old(values)@[i],
        forall|i: int|
            old(values)@.len() <= i < final(values)@.len() ==> vstd::pervasive::cloned(
                old(values)@[0],
                #[trigger] final(values)@[i],
            ),
{
    let ghost start = values@;
    let mut k: usize = 0;
    while k < additional
        invariant
            k <= additional,
            additional > 0 ==> start.len() > 0,
            start.len() + additional <= usize::MAX,
            values@.len() == start.len() + k,
            forall|i: int| 0 <= i < start.len() ==> #[trigger] values@[i] == start[i],
            forall|i: int|
                start.len() <= i < values@.len() ==> vstd::pervasive::cloned(
                    start[0],
                    #[trigger] values@[i],
                ),
        decreases additional - k,
    {
        let c = values[0].clone();
        values.push(c);
        k = k + 1;
    }
}

/// Fold the A, B and C layer pairs `(2i, 2i + 1)` into `i` for `start <= i < end`.
#[verifier::spinoff_prover]
pub fn fold_abc_pairs_in_range(
    a_layers: &mut Vec<Vec<Scalar>>,
    b_layers: &mut Vec<Vec<Scalar>>,
    c_layers: &mut Vec<Vec<Scalar>>,
    start: usize,
    end: usize,
    r: Scalar,
)
    requires
        2 * end <= old(a_layers)@.len(),
        2 * end <= old(b_layers)@.len(),
        2 * end <= old(c_layers)@.len(),
    ensures
        final(a_layers)@.len() == old(a_layers)@.len(),
        final(b_layers)@.len() == old(b_layers)@.len(),
        final(c_layers)@.len() == old(c_layers)@.len(),
        forall|i: int|
            start <= i < end ==> is_folded_layer(
                (#[trigger] final(a_layers)@[i])@,
                old(a_layers)@[2 * i]@,
                old(a_layers)@[2 * i + 1]@,
                r@,
            ) && is_folded_layer(
                final(b_layers)@[i]@,
                old(b_layers)@[2 * i]@,
                old(b_layers)@[2 * i + 1]@,
                r@,
            ) && is_folded_layer(
                final(c_layers)@[i]@,
                old(c_layers)@[2 * i]@,
                old(c_layers)@[2 * i + 1]@,
                r@,
            ),
        forall|j: int| 2 * end <= j < old(a_layers)@.len() ==> #[trigger] final(a_layers)@[j] == old(a_layers)@[j],
        forall|j: int| 2 * end <= j < old(b_layers)@.len() ==> #[trigger] final(b_layers)@[j] == old(b_layers)@[j],
        forall|j: int| 2 * end <= j < old(c_layers)@.len() ==> #[trigger] final(c_layers)@[j] == old(c_layers)@[j],
        forall|j: int|
            0 <= j < start && j < old(a_layers)@.len() ==> #[trigger] final(a_layers)@[j] == old(a_layers)@[j],
        forall|j: int|
            0 <= j < start && j < old(b_layers)@.len() ==> #[trigger] final(b_layers)@[j] == old(b_layers)@[j],
        forall|j: int|
            0 <= j < start && j < old(c_layers)@.len() ==> #[trigger] final(c_layers)@[j] == old(c_layers)@[j],
        forall|j: int|
            end <= j < 2 * end ==> if j % 2 == 0 && j >= 2 * start {
                (#[trigger] final(a_layers)@[j])@ == Seq::<Scalar>::empty()
            } else {
                final(a_layers)@[j] == old(a_layers)@[j]
            },
        forall|j: int|
            end <= j < 2 * end ==> if j % 2 == 0 && j >= 2 * start {
                (#[trigger] final(b_layers)@[j])@ == Seq::<Scalar>::empty()
            } else {
                final(b_layers)@[j] == old(b_layers)@[j]
            },
        forall|j: int|
            end <= j < 2 * end ==> if j % 2 == 0 && j >= 2 * start {
                (#[trigger] final(c_layers)@[j])@ == Seq::<Scalar>::empty()
            } else {
                final(c_layers)@[j] == old(c_layers)@[j]
            },
{
    let ghost a0 = a_layers@;
    let ghost b0 = b_layers@;
    let ghost c0 = c_layers@;
    let _len = a_layers.len();
    let mut i = start;
    if i > end {
        return;
    }
    while i < end
        invariant
            start <= i <= end,
            2 * end <= a0.len(),
            a0.len() <= usize::MAX,
            2 * end <= b0.len(),
            2 * end <= c0.len(),
            a_layers@.len() == a0.len(),
            b_layers@.len() == b0.len(),
            c_layers@.len() == c0.len(),
            forall|j: int|
                start <= j < i ==> is_folded_layer(
                    (#[trigger] a_layers@[j])@,
                    a0[2 * j]@,
                    a0[2 * j + 1]@,
                    r@,
                ),
            forall|j: int|
                start <= j < i ==> is_folded_layer(
                    (#[trigger] b_layers@[j])@,
                    b0[2 * j]@,
                    b0[2 * j + 1]@,
                    r@,
                ),
            forall|j: int|
                start <= j < i ==> is_folded_layer(
                    (#[trigger] c_layers@[j])@,
                    c0[2 * j]@,
                    c0[2 * j + 1]@,
                    r@,
                ),
            forall|j: int| 2 * i <= j < a0.len() ==> #[trigger] a_layers@[j] == a0[j],
            forall|j: int| 2 * i <= j < b0.len() ==> #[trigger] b_layers@[j] == b0[j],
            forall|j: int| 2 * i <= j < c0.len() ==> #[trigger] c_layers@[j] == c0[j],
            forall|j: int| 0 <= j < start ==> #[trigger] a_layers@[j] == a0[j],
            forall|j: int| 0 <= j < start ==> #[trigger] b_layers@[j] == b0[j],
            forall|j: int| 0 <= j < start ==> #[trigger] c_layers@[j] == c0[j],
            forall|j: int|
                i <= j < 2 * i ==> if j % 2 == 0 && j >= 2 * start {
                    (#[trigger] a_layers@[j])@ == Seq::<Scalar>::empty()
                } else {
                    a_layers@[j] == a0[j]
                },
            forall|j: int|
                i <= j < 2 * i ==> if j % 2 == 0 && j >= 2 * start {
                    (#[trigger] b_layers@[j])@ == Seq::<Scalar>::empty()
                } else {
                    b_layers@[j] == b0[j]
                },
            forall|j: int|
                i <= j < 2 * i ==> if j % 2 == 0 && j >= 2 * start {
                    (#[trigger] c_layers@[j])@ == Seq::<Scalar>::empty()
                } else {
                    c_layers@[j] == c0[j]
                },
        decreases end - i,
    {
        fold_abc_pair_into(a_layers, b_layers, c_layers, 2 * i, 2 * i + 1, i, r);
        i = i + 1;
    }
}

/// Fold the A, B and C layer pairs `(2i, 2i + 1)` into `i` for every `i < pairs`.
#[verifier::spinoff_prover]
pub fn fold_abc_pairs(
    a_layers: &mut Vec<Vec<Scalar>>,
    b_layers: &mut Vec<Vec<Scalar>>,
    c_layers: &mut Vec<Vec<Scalar>>,
    pairs: usize,
    r: Scalar,
)
    requires
        2 * pairs <= old(a_layers)@.len(),
        2 * pairs <= old(b_layers)@.len(),
        2 * pairs <= old(c_layers)@.len(),
    ensures
        final(a_layers)@.len() == old(a_layers)@.len(),
        final(b_layers)@.len() == old(b_layers)@.len(),
        final(c_layers)@.len() == old(c_layers)@.len(),
        forall|i: int|
            0 <= i < pairs ==> is_folded_layer(
                (#[trigger] final(a_layers)@[i])@,
                old(a_layers)@[2 * i]@,
                old(a_layers)@[2 * i + 1]@,
                r@,
            ) && is_folded_layer(
                final(b_layers)@[i]@,
                old(b_layers)@[2 * i]@,
                old(b_layers)@[2 * i + 1]@,
                r@,
            ) && is_folded_layer(
                final(c_layers)@[i]@,
                old(c_layers)@[2 * i]@,
                old(c_layers)@[2 * i + 1]@,
                r@,
            ),
        forall|j: int|
            pairs <= j < 2 * pairs ==> if j % 2 == 0 {
                (#[trigger] final(a_layers)@[j])@ == Seq::<Scalar>::empty()
            } else {
                final(a_layers)@[j] == old(a_layers)@[j]
            },
        forall|j: int|
            pairs <= j < 2 * pairs ==> if j % 2 == 0 {
                (#[trigger] final(b_layers)@[j])@ == Seq::<Scalar>::empty()
            } else {
                final(b_layers)@[j] == old(b_layers)@[j]
            },
        forall|j: int|
            pairs <= j < 2 * pairs ==> if j % 2 == 0 {
                (#[trigger] final(c_layers)@[j])@ == Seq::<Scalar>::empty()
            } else {
                final(c_layers)@[j] == old(c_layers)@[j]
            },
        forall|j: int| 2 * pairs <= j < old(a_layers)@.len() ==> #[trigger] final(a_layers)@[j] == old(a_layers)@[j],
        forall|j: int| 2 * pairs <= j < old(b_layers)@.len() ==> #[trigger] final(b_layers)@[j] == old(b_layers)@[j],
        forall|j: int| 2 * pairs <= j < old(c_layers)@.len() ==> #[trigger] final(c_layers)@[j] == old(c_layers)@[j],
{
    fold_abc_pairs_in_range(a_layers, b_layers, c_layers, 0, pairs, r);
}

/// Fold layer 1 into layer 0 and layer 3 into layer 2 of a chunk of four.
pub fn fold_quad_chunk(chunk: &mut Vec<Vec<Scalar>>, r: Scalar)
    requires
        old(chunk)@.len() >= 4,
    ensures
        final(chunk)@.len() == old(chunk)@.len(),
        is_folded_layer(final(chunk)@[0]@, old(chunk)@[0]@, old(chunk)@[1]@, r@),
        is_folded_layer(final(chunk)@[2]@, old(chunk)@[2]@, old(chunk)@[3]@, r@),
        forall|i: int|
            0 <= i < old(chunk)@.len() && i != 0 && i != 2 ==> #[trigger] final(chunk)@[i] == old(chunk)@[i],
{
    fold_layer_pair_into(chunk, 0, 1, 0, r);
    fold_layer_pair_into(chunk, 2, 3, 2, r);
}

/// `std`'s `<[T]>::swap`: exchanges the entries at `a` and `b`.
#[verifier::external_body]
fn slice_swap<T>(s: &mut [T], a: usize, b: usize)
    requires
        a < old(s)@.len(),
        b < old(s)@.len(),
    ensures
        final(s)@ == swapped(old(s)@, a as int, b as int),
{
    s.swap(a, b)
}

/// After `j` compaction steps the prefix `[0, 2j)` holds the entries that
/// started at `4i` and `4i + 2`.
proof fn lemma_compacted_prefix<T>(s: Seq<T>, j: nat)
    requires
        j == 0 || 4 * (j - 1) + 2 < s.len(),
    ensures
        compacted(s, j).len() == s.len(),
        forall|i: int| 0 <= i < j ==> #[trigger] compacted(s, j)[2 * i] == s[4 * i],
        forall|i: int| 0 <= i < j ==> #[trigger] compacted(s, j)[2 * i + 1] == s[4 * i + 2],
        forall|p: int| 4 * j <= p < s.len() ==> #[trigger] compacted(s, j)[p] == s[p],
    decreases j,
{
    if j > 0 {
        let i: int = j - 1;
        lemma_compacted_prefix(s, i as nat);
        let c = compacted(s, i as nat);
        // Entries at 4i and 4i + 2 are untouched by the earlier steps.
        assert(c[4 * i] == s[4 * i]);
        assert(c[4 * i + 2] == s[4 * i + 2]);
        let c1 = swapped(c, 2 * i, 4 * i);
        let c2 = swapped(c1, 2 * i + 1, 4 * i + 2);
        assert(c2 == compacted(s, j));
        assert forall|k: int| 0 <= k < j implies #[trigger] compacted(s, j)[2 * k] == s[4 * k] by {
            if k < i {
                assert(c[2 * k] == s[4 * k]);
            }
        }
        assert forall|k: int| 0 <= k < j implies #[trigger] compacted(s, j)[2 * k + 1] == s[4 * k
            + 2] by {
            if k < i {
                assert(c[2 * k + 1] == s[4 * k + 2]);
            }
        }
    }
}

/// Move, for each `j < prove_pairs`, the layers at `4j` and `4j + 2` to `2j`
/// and `2j + 1`, by swaps.
pub fn compact_folded_layers<T>(layers: &mut Vec<T>, prove_pairs: usize)
    requires
        prove_pairs == 0 || 4 * (prove_pairs - 1) + 2 < old(layers)@.len(),
    ensures
        final(layers)@ == compacted(old(layers)@, prove_pairs as nat),
        forall|j: int| 0 <= j < prove_pairs ==> #[trigger] final(layers)@[2 * j] == old(layers)@[4 * j],
        forall|j: int|
            0 <= j < prove_pairs ==> #[trigger] final(layers)@[2 * j + 1] == old(layers)@[4 * j + 2],
{
    let ghost start = layers@;
    let _len = layers.len();
    let mut j: usize = 0;
    while j < prove_pairs
        invariant
            j <= prove_pairs,
            prove_pairs == 0 || 4 * (prove_pairs - 1) + 2 < start.len(),
            start.len() <= usize::MAX,
            layers@ == compacted(start, j as nat),
            layers@.len() == start.len(),
        decreases prove_pairs - j,
    {
        slice_swap(layers.as_mut_slice(), 2 * j, 4 * j);
        slice_swap(layers.as_mut_slice(), 2 * j + 1, 4 * j + 2);
        j = j + 1;
    }
    proof {
        lemma_compacted_prefix(start, prove_pairs as nat);
    }
}

/// `c_claims[dest] = even + r * (odd - even)` for the claims at `src_even`
/// and `src_odd`.
pub fn fold_c_claim_pair_into(
    c_claims: &mut Vec<Scalar>,
    src_even: usize,
    src_odd: usize,
    dest: usize,
    r: Scalar,
)
    requires
        src_even < old(c_claims)@.len(),
        src_odd < old(c_claims)@.len(),
        dest < old(c_claims)@.len(),
    ensures
        final(c_claims)@ == old(c_claims)@.update(dest as int, final(c_claims)@[dest as int]),
        final(c_claims)@[dest as int]@ == fold_value(
            old(c_claims)@[src_even as int]@,
            old(c_claims)@[src_odd as int]@,
            r@,
        ),
{
    let even = c_claims[src_even];
    let odd = c_claims[src_odd];
    let v = even.add(&r.mul(&odd.sub(&even)));
    proof {
        lemma_fold_value_steps(even@, odd@, r@);
    }
    c_claims.set(dest, v);
}

/// Fold the A and B layer pairs and the C claim pairs `(2i, 2i + 1)` into
/// `i` for `start <= i < end`.
#[verifier::spinoff_prover]
pub fn fold_ab_c_claim_pairs_in_range(
    a_layers: &mut Vec<Vec<Scalar>>,
    b_layers: &mut Vec<Vec<Scalar>>,
    c_claims: &mut Vec<Scalar>,
    start: usize,
    end: usize,
    r: Scalar,
)
    requires
        2 * end <= old(a_layers)@.len(),
        2 * end <= old(b_layers)@.len(),
        2 * end <= old(c_claims)@.len(),
    ensures
        final(a_layers)@.len() == old(a_layers)@.len(),
        final(b_layers)@.len() == old(b_layers)@.len(),
        final(c_claims)@.len() == old(c_claims)@.len(),
        forall|i: int|
            start <= i < end ==> is_folded_layer(
                (#[trigger] final(a_layers)@[i])@,
                old(a_layers)@[2 * i]@,
                old(a_layers)@[2 * i + 1]@,
                r@,
            ) && is_folded_layer(
                final(b_layers)@[i]@,
                old(b_layers)@[2 * i]@,
                old(b_layers)@[2 * i + 1]@,
                r@,
            ) && final(c_claims)@[i]@ == fold_value(
                old(c_claims)@[2 * i]@,
                old(c_claims)@[2 * i + 1]@,
                r@,
            ),
        forall|j: int| 2 * end <= j < old(a_layers)@.len() ==> #[trigger] final(a_layers)@[j] == old(a_layers)@[j],
        forall|j: int| 2 * end <= j < old(b_layers)@.len() ==> #[trigger] final(b_layers)@[j] == old(b_layers)@[j],
        forall|j: int| 2 * end <= j < old(c_claims)@.len() ==> #[trigger] final(c_claims)@[j] == old(c_claims)@[j],
        forall|j: int|
            0 <= j < start && j < old(a_layers)@.len() ==> #[trigger] final(a_layers)@[j] == old(a_layers)@[j],
        forall|j: int|
            0 <= j < start && j < old(b_layers)@.len() ==> #[trigger] final(b_layers)@[j] == old(b_layers)@[j],
        forall|j: int|
            0 <= j < start && j < old(c_claims)@.len() ==> #[trigger] final(c_claims)@[j] == old(c_claims)@[j],
        forall|j: int|
            end <= j < 2 * end ==> if j % 2 == 0 && j >= 2 * start {
                (#[trigger] final(a_layers)@[j])@ == Seq::<Scalar>::empty()
            } else {
                final(a_layers)@[j] == old(a_layers)@[j]
            },
        forall|j: int|
            end <= j < 2 * end ==> if j % 2 == 0 && j >= 2 * start {
                (#[trigger] final(b_layers)@[j])@ == Seq::<Scalar>::empty()
            } else {
                final(b_layers)@[j] == old(b_layers)@[j]
            },
        forall|j: int| end <= j < 2 * end ==> #[trigger] final(c_claims)@[j] == old(c_claims)@[j],
{
    let ghost a0 = a_layers@;
    let ghost b0 = b_layers@;
    let ghost c0 = c_claims@;
    let _len = a_layers.len();
    let mut i = start;
    if i > end {
        return;
    }
    while i < end
        invariant
            start <= i <= end,
            2 * end <= a0.len(),
            a0.len() <= usize::MAX,
            2 * end <= b0.len(),
            2 * end <= c0.len(),
            a_layers@.len() == a0.len(),
            b_layers@.len() == b0.len(),
            c_claims@.len() == c0.len(),
            forall|j: int|
                start <= j < i ==> is_folded_layer(
                    (#[trigger] a_layers@[j])@,
                    a0[2 * j]@,
                    a0[2 * j + 1]@,
                    r@,
                ),
            forall|j: int|
                start <= j < i ==> is_folded_layer(
                    (#[trigger] b_layers@[j])@,
                    b0[2 * j]@,
                    b0[2 * j + 1]@,
                    r@,
                ),
            forall|j: int|
                start <= j < i ==> (#[trigger] c_claims@[j])@ == fold_value(
                    c0[2 * j]@,
                    c0[2 * j + 1]@,
                    r@,
                ),
            forall|j: int| 2 * i <= j < a0.len() ==> #[trigger] a_layers@[j] == a0[j],
            forall|j: int| 2 * i <= j < b0.len() ==> #[trigger] b_layers@[j] == b0[j],
            forall|j: int| 2 * i <= j < c0.len() ==> #[trigger] c_claims@[j] == c0[j],
            forall|j: int| 0 <= j < start ==> #[trigger] a_layers@[j] == a0[j],
            forall|j: int| 0 <= j < start ==> #[trigger] b_layers@[j] == b0[j],
            forall|j: int| 0 <= j < start ==> #[trigger] c_claims@[j] == c0[j],
            forall|j: int|
                i <= j < 2 * i ==> if j % 2 == 0 && j >= 2 * start {
                    (#[trigger] a_layers@[j])@ == Seq::<Scalar>::empty()
                } else {
                    a_layers@[j] == a0[j]
                },
            forall|j: int|
                i <= j < 2 * i ==> if j % 2 == 0 && j >= 2 * start {
                    (#[trigger] b_layers@[j])@ == Seq::<Scalar>::empty()
                } else {
                    b_layers@[j] == b0[j]
                },
            forall|j: int| i <= j < 2 * i ==> #[trigger] c_claims@[j] == c0[j],
        decreases end - i,
    {
        fold_layer_pair_into(a_layers, 2 * i, 2 * i + 1, i, r);
        fold_layer_pair_into(b_layers, 2 * i, 2 * i + 1, i, r);
        fold_c_claim_pair_into(c_claims, 2 * i, 2 * i + 1, i, r);
        i = i + 1;
    }
}

/// Fold the A and B layer pairs and the C claim pairs `(2i, 2i + 1)` into
/// `i` for every `i < pairs`.
#[verifier::spinoff_prover]
pub fn fold_ab_c_claim_pairs(
    a_layers: &mut Vec<Vec<Scalar>>,
    b_layers: &mut Vec<Vec<Scalar>>,
    c_claims: &mut Vec<Scalar>,
    pairs: usize,
    r: Scalar,
)
    requires
        2 * pairs <= old(a_layers)@.len(),
        2 * pairs <= old(b_layers)@.len(),
        2 * pairs <= old(c_claims)@.len(),
    ensures
        final(a_layers)@.len() == old(a_layers)@.len(),
        final(b_layers)@.len() == old(b_layers)@.len(),
        final(c_claims)@.len() == old(c_claims)@.len(),
        forall|i: int|
            0 <= i < pairs ==> is_folded_layer(
                (#[trigger] final(a_layers)@[i])@,
                old(a_layers)@[2 * i]@,
                old(a_layers)@[2 * i + 1]@,
                r@,
            ) && is_folded_layer(
                final(b_layers)@[i]@,
                old(b_layers)@[2 * i]@,
                old(b_layers)@[2 * i + 1]@,
                r@,
            ) && final(c_claims)@[i]@ == fold_value(
                old(c_claims)@[2 * i]@,
                old(c_claims)@[2 * i + 1]@,
                r@,
            ),
        forall|j: int|
            pairs <= j < 2 * pairs ==> if j % 2 == 0 {
                (#[trigger] final(a_layers)@[j])@ == Seq::<Scalar>::empty()
            } else {
                final(a_layers)@[j] == old(a_layers)@[j]
            },
        forall|j: int|
            pairs <= j < 2 * pairs ==> if j % 2 == 0 {
                (#[trigger] final(b_layers)@[j])@ == Seq::<Scalar>::empty()
            } else {
                final(b_layers)@[j] == old(b_layers)@[j]
            },
        forall|j: int| pairs <= j < old(c_claims)@.len() ==> #[trigger] final(c_claims)@[j] == old(c_claims)@[j],
        forall|j: int| 2 * pairs <= j < old(a_layers)@.len() ==> #[trigger] final(a_layers)@[j] == old(a_layers)@[j],
        forall|j: int| 2 * pairs <= j < old(b_layers)@.len() ==> #[trigger] final(b_layers)@[j] == old(b_layers)@[j],
{
    fold_ab_c_claim_pairs_in_range(a_layers, b_layers, c_claims, 0, pairs, r);
}

/// Fold claim 1 into claim 0 and claim 3 into claim 2 of a chunk of four.
pub fn fold_quad_c_claim_chunk(chunk: &mut Vec<Scalar>, r: Scalar)
    requires
        old(chunk)@.len() >= 4,
    ensures
        final(chunk)@.len() == old(chunk)@.len(),
        final(chunk)@[0]@ == fold_value(old(chunk)@[0]@, old(chunk)@[1]@, r@),
        final(chunk)@[2]@ == fold_value(old(chunk)@[2]@, old(chunk)@[3]@, r@),
        forall|i: int|
            0 <= i < old(chunk)@.len() && i != 0 && i != 2 ==> #[trigger] final(chunk)@[i] == old(chunk)@[i],
{
    fold_c_claim_pair_into(chunk, 0, 1, 0, r);
    fold_c_claim_pair_into(chunk, 2, 3, 2, r);
}

/// [`compact_folded_layers`] on scalar claims.
pub fn compact_c_claims(claims: &mut Vec<Scalar>, prove_pairs: usize)
    requires
        prove_pairs == 0 || 4 * (prove_pairs - 1) + 2 < old(claims)@.len(),
    ensures
        final(claims)@ == compacted(old(claims)@, prove_pairs as nat),
        forall|j: int| 0 <= j < prove_pairs ==> #[trigger] final(claims)@[2 * j] == old(claims)@[4 * j],
        forall|j: int|
            0 <= j < prove_pairs ==> #[trigger] final(claims)@[2 * j + 1] == old(claims)@[4 * j + 2],
{
    compact_folded_layers(claims, prove_pairs);
}

/// The field steps of a fold compute `fold_value`.
pub proof fn lemma_fold_value_steps(lo: nat, hi: nat, r: nat)
    requires
        lo < crate::field::field_modulus(),
    ensures
        fmod(lo + fmod(r * (fmod(hi - lo) as int)) as int) == fold_value(lo, hi, r),
{
    let m = crate::field::field_modulus() as int;
    let d = hi - lo;
    vstd::arithmetic::div_mod::lemma_mul_mod_noop_right(r as int, d, m);
    vstd::arithmetic::div_mod::lemma_add_mod_noop(lo as int, r * d, m);
    vstd::arithmetic::div_mod::lemma_mod_twice(r * d, m);
    vstd::arithmetic::div_mod::lemma_small_mod(lo, m as nat);
}

// ---------------------------------------------------------------------------
// Weights and shapes.
// ---------------------------------------------------------------------------

/// The eq weight of the suffix bits of pair `pair_idx` after round `t`:
/// `prod_{s = t+1}^{ell_b-1} (bit ? rhos[s] : 1 - rhos[s])`, with the bits of
/// `pair_idx` read least significant first.
pub fn suffix_weight_full(t: usize, ell_b: usize, pair_idx: usize, rhos: &[Scalar]) -> (r: Scalar)
    requires
        ell_b <= rhos@.len(),
        t < usize::MAX,
    ensures
        r@ == suffix_weight_upto(rhos@, t as int, pair_idx as nat, ell_b as int),
{
    let one = Scalar::one();
    let mut w = Scalar::one();
    let mut k = pair_idx;
    if t + 1 >= ell_b {
        return w;
    }
    let mut s = t + 1;
    proof {
        vstd::arithmetic::power2::lemma2_to64();
        assert(pair_idx as nat / 1 == pair_idx as nat);
    }
    while s < ell_b
        invariant
            t + 1 <= s <= ell_b,
            ell_b <= rhos@.len(),
            one@ == 1,
            w@ == suffix_weight_upto(rhos@, t as int, pair_idx as nat, s as int),
            k == pair_idx as nat / pow2((s - (t + 1)) as nat),
        decreases ell_b - s,
    {
        let ghost e = (s - (t + 1)) as nat;
        let bit = k % 2;
        let factor = if bit == 0 {
            one.sub(&rhos[s])
        } else {
            rhos[s]
        };
        proof {
            let m = crate::field::field_modulus() as int;
            vstd::arithmetic::div_mod::lemma_mul_mod_noop_right(
                w@ as int,
                bit_factor(rhos@[s as int]@, bit as nat),
                m,
            );
            assert(factor@ == fmod(bit_factor(rhos@[s as int]@, bit as nat)));
        }
        w = w.mul(&factor);
        proof {
            lemma_pow2_unfold(e + 1);
            vstd::arithmetic::power2::lemma_pow2_pos(e);
            vstd::arithmetic::div_mod::lemma_div_denominator(
                pair_idx as int,
                pow2(e) as int,
                2,
            );
            vstd::arithmetic::power2::lemma_pow2_pos(e);
            assert(pow2(e + 1) == pow2(e) * 2);
        }
        k = k / 2;
        s = s + 1;
    }
    w
}

/// `(ell, left, right)` for `n` instances: `ell = ceil(log2 n)` (0 for
/// `n <= 1`), split into `ell1 = ceil(ell / 2)` and `ell2 = floor(ell / 2)`
/// with `left = 2^ell1` and `right = 2^ell2`.
pub fn compute_tensor_decomp(n: usize) -> (r: (usize, usize, usize))
    requires
        n <= usize::MAX / 2 + 1,
    ensures
        pow2(r.0 as nat) >= n,
        r.0 == 0 || pow2((r.0 - 1) as nat) < n,
        r.1 == pow2(((r.0 + 1) / 2) as nat),
        r.2 == pow2((r.0 / 2) as nat),
{
    let mut p: usize = 1;
    let mut ell: usize = 0;
    proof {
        vstd::arithmetic::power2::lemma2_to64();
    }
    while p < n
        invariant
            p == pow2(ell as nat),
            p >= 1,
            n <= usize::MAX / 2 + 1,
            ell == 0 || pow2((ell - 1) as nat) < n,
            ell <= p,
        decreases n - ell,
    {
        proof {
            lemma_pow2_unfold((ell + 1) as nat);
        }
        p = p * 2;
        ell = ell + 1;
    }
    let ell1 = ell - ell / 2;
    let ell2 = ell / 2;
    let left = pow2_usize(ell1, ell, p);
    let right = pow2_usize(ell2, ell, p);
    (ell, left, right)
}

/// `2^e` for `e <= bound_exp`, where `2^bound_exp` is known to fit.
fn pow2_usize(e: usize, bound_exp: usize, bound: usize) -> (r: usize)
    requires
        e <= bound_exp,
        bound == pow2(bound_exp as nat),
    ensures
        r == pow2(e as nat),
{
    let mut r: usize = 1;
    let mut i: usize = 0;
    proof {
        vstd::arithmetic::power2::lemma2_to64();
    }
    while i < e
        invariant
            i <= e <= bound_exp,
            r == pow2(i as nat),
            bound == pow2(bound_exp as nat),
        decreases e - i,
    {
        proof {
            lemma_pow2_unfold((i + 1) as nat);
            if ((i + 1) as nat) < bound_exp as nat {
                vstd::arithmetic::power2::lemma_pow2_strictly_increases(
                    (i + 1) as nat,
                    bound_exp as nat,
                );
            }
        }
        r = r * 2;
        i = i + 1;
    }
    r
}

// ---------------------------------------------------------------------------
// Input validation.
// ---------------------------------------------------------------------------

/// Check that the instance and witness counts both equal `num_instances`.
pub fn validate_instance_witness_counts(num_instances: usize, num_us: usize, num_ws: usize) -> (r:
    Result<(), SpartanError>)
    ensures
        r is Ok <==> num_us == num_instances && num_ws == num_instances,
        num_us != num_instances ==> fails_with(r,
            "instance count "@ + decimal_text(num_us as int) + " does not match num_instances "@
                + decimal_text(num_instances as int) + ""@,
        ),
        num_us == num_instances && num_ws != num_instances ==> fails_with(r,
            "witness count "@ + decimal_text(num_ws as int) + " does not match num_instances "@
                + decimal_text(num_instances as int) + ""@,
        ),
{
    if num_us != num_instances {
        return Err(
            invalid_input_owned(
                text_with_two_numbers(
                    "instance count ",
                    num_us,
                    " does not match num_instances ",
                    num_instances,
                    "",
                ),
            ),
        );
    }
    if num_ws != num_instances {
        return Err(
            invalid_input_owned(
                text_with_two_numbers(
                    "witness count ",
                    num_ws,
                    " does not match num_instances ",
                    num_instances,
                    "",
                ),
            ),
        );
    }
    Ok(())
}

/// Shape of one NIFS round: the split eq table, its tensor factors, the rho
/// challenges, and the round index.
#[derive(Clone, Copy)]
pub struct NifsRoundShape<'a> {
    pub e_eq: &'a [Scalar],
    pub left: usize,
    pub right: usize,
    pub rhos: &'a [Scalar],
    pub round: usize,
}

/// Whether a NIFS round shape is well formed: the round has a challenge,
/// `left * right` and `left + right` fit, and the eq table has `left + right`
/// entries.
pub open spec fn round_shape_ok(shape: NifsRoundShape) -> bool {
    &&& shape.round < shape.rhos@.len()
    &&& shape.left * shape.right <= usize::MAX
    &&& shape.left + shape.right <= usize::MAX
    &&& shape.e_eq@.len() == shape.left + shape.right
}

/// The first failed check of a round shape: the round index, then the
/// overflow of `left * right` and of `left + right`, then the length of
/// `E_eq`.
pub open spec fn shape_failure(shape: NifsRoundShape) -> Option<Seq<char>> {
    if shape.round >= shape.rhos@.len() {
        Some(
            "round "@ + decimal_text(shape.round as int) + " is out of range for "@ + decimal_text(
                shape.rhos@.len() as int,
            ) + " rho challenges"@,
        )
    } else if shape.left * shape.right > usize::MAX {
        Some("left * right overflows"@)
    } else if shape.left + shape.right > usize::MAX {
        Some("left + right overflows"@)
    } else if shape.e_eq@.len() != shape.left + shape.right {
        Some(
            "E_eq length "@ + decimal_text(shape.e_eq@.len() as int) + " does not match left + right "@
                + decimal_text(shape.left + shape.right) + ""@,
        )
    } else {
        None
    }
}

/// The failure of a layer family's length check, if any.
pub open spec fn family_failure<T>(label: Seq<char>, layers: Seq<Vec<T>>, n: int) -> Option<Seq<char>> {
    if all_layers_have_len(layers, n) {
        None
    } else {
        Some("all "@ + label + " layers must have length "@ + decimal_text(n) + ""@)
    }
}

/// The first failed check of a round with materialized C layers, in the
/// order of [`validate_materialized_c_round_inputs`].
pub open spec fn materialized_round_failure(
    shape: NifsRoundShape,
    a: Seq<Vec<Scalar>>,
    b: Seq<Vec<Scalar>>,
    c: Seq<Vec<Scalar>>,
) -> Option<Seq<char>> {
    if a.len() != b.len() || a.len() != c.len() {
        Some("A/B/C layer counts do not match"@)
    } else if a.len() == 0 || a.len() % 2 != 0 {
        Some("round claim layer count must be non-empty and even"@)
    } else if shape_failure(shape) is Some {
        shape_failure(shape)
    } else if family_failure("A"@, a, shape.left * shape.right) is Some {
        family_failure("A"@, a, shape.left * shape.right)
    } else if family_failure("B"@, b, shape.left * shape.right) is Some {
        family_failure("B"@, b, shape.left * shape.right)
    } else {
        family_failure("C"@, c, shape.left * shape.right)
    }
}

/// The first failed check of a fold whose C values are scalar claims.
pub open spec fn scalar_fold_failure(a: Seq<Vec<Scalar>>, b: Seq<Vec<Scalar>>, c: Seq<Scalar>) -> Option<
    Seq<char>,
> {
    if a.len() != b.len() || a.len() != c.len() {
        Some("A/B layer and C-claim counts do not match"@)
    } else if a.len() == 0 || a.len() % 2 != 0 {
        Some("suffix layer count must be non-empty and even"@)
    } else {
        None
    }
}

/// The first failed check of a round whose C values are scalar claims, in
/// the order of [`validate_scalar_c_round_inputs`].
pub open spec fn scalar_round_failure(
    shape: NifsRoundShape,
    a: Seq<Vec<Scalar>>,
    b: Seq<Vec<Scalar>>,
    c: Seq<Scalar>,
) -> Option<Seq<char>> {
    if scalar_fold_failure(a, b, c) is Some {
        scalar_fold_failure(a, b, c)
    } else if shape_failure(shape) is Some {
        shape_failure(shape)
    } else if family_failure("A"@, a, shape.left * shape.right) is Some {
        family_failure("A"@, a, shape.left * shape.right)
    } else {
        family_failure("B"@, b, shape.left * shape.right)
    }
}

/// Whether `r` is `Ok` when there is no failure, and fails with the message
/// of the failure otherwise.
pub open spec fn reports<T>(r: Result<T, SpartanError>, failure: Option<Seq<char>>) -> bool {
    match failure {
        None => r is Ok,
        Some(m) => fails_with(r, m),
    }
}

impl<'a> NifsRoundShape<'a> {
    /// The length every layer of the round must have, `left * right`, after
    /// checking the shape.
    pub fn expected_layer_len(self) -> (r: Result<usize, SpartanError>)
        ensures
            r is Ok <==> round_shape_ok(self),
            r matches Ok(n) ==> n == self.left * self.right,
            reports(r, shape_failure(self)),
            self.round >= self.rhos@.len() ==> fails_with(r,
                "round "@ + decimal_text(self.round as int) + " is out of range for "@
                    + decimal_text(self.rhos@.len() as int) + " rho challenges"@,
            ),
            self.round < self.rhos@.len() && self.left * self.right > usize::MAX ==> fails_with(r, "left * right overflows"@),
            self.round < self.rhos@.len() && self.left * self.right <= usize::MAX && self.left
                + self.right > usize::MAX ==> fails_with(r,
                "left + right overflows"@,
            ),
            self.round < self.rhos@.len() && self.left * self.right <= usize::MAX && self.left
                + self.right <= usize::MAX && self.e_eq@.len() != self.left + self.right
                ==> fails_with(r,
                "E_eq length "@ + decimal_text(self.e_eq@.len() as int)
                    + " does not match left + right "@ + decimal_text(self.left + self.right)
                    + ""@,
            ),
    {
        if self.round >= self.rhos.len() {
            return Err(
                invalid_input_owned(
                    text_with_two_numbers(
                        "round ",
                        self.round,
                        " is out of range for ",
                        self.rhos.len(),
                        " rho challenges",
                    ),
                ),
            );
        }
        let expected_len = match self.left.checked_mul(self.right) {
            Some(v) => v,
            None => {
                return Err(invalid_input("left * right overflows"));
            },
        };
        let expected_eq_len = match self.left.checked_add(self.right) {
            Some(v) => v,
            None => {
                return Err(invalid_input("left + right overflows"));
            },
        };
        if self.e_eq.len() != expected_eq_len {
            return Err(
                invalid_input_owned(
                    text_with_two_numbers(
                        "E_eq length ",
                        self.e_eq.len(),
                        " does not match left + right ",
                        expected_eq_len,
                        "",
                    ),
                ),
            );
        }
        Ok(expected_len)
    }
}

/// Whether every layer has length `n`.
pub open spec fn all_layers_have_len<T>(layers: Seq<Vec<T>>, n: int) -> bool {
    forall|i: int| 0 <= i < layers.len() ==> (#[trigger] layers[i])@.len() == n
}

/// Check that every layer of a family has length `expected_len`.
pub fn validate_layer_family<T>(label: &str, layers: &[Vec<T>], expected_len: usize) -> (r: Result<
    (),
    SpartanError,
>)
    ensures
        r is Ok <==> all_layers_have_len(layers@, expected_len as int),
        reports(r, family_failure(label@, layers@, expected_len as int)),
        r matches Err(e) ==> is_invalid_input(
            e,
            "all "@ + label@ + " layers must have length "@ + decimal_text(expected_len as int)
                + ""@,
        ),
{
    let mut i: usize = 0;
    while i < layers.len()
        invariant
            i <= layers@.len(),
            forall|j: int| 0 <= j < i ==> (#[trigger] layers@[j])@.len() == expected_len,
        decreases layers@.len() - i,
    {
        if layers[i].len() != expected_len {
            let s = crate::errors::concat("all ", label);
            let t = text_with_number(" layers must have length ", expected_len, "");
            let reason = crate::errors::concat(s.as_str(), t.as_str());
            assert(reason@ =~= "all "@ + label@ + " layers must have length "@ + decimal_text(
                expected_len as int,
            ) + ""@);
            return Err(invalid_input_owned(reason));
        }
        i = i + 1;
    }
    Ok(())
}

/// Check the inputs of a round whose C layers are materialized: equal,
/// non-empty and even A/B/C layer counts, a well-formed round shape, and
/// every layer of length `left * right`.
pub fn validate_materialized_c_round_inputs(
    shape: NifsRoundShape,
    a_layers: &[Vec<Scalar>],
    b_layers: &[Vec<Scalar>],
    c_layers: &[Vec<Scalar>],
) -> (r: Result<(), SpartanError>)
    ensures
        r is Ok <==> a_layers@.len() == b_layers@.len() && a_layers@.len() == c_layers@.len()
            && a_layers@.len() > 0 && a_layers@.len() % 2 == 0 && round_shape_ok(shape)
            && all_layers_have_len(a_layers@, shape.left * shape.right) && all_layers_have_len(
            b_layers@,
            shape.left * shape.right,
        ) && all_layers_have_len(c_layers@, shape.left * shape.right),
        (a_layers@.len() != b_layers@.len() || a_layers@.len() != c_layers@.len()) ==> fails_with(r, "A/B/C layer counts do not match"@),
        a_layers@.len() == b_layers@.len() && a_layers@.len() == c_layers@.len() && (
        a_layers@.len() == 0 || a_layers@.len() % 2 != 0) ==> fails_with(r,
            "round claim layer count must be non-empty and even"@,
        ),
        reports(r, materialized_round_failure(shape, a_layers@, b_layers@, c_layers@)),
{
    if a_layers.len() != b_layers.len() || a_layers.len() != c_layers.len() {
        return Err(invalid_input("A/B/C layer counts do not match"));
    }
    if a_layers.len() == 0 || a_layers.len() % 2 != 0 {
        return Err(invalid_input("round claim layer count must be non-empty and even"));
    }
    let expected_len = match shape.expected_layer_len() {
        Ok(n) => n,
        Err(e) => {
            return Err(e);
        },
    };
    match validate_layer_family("A", a_layers, expected_len) {
        Ok(()) => {},
        Err(e) => {
            return Err(e);
        },
    }
    match validate_layer_family("B", b_layers, expected_len) {
        Ok(()) => {},
        Err(e) => {
            return Err(e);
        },
    }
    validate_layer_family("C", c_layers, expected_len)
}

/// Check the inputs of a fold whose C values are scalar claims: equal A/B and
/// claim counts, non-empty and even.
pub fn validate_scalar_c_fold_inputs(
    a_layers: &[Vec<Scalar>],
    b_layers: &[Vec<Scalar>],
    c_claims: &[Scalar],
) -> (r: Result<(), SpartanError>)
    ensures
        r is Ok <==> a_layers@.len() == b_layers@.len() && a_layers@.len() == c_claims@.len()
            && a_layers@.len() > 0 && a_layers@.len() % 2 == 0,
        (a_layers@.len() != b_layers@.len() || a_layers@.len() != c_claims@.len()) ==> fails_with(r, "A/B layer and C-claim counts do not match"@),
        a_layers@.len() == b_layers@.len() && a_layers@.len() == c_claims@.len() && (
        a_layers@.len() == 0 || a_layers@.len() % 2 != 0) ==> fails_with(r,
            "suffix layer count must be non-empty and even"@,
        ),
        reports(r, scalar_fold_failure(a_layers@, b_layers@, c_claims@)),
{
    if a_layers.len() != b_layers.len() || a_layers.len() != c_claims.len() {
        return Err(invalid_input("A/B layer and C-claim counts do not match"));
    }
    if a_layers.len() == 0 || a_layers.len() % 2 != 0 {
        return Err(invalid_input("suffix layer count must be non-empty and even"));
    }
    Ok(())
}

/// Check the inputs of a round whose C values are scalar claims: the fold
/// checks, a well-formed round shape, and A/B layers of length `left * right`.
pub fn validate_scalar_c_round_inputs(
    shape: NifsRoundShape,
    a_layers: &[Vec<Scalar>],
    b_layers: &[Vec<Scalar>],
    c_claims: &[Scalar],
) -> (r: Result<(), SpartanError>)
    ensures
        r is Ok <==> a_layers@.len() == b_layers@.len() && a_layers@.len() == c_claims@.len()
            && a_layers@.len() > 0 && a_layers@.len() % 2 == 0 && round_shape_ok(shape)
            && all_layers_have_len(a_layers@, shape.left * shape.right) && all_layers_have_len(
            b_layers@,
            shape.left * shape.right,
        ),
        reports(r, scalar_round_failure(shape, a_layers@, b_layers@, c_claims@)),
{
    match validate_scalar_c_fold_inputs(a_layers, b_layers, c_claims) {
        Ok(()) => {},
        Err(e) => {
            return Err(e);
        },
    }
    let expected_len = match shape.expected_layer_len() {
        Ok(n) => n,
        Err(e) => {
            return Err(e);
        },
    };
    match validate_layer_family("A", a_layers, expected_len) {
        Ok(()) => {},
        Err(e) => {
            return Err(e);
        },
    }
    validate_layer_family("B", b_layers, expected_len)
}

/// Map `padded_len` padded positions through `map_value`: position `i` maps
/// value `i` when `i < num_values`, value 0 otherwise.
pub fn padded_map_by_repeating_first<'a, T, U, F: Fn(&'a T) -> U>(
    values: &'a [T],
    num_values: usize,
    padded_len: usize,
    map_value: F,
) -> (r: Vec<U>)
    requires
        (if num_values < padded_len {
            num_values
        } else {
            padded_len
        }) <= values@.len(),
        padded_len > num_values ==> values@.len() > 0,
        forall|v: &'a T| #[trigger] map_value.requires((v,)),
    ensures
        r@.len() == padded_len,
        forall|i: int|
            0 <= i < padded_len ==> map_value.ensures(
                (&values@[if i < num_values {
                    i
                } else {
                    0
                }],),
                #[trigger] r@[i],
            ),
{
    let mut out: Vec<U> = Vec::new();
    let mut idx: usize = 0;
    while idx < padded_len
        invariant
            idx <= padded_len,
            (if num_values < padded_len {
                num_values
            } else {
                padded_len
            }) <= values@.len(),
            padded_len > num_values ==> values@.len() > 0,
            forall|v: &'a T| #[trigger] map_value.requires((v,)),
            out@.len() == idx,
            forall|i: int|
                0 <= i < idx ==> map_value.ensures(
                    (&values@[if i < num_values {
                        i
                    } else {
                        0
                    }],),
                    #[trigger] out@[i],
                ),
        decreases padded_len - idx,
    {
        let row = if idx < num_values {
            idx
        } else {
            0
        };
        out.push(map_value(&values[row]));
        idx = idx + 1;
    }
    out
}

/// Views of `n_padded` layers where padding repeats layer 0: entry `i` is
/// layer `i` when `i < num_layers`, layer 0 otherwise.
pub fn padded_layer_slices<T>(layers: &[Vec<T>], num_layers: usize, n_padded: usize) -> (r: Vec<
    &[T],
>)
    requires
        (if num_layers < n_padded {
            num_layers
        } else {
            n_padded
        }) <= layers@.len(),
        n_padded > num_layers ==> layers@.len() > 0,
    ensures
        r@.len() == n_padded,
        forall|i: int|
            0 <= i < n_padded ==> (#[trigger] r@[i])@ == layers@[if i < num_layers {
                i
            } else {
                0
            }]@,
{
    let mut out: Vec<&[T]> = Vec::new();
    let mut idx: usize = 0;
    while idx < n_padded
        invariant
            idx <= n_padded,
            (if num_layers < n_padded {
                num_layers
            } else {
                n_padded
            }) <= layers@.len(),
            n_padded > num_layers ==> layers@.len() > 0,
            out@.len() == idx,
            forall|i: int|
                0 <= i < idx ==> (#[trigger] out@[i])@ == layers@[if i < num_layers {
                    i
                } else {
                    0
                }]@,
        decreases n_padded - idx,
    {
        let row = if idx < num_layers {
            idx
        } else {
            0
        };
        out.push(layers[row].as_slice());
        idx = idx + 1;
    }
    out
}

/// The message of a step cache whose public values were recorded for another
/// number of step circuits.
pub open spec fn cached_count_failure(cached: nat, received: nat) -> Seq<char> {
    "Cached matvec was computed for "@ + decimal_text(cached as int) + " step circuits, but prove received "@
        + decimal_text(received as int)
}

/// The prover's check of the cached step matvecs against the step circuits:
/// with public values recorded, the cache must still be there and cover every
/// circuit, and then each circuit's public values must be compared (`Ok(true)`);
/// with none recorded there is nothing to compare (`Ok(false)`).
pub fn check_step_matvec_cache(
    has_cached_matvecs: bool,
    num_cached_public_values: usize,
    num_step_circuits: usize,
) -> (r: Result<bool, SpartanError>)
    ensures
        num_cached_public_values == 0 ==> r == Ok::<bool, SpartanError>(false),
        num_cached_public_values != 0 && !has_cached_matvecs ==> fails_internally_with(
            r,
            "Cached step matvecs were consumed by a previous prove; rerun prep_prove to rebuild them"@,
        ),
        num_cached_public_values != 0 && has_cached_matvecs && num_cached_public_values
            != num_step_circuits ==> fails_internally_with(
            r,
            cached_count_failure(num_cached_public_values as nat, num_step_circuits as nat),
        ),
        num_cached_public_values != 0 && has_cached_matvecs && num_cached_public_values
            == num_step_circuits ==> r == Ok::<bool, SpartanError>(true),
{
    if num_cached_public_values == 0 {
        return Ok(false);
    }
    if !has_cached_matvecs {
        return Err(
            SpartanError::InternalError {
                reason: "Cached step matvecs were consumed by a previous prove; rerun prep_prove to rebuild them".to_owned(),
            },
        );
    }
    if num_cached_public_values != num_step_circuits {
        let reason = text_with_two_numbers(
            "Cached matvec was computed for ",
            num_cached_public_values,
            " step circuits, but prove received ",
            num_step_circuits,
            "",
        );
        proof {
            reveal_strlit("");
            assert(reason@ =~= cached_count_failure(num_cached_public_values as nat, num_step_circuits as nat));
        }
        return Err(SpartanError::InternalError { reason });
    }
    Ok(true)
}

/// Check that step circuit `i` still has the public values cached for it.
pub fn check_step_public_values(i: usize, cached: &[Scalar], current: &[Scalar]) -> (r: Result<
    (),
    SpartanError,
>)
    ensures
        r is Ok <==> scalar_values(cached@) == scalar_values(current@),
        r is Err ==> fails_internally_with(
            r,
            "Step circuit "@ + decimal_text(i as int) + " public values changed between prep_prove and prove"@,
        ),
{
    let mut same = cached.len() == current.len();
    if same {
        let mut k: usize = 0;
        while k < cached.len()
            invariant
                k <= cached@.len(),
                cached@.len() == current@.len(),
                same ==> forall|j: int| 0 <= j < k ==> cached@[j]@ == current@[j]@,
                !same ==> scalar_values(cached@) != scalar_values(current@),
            decreases cached@.len() - k,
        {
            if same && !cached[k].equals(&current[k]) {
                same = false;
                proof {
                    assert(scalar_values(cached@)[k as int] != scalar_values(current@)[k as int]);
                }
            }
            k = k + 1;
        }
        proof {
            if same {
                assert(scalar_values(cached@) =~= scalar_values(current@));
            }
        }
    } else {
        proof {
            assert(scalar_values(cached@).len() != scalar_values(current@).len());
        }
    }
    if same {
        Ok(())
    } else {
        let reason = text_with_number("Step circuit ", i, " public values changed between prep_prove and prove");
        Err(SpartanError::InternalError { reason })
    }
}

} // verus!
