//! Step-circuit `Az/Bz/Cz` matvec tables of the NeutronNova NIFS and their
//! small-value caches.
//!
//! The small caches hold the `i64` value of every field entry that denotes a
//! small enough integer. A position where any layer's value is too large is
//! zeroed in every layer and listed, so that callers correct it with field
//! arithmetic.

use crate::errors::{
    concat, decimal_text, fails_with, invalid_input, text_with_number, text_with_two_numbers, SpartanError,
};
use crate::extension_bound::{
    bounded_reading, field_values_to_small_or_zero_with_bound, is_bounded_small_view,
    lemma_usize_keys_ordered, position_set, sorted_positions,
    max_extension_input_abs_for_rounds, product_input_bound, SMALL_VALUE_T_DEGREE,
};
use crate::field::{fmod, Scalar};
use crate::small_neutronnova::{
    find_first_at_least, first_at_least, is_strictly_increasing, strictly_increasing,
};
use crate::outer_mles::split_triples;
use crate::small_int::{ExtensionMagnitude, SmallValue};
use crate::small_value::{
    field_to_int_in, is_position_list, lemma_field_to_int_denotes, small_bad_pred, small_reading, to_small_vec_or_zero,
};
use std::collections::BTreeSet;
use vstd::prelude::*;

verus! {

/// Full field-valued step-circuit `Az/Bz/Cz` tables.
#[derive(Clone, Debug)]
pub struct FieldStepMatvecs {
    /// Field-valued `Az` tables in original instance order.
    pub az: Vec<Vec<Scalar>>,
    /// Field-valued `Bz` tables in original instance order.
    pub bz: Vec<Vec<Scalar>>,
    /// Field-valued `Cz` tables in original instance order.
    pub cz: Vec<Vec<Scalar>>,
}

impl FieldStepMatvecs {
    /// Build the tables from per-instance `(Az, Bz, Cz)` triples.
    pub fn from_triples(matvec: Vec<(Vec<Scalar>, Vec<Scalar>, Vec<Scalar>)>) -> (r: Self)
        ensures
            r.az@ == triple_az(matvec@),
            r.bz@ == triple_bz(matvec@),
            r.cz@ == triple_cz(matvec@),
    {
        let ghost m = matvec@;
        let (az, bz, cz) = split_triples(matvec);
        assert(az@ =~= triple_az(m));
        assert(bz@ =~= triple_bz(m));
        assert(cz@ =~= triple_cz(m));
        FieldStepMatvecs { az, bz, cz }
    }

    /// Number of step instances.
    pub fn len(&self) -> (r: usize)
        ensures
            r == self.az@.len(),
    {
        self.az.len()
    }
}

/// Small-value `Az/Bz` tables and the global positions that must use field
/// corrections.
///
/// Invariant: for every index in `large_positions`, every layer's small `Az`
/// and `Bz` table stores zero at that index.
#[derive(Clone, Debug)]
pub struct SmallAbStepMatvecs {
    /// Small `Az` tables; global large positions are zeroed.
    pub az_small: Vec<Vec<i64>>,
    /// Small `Bz` tables; global large positions are zeroed.
    pub bz_small: Vec<Vec<i64>>,
    /// Positions where any cached value did not fit in the small representation.
    pub large_positions: Vec<usize>,
    /// Number of small-value Lagrange accumulator rounds used to bound `Az/Bz`.
    pub l0: usize,
}

/// Small-value `Az/Bz/Cz` tables and the global positions that must use field
/// corrections.
#[derive(Clone, Debug)]
pub struct SmallAbcStepMatvecs {
    /// Small `Az/Bz` tables and their large-position metadata.
    pub ab: SmallAbStepMatvecs,
    /// Small `Cz` tables; global large positions are zeroed.
    pub cz_small: Vec<Vec<i64>>,
    /// Positions where any cached `C` value did not fit in the small representation.
    pub c_large_positions: Vec<usize>,
}

/// Step matvecs of the regular NeutronNova NIFS.
///
/// `small_abc = None` is the full-field path; `small_abc = Some(..)` also
/// caches small `Az/Bz` values for round claims and small `Cz` values for
/// scalar `C` claims and the final `C` fold.
#[derive(Clone, Debug)]
pub struct NeutronNovaStepMatvecs {
    /// Full field-valued step matvec tables.
    pub field: FieldStepMatvecs,
    /// Optional small `Az/Bz/Cz` tables for the regular small-value path.
    pub small_abc: Option<SmallAbcStepMatvecs>,
}

/// Step matvecs of the small-value accumulator NeutronNova NIFS.
#[derive(Clone, Debug)]
pub struct SmallValueNeutronNovaStepMatvecs {
    /// Full field-valued step matvec tables used for large-position corrections.
    pub field: FieldStepMatvecs,
    /// Small `Az/Bz/Cz` tables used by the small-value accumulator.
    pub small_abc: SmallAbcStepMatvecs,
}

/// The regular NeutronNova NIFS backend; its input says whether to build the
/// small-value caches.
#[derive(Clone, Copy, Debug)]
pub struct NeutronNovaNIFS;

/// The small-value accumulator NeutronNova NIFS backend; its input is the
/// number `l0` of small-value rounds.
#[derive(Clone, Copy, Debug)]
pub struct SmallValueNeutronNovaNIFS;

// ---------------------------------------------------------------------------
// Specification.
// ---------------------------------------------------------------------------

/// The `Az` tables of per-instance `(Az, Bz, Cz)` triples.
pub open spec fn triple_az(m: Seq<(Vec<Scalar>, Vec<Scalar>, Vec<Scalar>)>) -> Seq<Vec<Scalar>> {
    m.map_values(|t: (Vec<Scalar>, Vec<Scalar>, Vec<Scalar>)| t.0)
}

/// The `Bz` tables of per-instance `(Az, Bz, Cz)` triples.
pub open spec fn triple_bz(m: Seq<(Vec<Scalar>, Vec<Scalar>, Vec<Scalar>)>) -> Seq<Vec<Scalar>> {
    m.map_values(|t: (Vec<Scalar>, Vec<Scalar>, Vec<Scalar>)| t.1)
}

/// The `Cz` tables of per-instance `(Az, Bz, Cz)` triples.
pub open spec fn triple_cz(m: Seq<(Vec<Scalar>, Vec<Scalar>, Vec<Scalar>)>) -> Seq<Vec<Scalar>> {
    m.map_values(|t: (Vec<Scalar>, Vec<Scalar>, Vec<Scalar>)| t.2)
}

/// Magnitude bound of cached `Az/Bz` values for `l0` small-value rounds.
pub open spec fn ab_bound(l0: nat) -> int {
    product_input_bound(i64::MAX as int, i128::MAX as int, SMALL_VALUE_T_DEGREE as nat, l0)
}

/// The cached `Az/Bz` value of a field element, if it has one.
pub open spec fn ab_reading(v: nat, l0: nat) -> Option<int> {
    bounded_reading(v, i64::MIN as int, i64::MAX as int, ab_bound(l0))
}

/// The positions of a layer whose values have no `Az/Bz` cache value.
pub open spec fn ab_bad_pred(values: Seq<Scalar>, l0: nat) -> spec_fn(int) -> bool {
    |k: int| ab_reading(values[k]@, l0) is None
}

/// Position `k` of `layer` holds a value without an `Az/Bz` cache value.
pub open spec fn ab_bad_at(layer: Seq<Scalar>, l0: nat, k: int) -> bool {
    0 <= k < layer.len() && ab_reading(layer[k]@, l0) is None
}

/// Position `k` of `layer` holds a value without a `Cz` cache value.
pub open spec fn c_bad_at(layer: Seq<Scalar>, k: int) -> bool {
    0 <= k < layer.len() && small_reading(layer[k]@) is None
}

/// Number of layer pairs of two layer lists: the shorter length.
pub open spec fn zipped_len(a: Seq<Vec<Scalar>>, b: Seq<Vec<Scalar>>) -> nat {
    if a.len() < b.len() {
        a.len()
    } else {
        b.len()
    }
}

/// Position `k` is large in one of the first `n` `Az` or `Bz` layers.
pub open spec fn ab_large(az: Seq<Vec<Scalar>>, bz: Seq<Vec<Scalar>>, l0: nat, n: nat, k: int) -> bool
    decreases n,
{
    n > 0 && (ab_large(az, bz, l0, (n - 1) as nat, k) || ab_bad_at(az[n - 1]@, l0, k) || ab_bad_at(
        bz[n - 1]@,
        l0,
        k,
    ))
}

/// Position `k` is large in one of the first `n` `Cz` layers.
pub open spec fn c_large(cz: Seq<Vec<Scalar>>, n: nat, k: int) -> bool
    decreases n,
{
    n > 0 && (c_large(cz, (n - 1) as nat, k) || c_bad_at(cz[n - 1]@, k))
}

/// Every position that is large in some `Az/Bz` layer lies inside every
/// `Az` and `Bz` layer.
pub open spec fn ab_positions_fit(az: Seq<Vec<Scalar>>, bz: Seq<Vec<Scalar>>, l0: nat) -> bool {
    forall|j: int, k: int|
        0 <= j < zipped_len(az, bz) && #[trigger] ab_large(az, bz, l0, zipped_len(az, bz), k) ==> k
            < (#[trigger] az[j])@.len() && k < bz[j]@.len()
}

/// Every position that is large in some `Cz` layer lies inside every `Cz`
/// layer.
pub open spec fn c_positions_fit(cz: Seq<Vec<Scalar>>) -> bool {
    forall|j: int, k: int|
        0 <= j < cz.len() && #[trigger] c_large(cz, cz.len(), k) ==> k < (#[trigger] cz[j])@.len()
}

/// Whether `pos` lists, in increasing order, exactly the non-negative
/// integers that satisfy `pred`.
pub open spec fn lists_exactly(pos: Seq<usize>, pred: spec_fn(int) -> bool) -> bool {
    &&& forall|i: int, j: int| 0 <= i < j < pos.len() ==> pos[i] < pos[j]
    &&& forall|i: int| 0 <= i < pos.len() ==> pred(#[trigger] pos[i] as int)
    &&& forall|k: usize| #[trigger] pred(k as int) ==> pos.contains(k)
}

/// Whether `small` is the cache of `field` under the reading `read`, with the
/// positions satisfying `large` zeroed.
pub open spec fn is_cached_layer(
    small: Seq<i64>,
    field: Seq<Scalar>,
    read: spec_fn(nat) -> Option<int>,
    large: spec_fn(int) -> bool,
) -> bool {
    &&& small.len() == field.len()
    &&& forall|k: int|
        0 <= k < field.len() ==> (#[trigger] small[k]) as int == if large(k) {
            0
        } else {
            read(field[k]@)->0
        }
}

/// Whether `ab` is the small `Az/Bz` cache of `field` for `l0` rounds.
pub open spec fn is_small_ab_of(field: FieldStepMatvecs, l0: nat, ab: SmallAbStepMatvecs) -> bool {
    let n = zipped_len(field.az@, field.bz@);
    let large = |k: int| ab_large(field.az@, field.bz@, l0, n, k);
    let read = |v: nat| ab_reading(v, l0);
    &&& ab.l0 == l0
    &&& ab.az_small@.len() == n
    &&& ab.bz_small@.len() == n
    &&& forall|i: int|
        0 <= i < n ==> is_cached_layer((#[trigger] ab.az_small@[i])@, field.az@[i]@, read, large)
            && is_cached_layer(ab.bz_small@[i]@, field.bz@[i]@, read, large)
    &&& lists_exactly(ab.large_positions@, large)
}

/// Whether `abc` is the small `Az/Bz/Cz` cache of `field` for `l0` rounds.
pub open spec fn is_small_abc_of(field: FieldStepMatvecs, l0: nat, abc: SmallAbcStepMatvecs) -> bool {
    let large = |k: int| c_large(field.cz@, field.cz@.len(), k);
    let read = |v: nat| small_reading(v);
    &&& is_small_ab_of(field, l0, abc.ab)
    &&& abc.cz_small@.len() == field.cz@.len()
    &&& forall|i: int|
        0 <= i < field.cz@.len() ==> is_cached_layer(
            (#[trigger] abc.cz_small@[i])@,
            field.cz@[i]@,
            read,
            large,
        )
    &&& lists_exactly(abc.c_large_positions@, large)
}

// ---------------------------------------------------------------------------
// Conversions.
// ---------------------------------------------------------------------------

/// Convert a field layer into `i64` values bounded for `l0` rounds of native
/// extension and product, zeroing and listing the positions that do not fit.
pub fn field_to_i64_or_zero_for_l0(values: &[Scalar], l0: usize) -> (r: (Vec<i64>, Vec<usize>))
    ensures
        is_bounded_small_view(r.0@, values@, ab_bound(l0 as nat)),
        is_position_list(r.1@, values@.len(), ab_bad_pred(values@, l0 as nat)),
{
    let bound = max_extension_input_abs_for_rounds::<i64, i128, SMALL_VALUE_T_DEGREE>(l0);
    let (small, set) = field_values_to_small_or_zero_with_bound::<i64, i128>(values, bound);
    let positions = sorted_positions(&set);
    let r = (small, positions);
    proof {
        let p1 = |i: int|
            bounded_reading(
                values@[i]@,
                <i64 as crate::small_int::ExtensionMagnitude>::min_int(),
                <i64 as crate::small_int::ExtensionMagnitude>::max_int(),
                bound.int_val(),
            ) is None;
        assert(p1 =~= ab_bad_pred(values@, l0 as nat));
        lemma_sorted_set_is_position_list(positions@, values@.len(), p1);
    }
    r
}

/// A strictly increasing list whose elements are the positions below `n`
/// where `pred` holds lists them.
proof fn lemma_sorted_set_is_position_list(v: Seq<usize>, n: nat, pred: spec_fn(int) -> bool)
    requires
        forall|i: int, j: int| 0 <= i < j < v.len() ==> v[i] < v[j],
        v.to_set() == position_set(n, pred),
    ensures
        is_position_list(v, n, pred),
{
    assert forall|i: int| 0 <= i < v.len() implies v[i] < n && pred(v[i] as int) by {
        assert(v.to_set().contains(v[i]));
    }
    assert forall|k: usize| (k as int) < n && #[trigger] pred(k as int) implies v.contains(k) by {
        assert(position_set(n, pred).contains(k));
        assert(v.to_set().contains(k));
    }
}

/// Zero the entries of `layer` at the given positions.
fn zero_layer_positions(layer: &mut Vec<i64>, positions: &[usize])
    requires
        forall|i: int| 0 <= i < positions@.len() ==> positions@[i] < old(layer)@.len(),
    ensures
        final(layer)@.len() == old(layer)@.len(),
        forall|k: int|
            0 <= k < old(layer)@.len() ==> #[trigger] final(layer)@[k] == if positions@.contains(
                k as usize,
            ) {
                0
            } else {
                old(layer)@[k]
            },
{
    let ghost start = layer@;
    let len = layer.len();
    let mut j: usize = 0;
    while j < positions.len()
        invariant
            j <= positions@.len(),
            start.len() == len,
            forall|i: int| 0 <= i < positions@.len() ==> positions@[i] < start.len(),
            layer@.len() == start.len(),
            forall|k: int|
                0 <= k < start.len() ==> #[trigger] layer@[k] == if positions@.take(
                    j as int,
                ).contains(k as usize) {
                    0
                } else {
                    start[k]
                },
        decreases positions@.len() - j,
    {
        let p = positions[j];
        layer.set(p, 0);
        proof {
            let cur = positions@.take(j + 1);
            let prev = positions@.take(j as int);
            assert(cur[j as int] == p);
            assert forall|k: int| 0 <= k < start.len() implies #[trigger] layer@[k] == if cur.contains(
                k as usize,
            ) {
                0
            } else {
                start[k]
            } by {
                if k == p as int {
                    assert(cur.contains(p));
                } else {
                    if cur.contains(k as usize) {
                        let w = choose|w: int| 0 <= w < j + 1 && #[trigger] cur[w] == k as usize;
                        assert(prev[w] == k as usize);
                    }
                    if prev.contains(k as usize) {
                        let w = choose|w: int| 0 <= w < j && #[trigger] prev[w] == k as usize;
                        assert(cur[w] == k as usize);
                    }
                }
            }
        }
        j = j + 1;
    }
    assert(positions@.take(positions@.len() as int) =~= positions@);
}

/// Zero the given positions in every layer.
fn zero_positions_in_layers(layers: &mut Vec<Vec<i64>>, positions: &[usize])
    requires
        forall|i: int, p: int|
            0 <= i < old(layers)@.len() && 0 <= p < positions@.len() ==> #[trigger] positions@[p] < (
            #[trigger] old(layers)@[i])@.len(),
    ensures
        final(layers)@.len() == old(layers)@.len(),
        forall|i: int|
            0 <= i < old(layers)@.len() ==> (#[trigger] final(layers)@[i])@.len() == old(layers)@[i]@.len() && forall|k: int|
                0 <= k < old(layers)@[i]@.len() ==> #[trigger] final(layers)@[i]@[k] == if positions@.contains(
                    k as usize,
                ) {
                    0
                } else {
                    old(layers)@[i]@[k]
                },
{
    let ghost start = layers@;
    let mut i: usize = 0;
    while i < layers.len()
        invariant
            i <= layers@.len(),
            layers@.len() == start.len(),
            forall|i: int, p: int|
                0 <= i < start.len() && 0 <= p < positions@.len() ==> #[trigger] positions@[p] < (
                #[trigger] start[i])@.len(),
            forall|q: int| i <= q < start.len() ==> #[trigger] layers@[q] == start[q],
            forall|q: int|
                0 <= q < i ==> (#[trigger] layers@[q])@.len() == start[q]@.len() && forall|k: int|
                    0 <= k < start[q]@.len() ==> #[trigger] layers@[q]@[k] == if positions@.contains(
                        k as usize,
                    ) {
                        0
                    } else {
                        start[q]@[k]
                    },
        decreases start.len() - i,
    {
        let mut layer: Vec<i64> = Vec::new();
        std::mem::swap(&mut layer, &mut layers[i]);
        assert(layer@ == start[i as int]@);
        zero_layer_positions(&mut layer, positions);
        layers[i] = layer;
        i = i + 1;
    }
}

/// Add the listed positions to a position set.
fn add_positions(set: &mut BTreeSet<usize>, positions: &[usize])
    ensures
        final(set)@ == old(set)@.union(positions@.to_set()),
{
    let ghost start = set@;
    let mut j: usize = 0;
    while j < positions.len()
        invariant
            j <= positions@.len(),
            set@ == start.union(positions@.take(j as int).to_set()),
        decreases positions@.len() - j,
    {
        proof {
            lemma_usize_keys_ordered();
            assert(positions@.take(j + 1) =~= positions@.take(j as int).push(positions@[j as int]));
            positions@.take(j as int).lemma_push_to_set_commute(positions@[j as int]);
        }
        set.insert(positions[j]);
        proof {
            assert(set@ =~= start.union(positions@.take(j + 1).to_set()));
        }
        j = j + 1;
    }
    proof {
        assert(positions@.take(positions@.len() as int) =~= positions@);
    }
}

/// Build the small `Az/Bz` cache of the field tables for `l0` rounds.
///
/// Each `Az/Bz` value that denotes an `i64` within the `l0`-round
/// extension/product bound is cached; every position where any layer's value
/// does not is zeroed in all layers and listed.
pub fn build_small_ab_from_field(field: &FieldStepMatvecs, l0: usize) -> (r: Result<
    SmallAbStepMatvecs,
    SpartanError,
>)
    requires
        ab_positions_fit(field.az@, field.bz@, l0 as nat),
    ensures
        r is Err <==> l0 == 0,
        l0 == 0 ==> fails_with(r, "small A/B matvec conversion requires l0 > 0"@),
        r matches Ok(ab) ==> is_small_ab_of(*field, l0 as nat, ab),
{
    if l0 == 0 {
        return Err(invalid_input("small A/B matvec conversion requires l0 > 0"));
    }
    let n = if field.az.len() < field.bz.len() {
        field.az.len()
    } else {
        field.bz.len()
    };
    let ghost az = field.az@;
    let ghost bz = field.bz@;
    let mut az_small: Vec<Vec<i64>> = Vec::new();
    let mut bz_small: Vec<Vec<i64>> = Vec::new();
    let mut large_set: BTreeSet<usize> = BTreeSet::new();
    let mut i: usize = 0;
    while i < n
        invariant
            i <= n,
            n <= az.len(),
            n <= bz.len(),
            az == field.az@,
            bz == field.bz@,
            az_small@.len() == i,
            bz_small@.len() == i,
            forall|q: int|
                0 <= q < i ==> is_bounded_small_view(
                    (#[trigger] az_small@[q])@,
                    az[q]@,
                    ab_bound(l0 as nat),
                ) && is_bounded_small_view(bz_small@[q]@, bz[q]@, ab_bound(l0 as nat)),
            forall|k: usize|
                large_set@.contains(k) <==> #[trigger] ab_large(az, bz, l0 as nat, i as nat, k as int),
        decreases n - i,
    {
        let _la = field.az[i].len();
        let _lb = field.bz[i].len();
        let (sa, pa) = field_to_i64_or_zero_for_l0(field.az[i].as_slice(), l0);
        let (sb, pb) = field_to_i64_or_zero_for_l0(field.bz[i].as_slice(), l0);
        let ghost s0 = large_set@;
        add_positions(&mut large_set, pa.as_slice());
        add_positions(&mut large_set, pb.as_slice());
        proof {
            let la = az[i as int]@;
            let lb = bz[i as int]@;
            assert forall|k: usize| large_set@.contains(k) <==> #[trigger] ab_large(
                az,
                bz,
                l0 as nat,
                (i + 1) as nat,
                k as int,
            ) by {
                let ki = k as int;
                assert(ab_large(az, bz, l0 as nat, (i + 1) as nat, ki) == (ab_large(
                    az,
                    bz,
                    l0 as nat,
                    i as nat,
                    ki,
                ) || ab_bad_at(la, l0 as nat, ki) || ab_bad_at(lb, l0 as nat, ki)));
                assert(large_set@.contains(k) == (s0.contains(k) || pa@.to_set().contains(k)
                    || pb@.to_set().contains(k)));
                if ab_bad_at(la, l0 as nat, ki) {
                    assert(ab_bad_pred(la, l0 as nat)(ki));
                    assert(pa@.contains(k));
                }
                if ab_bad_at(lb, l0 as nat, ki) {
                    assert(ab_bad_pred(lb, l0 as nat)(ki));
                    assert(pb@.contains(k));
                }
                if pa@.contains(k) {
                    let w = choose|w: int| 0 <= w < pa@.len() && pa@[w] == k;
                    assert(ab_bad_at(la, l0 as nat, pa@[w] as int));
                }
                if pb@.contains(k) {
                    let w = choose|w: int| 0 <= w < pb@.len() && pb@[w] == k;
                    assert(ab_bad_at(lb, l0 as nat, pb@[w] as int));
                }
            }
        }
        az_small.push(sa);
        bz_small.push(sb);
        i = i + 1;
    }
    let large_positions = sorted_positions(&large_set);
    let ghost large = |k: int| ab_large(az, bz, l0 as nat, n as nat, k);
    proof {
        // The listed positions are exactly the large ones.
        assert forall|p: int| 0 <= p < large_positions@.len() implies large(
            #[trigger] large_positions@[p] as int,
        ) by {
            assert(large_positions@.to_set().contains(large_positions@[p]));
            assert(large_set@.contains(large_positions@[p]));
        }
        assert forall|k: usize| #[trigger] large(k as int) implies large_positions@.contains(k) by {
            assert(ab_large(az, bz, l0 as nat, n as nat, k as int));
            assert(large_set@.contains(k));
            assert(large_positions@.to_set().contains(k));
        }
        assert forall|q: int, k: int| 0 <= q < n && #[trigger] large(k) implies k < (
        #[trigger] az[q])@.len() && k < bz[q]@.len() by {
            assert(ab_large(field.az@, field.bz@, l0 as nat, zipped_len(field.az@, field.bz@), k));
            assert(k < (field.az@[q])@.len() && k < field.bz@[q]@.len());
        }
        assert(n == zipped_len(field.az@, field.bz@));
        assert forall|q: int, p: int|
            0 <= q < az_small@.len() && 0 <= p < large_positions@.len() implies #[trigger] large_positions@[p]
            < (#[trigger] az_small@[q])@.len() by {
            let k = large_positions@[p] as int;
            assert(large(k));
            assert(ab_large(field.az@, field.bz@, l0 as nat, zipped_len(field.az@, field.bz@), k));
            assert(k < (field.az@[q])@.len());
        }
        assert forall|q: int, p: int|
            0 <= q < bz_small@.len() && 0 <= p < large_positions@.len() implies #[trigger] large_positions@[p]
            < (#[trigger] bz_small@[q])@.len() by {
            let k = large_positions@[p] as int;
            assert(large(k));
            assert(az_small@[q]@.len() == az[q]@.len());
            assert(k < (bz[q])@.len());
        }
    }
    let ghost az_before = az_small@;
    let ghost bz_before = bz_small@;
    zero_positions_in_layers(&mut az_small, large_positions.as_slice());
    zero_positions_in_layers(&mut bz_small, large_positions.as_slice());
    let ab = SmallAbStepMatvecs { az_small, bz_small, large_positions, l0 };
    proof {
        let read = |v: nat| ab_reading(v, l0 as nat);
        assert forall|q: int| 0 <= q < n implies is_cached_layer(
            (#[trigger] ab.az_small@[q])@,
            az[q]@,
            read,
            large,
        ) && is_cached_layer(ab.bz_small@[q]@, bz[q]@, read, large) by {
            assert(az_before[q]@.len() == az[q]@.len());
            assert(bz_before[q]@.len() == bz[q]@.len());
            assert forall|k: int| 0 <= k < az[q]@.len() implies (#[trigger] ab.az_small@[q]@[k]) as int
                == if large(k) {
                0
            } else {
                read(az[q]@[k]@)->0
            } by {
                assert(az_before[q].len() == az_before[q]@.len());
                let ku = k as usize;
                assert(ku as int == k);
                assert(ab.large_positions@.contains(ku) == large_set@.contains(ku)) by {
                    assert(ab.large_positions@.to_set().contains(ku) == ab.large_positions@.contains(ku));
                }
                if !large(k) {
                    lemma_ab_large_mono(az, bz, l0 as nat, (q + 1) as nat, n as nat, k);
                    assert(!ab_bad_at(az[q]@, l0 as nat, k));
                    assert(ab_reading(az[q]@[k]@, l0 as nat) is Some);
                }
            }
            assert forall|k: int| 0 <= k < bz[q]@.len() implies (#[trigger] ab.bz_small@[q]@[k]) as int
                == if large(k) {
                0
            } else {
                read(bz[q]@[k]@)->0
            } by {
                assert(bz_before[q].len() == bz_before[q]@.len());
                let ku = k as usize;
                assert(ku as int == k);
                assert(ab.large_positions@.contains(ku) == large_set@.contains(ku)) by {
                    assert(ab.large_positions@.to_set().contains(ku) == ab.large_positions@.contains(ku));
                }
                if !large(k) {
                    lemma_ab_large_mono(az, bz, l0 as nat, (q + 1) as nat, n as nat, k);
                    assert(!ab_bad_at(bz[q]@, l0 as nat, k));
                    assert(ab_reading(bz[q]@[k]@, l0 as nat) is Some);
                }
            }
        }
    }
    Ok(ab)
}

/// Build the small `Cz` cache of the field `Cz` layers: every value that
/// denotes an integer of magnitude at most `SMALL_VALUE_MAX` is cached, and
/// every position where any layer's value does not is zeroed in all layers
/// and listed.
fn build_small_c_from_field(cz: &Vec<Vec<Scalar>>) -> (r: (Vec<Vec<i64>>, Vec<usize>))
    requires
        c_positions_fit(cz@),
    ensures
        r.0@.len() == cz@.len(),
        forall|i: int|
            0 <= i < cz@.len() ==> is_cached_layer(
                (#[trigger] r.0@[i])@,
                cz@[i]@,
                |v: nat| small_reading(v),
                |k: int| c_large(cz@, cz@.len(), k),
            ),
        lists_exactly(r.1@, |k: int| c_large(cz@, cz@.len(), k)),
{
    let n = cz.len();
    let mut cz_small: Vec<Vec<i64>> = Vec::new();
    let mut large_set: BTreeSet<usize> = BTreeSet::new();
    let mut i: usize = 0;
    while i < n
        invariant
            i <= n,
            n == cz@.len(),
            cz_small@.len() == i,
            forall|q: int|
                0 <= q < i ==> (#[trigger] cz_small@[q])@.len() == cz@[q]@.len() && forall|k: int|
                    0 <= k < cz@[q]@.len() ==> (#[trigger] cz_small@[q]@[k]) as int == match small_reading(
                        cz@[q]@[k]@,
                    ) {
                        Some(x) => x,
                        None => 0,
                    },
            forall|k: usize| large_set@.contains(k) <==> #[trigger] c_large(cz@, i as nat, k as int),
        decreases n - i,
    {
        let (sc, pc) = to_small_vec_or_zero(cz[i].as_slice());
        let ghost s0 = large_set@;
        add_positions(&mut large_set, pc.as_slice());
        proof {
            let lc = cz@[i as int]@;
            assert forall|k: usize| large_set@.contains(k) <==> #[trigger] c_large(
                cz@,
                (i + 1) as nat,
                k as int,
            ) by {
                let ki = k as int;
                assert(c_large(cz@, (i + 1) as nat, ki) == (c_large(cz@, i as nat, ki) || c_bad_at(
                    lc,
                    ki,
                )));
                assert(large_set@.contains(k) == (s0.contains(k) || pc@.to_set().contains(k)));
                if c_bad_at(lc, ki) {
                    assert(small_bad_pred(lc)(ki));
                    assert(pc@.contains(k));
                }
                if pc@.contains(k) {
                    let w = choose|w: int| 0 <= w < pc@.len() && pc@[w] == k;
                    assert(c_bad_at(lc, pc@[w] as int));
                }
            }
        }
        cz_small.push(sc);
        i = i + 1;
    }
    let c_large_positions = sorted_positions(&large_set);
    let ghost large = |k: int| c_large(cz@, n as nat, k);
    proof {
        assert forall|p: int| 0 <= p < c_large_positions@.len() implies large(
            #[trigger] c_large_positions@[p] as int,
        ) by {
            assert(c_large_positions@.to_set().contains(c_large_positions@[p]));
            assert(large_set@.contains(c_large_positions@[p]));
        }
        assert forall|k: usize| #[trigger] large(k as int) implies c_large_positions@.contains(k) by {
            assert(c_large(cz@, n as nat, k as int));
            assert(large_set@.contains(k));
            assert(c_large_positions@.to_set().contains(k));
        }
        assert forall|q: int, p: int|
            0 <= q < cz_small@.len() && 0 <= p < c_large_positions@.len() implies #[trigger] c_large_positions@[p]
            < (#[trigger] cz_small@[q])@.len() by {
            let k = c_large_positions@[p] as int;
            assert(large(k));
            assert(k < (cz@[q])@.len());
        }
    }
    let ghost before = cz_small@;
    zero_positions_in_layers(&mut cz_small, c_large_positions.as_slice());
    proof {
        let read = |v: nat| small_reading(v);
        assert forall|q: int| 0 <= q < n implies is_cached_layer(
            (#[trigger] cz_small@[q])@,
            cz@[q]@,
            read,
            large,
        ) by {
            assert(before[q]@.len() == cz@[q]@.len());
            assert forall|k: int| 0 <= k < cz@[q]@.len() implies (#[trigger] cz_small@[q]@[k]) as int
                == if large(k) {
                0
            } else {
                read(cz@[q]@[k]@)->0
            } by {
                assert(before[q].len() == before[q]@.len());
                let ku = k as usize;
                assert(ku as int == k);
                assert(c_large_positions@.contains(ku) == large_set@.contains(ku)) by {
                    assert(c_large_positions@.to_set().contains(ku) == c_large_positions@.contains(ku));
                }
                assert(before[q]@[k] as int == match small_reading(cz@[q]@[k]@) {
                    Some(x) => x,
                    None => 0,
                });
                if !large(k) {
                    lemma_c_large_mono(cz@, (q + 1) as nat, n as nat, k);
                    assert(!c_bad_at(cz@[q]@, k));
                }
            }
        }
    }
    (cz_small, c_large_positions)
}

/// Build the small `Az/Bz/Cz` cache of the field tables for `l0` rounds.
///
/// The `Az/Bz` part is that of [`build_small_ab_from_field`]; every `Cz`
/// value that denotes an integer of magnitude at most `SMALL_VALUE_MAX` is
/// cached, and every position where any `Cz` layer's value does not is zeroed
/// in all `Cz` layers and listed.
pub fn build_small_abc_from_field(field: &FieldStepMatvecs, l0: usize) -> (r: Result<
    SmallAbcStepMatvecs,
    SpartanError,
>)
    requires
        ab_positions_fit(field.az@, field.bz@, l0 as nat),
        c_positions_fit(field.cz@),
    ensures
        r is Err <==> l0 == 0,
        l0 == 0 ==> fails_with(r, "small A/B matvec conversion requires l0 > 0"@),
        r matches Ok(abc) ==> is_small_abc_of(*field, l0 as nat, abc),
{
    let ab = match build_small_ab_from_field(field, l0) {
        Ok(ab) => ab,
        Err(e) => {
            return Err(e);
        },
    };
    let (cz_small, c_large_positions) = build_small_c_from_field(&field.cz);
    Ok(SmallAbcStepMatvecs { ab, cz_small, c_large_positions })
}

/// A position large among the first `m` layers is large among the first
/// `n >= m`; a bad value in layer `m - 1` makes it large.
proof fn lemma_ab_large_mono(
    az: Seq<Vec<Scalar>>,
    bz: Seq<Vec<Scalar>>,
    l0: nat,
    m: nat,
    n: nat,
    k: int,
)
    requires
        m <= n,
    ensures
        ab_large(az, bz, l0, m, k) ==> ab_large(az, bz, l0, n, k),
        m > 0 && (ab_bad_at(az[m - 1]@, l0, k) || ab_bad_at(bz[m - 1]@, l0, k)) ==> ab_large(
            az,
            bz,
            l0,
            n,
            k,
        ),
    decreases n - m,
{
    if m < n {
        lemma_ab_large_mono(az, bz, l0, m, (n - 1) as nat, k);
    }
}

/// A position large among the first `m` `Cz` layers is large among the
/// first `n >= m`; a bad value in layer `m - 1` makes it large.
proof fn lemma_c_large_mono(cz: Seq<Vec<Scalar>>, m: nat, n: nat, k: int)
    requires
        m <= n,
    ensures
        c_large(cz, m, k) ==> c_large(cz, n, k),
        m > 0 && c_bad_at(cz[m - 1]@, k) ==> c_large(cz, n, k),
    decreases n - m,
{
    if m < n {
        lemma_c_large_mono(cz, m, (n - 1) as nat, k);
    }
}

impl NeutronNovaNIFS {
    /// Whether witness synthesis uses the small-value assignment path.
    pub fn is_small(input: &bool) -> (r: bool)
        ensures
            r == *input,
    {
        *input
    }

    /// Build the step matvecs from per-instance field `(Az, Bz, Cz)` tables;
    /// with `input` set, also the small caches for one small-value round.
    pub fn build_step_matvecs_from_field(
        field_matvecs: Vec<(Vec<Scalar>, Vec<Scalar>, Vec<Scalar>)>,
        input: &bool,
    ) -> (r: Result<NeutronNovaStepMatvecs, SpartanError>)
        requires
            *input ==> ab_positions_fit(triple_az(field_matvecs@), triple_bz(field_matvecs@), 1),
            *input ==> c_positions_fit(triple_cz(field_matvecs@)),
        ensures
            r matches Ok(s) && {
                &&& s.field.az@ == triple_az(field_matvecs@)
                &&& s.field.bz@ == triple_bz(field_matvecs@)
                &&& s.field.cz@ == triple_cz(field_matvecs@)
                &&& if *input {
                    s.small_abc matches Some(abc) && is_small_abc_of(s.field, 1, abc)
                } else {
                    s.small_abc is None
                }
            },
    {
        let field = FieldStepMatvecs::from_triples(field_matvecs);
        let small_abc = if *input {
            match build_small_abc_from_field(&field, 1) {
                Ok(abc) => Some(abc),
                Err(e) => {
                    return Err(e);
                },
            }
        } else {
            None
        };
        Ok(NeutronNovaStepMatvecs { field, small_abc })
    }
}

impl SmallValueNeutronNovaNIFS {
    /// The small-value backend always synthesises small-value witnesses.
    pub fn is_small(_input: &usize) -> (r: bool)
        ensures
            r,
    {
        true
    }

    /// Build the small-value step matvecs for `l0 = *input` rounds from
    /// per-instance field `(Az, Bz, Cz)` tables.
    pub fn build_step_matvecs_from_field(
        field_matvecs: Vec<(Vec<Scalar>, Vec<Scalar>, Vec<Scalar>)>,
        input: &usize,
    ) -> (r: Result<SmallValueNeutronNovaStepMatvecs, SpartanError>)
        requires
            ab_positions_fit(triple_az(field_matvecs@), triple_bz(field_matvecs@), *input as nat),
            c_positions_fit(triple_cz(field_matvecs@)),
        ensures
            r is Err <==> *input == 0,
            *input == 0 ==> fails_with(r, "small-value NeutronNova NIFS requires l0 > 0"@),
            r matches Ok(s) ==> {
                &&& s.field.az@ == triple_az(field_matvecs@)
                &&& s.field.bz@ == triple_bz(field_matvecs@)
                &&& s.field.cz@ == triple_cz(field_matvecs@)
                &&& is_small_abc_of(s.field, *input as nat, s.small_abc)
            },
    {
        if *input == 0 {
            return Err(invalid_input("small-value NeutronNova NIFS requires l0 > 0"));
        }
        let field = FieldStepMatvecs::from_triples(field_matvecs);
        let small_abc = match build_small_abc_from_field(&field, *input) {
            Ok(abc) => abc,
            Err(e) => {
                return Err(e);
            },
        };
        Ok(SmallValueNeutronNovaStepMatvecs { field, small_abc })
    }
}

/// Whether every position is below `len`.
pub open spec fn all_below(pos: Seq<usize>, len: int) -> bool {
    forall|p: int| 0 <= p < pos.len() ==> #[trigger] pos[p] < len
}

/// Whether layer `l` of the small cache agrees with the field tables at
/// position `k`, and the field tables satisfy `Az * Bz = Cz` there.
pub open spec fn cache_entry_ok(field: FieldStepMatvecs, abc: SmallAbcStepMatvecs, l: int, k: int) -> bool {
    let az = field.az@[l]@[k]@;
    let bz = field.bz@[l]@[k]@;
    let cz = field.cz@[l]@[k]@;
    &&& if abc.ab.large_positions@.contains(k as usize) {
        abc.ab.az_small@[l]@[k] == 0 && abc.ab.bz_small@[l]@[k] == 0
    } else {
        fmod(abc.ab.az_small@[l]@[k] as int) == az && fmod(abc.ab.bz_small@[l]@[k] as int) == bz
    }
    &&& if abc.c_large_positions@.contains(k as usize) {
        abc.cz_small@[l]@[k] == 0
    } else {
        fmod(abc.cz_small@[l]@[k] as int) == cz
    }
    &&& fmod((az * bz) as int) == cz
}

/// Whether the small `Az/Bz/Cz` cache is consistent with the field tables:
/// equal layer counts; and, when there are layers, increasing large-position
/// lists below the layer length, layers all of the first layer's length, zero
/// small entries at the listed positions, small entries that denote the
/// field entries elsewhere, and `Az * Bz = Cz` everywhere.
pub open spec fn small_abc_cache_valid(field: FieldStepMatvecs, abc: SmallAbcStepMatvecs) -> bool {
    let n = field.az@.len();
    &&& field.bz@.len() == n
    &&& field.cz@.len() == n
    &&& abc.ab.az_small@.len() == n
    &&& abc.ab.bz_small@.len() == n
    &&& abc.cz_small@.len() == n
    &&& n > 0 ==> {
        let len = field.az@[0]@.len() as int;
        &&& strictly_increasing(abc.ab.large_positions@)
        &&& all_below(abc.ab.large_positions@, len)
        &&& strictly_increasing(abc.c_large_positions@)
        &&& all_below(abc.c_large_positions@, len)
        &&& forall|l: int|
            0 <= l < n ==> {
                &&& (#[trigger] field.az@[l])@.len() == len
                &&& field.bz@[l]@.len() == len
                &&& field.cz@[l]@.len() == len
                &&& abc.ab.az_small@[l]@.len() == len
                &&& abc.ab.bz_small@[l]@.len() == len
                &&& abc.cz_small@[l]@.len() == len
            }
        &&& forall|l: int, k: int|
            0 <= l < n && 0 <= k < len ==> #[trigger] cache_entry_ok(field, abc, l, k)
    }
}

/// `a + decimal(n) + b + decimal(m)`.
pub open spec fn two_number_text(a: Seq<char>, n: int, b: Seq<char>, m: int) -> Seq<char> {
    a + decimal_text(n) + b + decimal_text(m)
}

/// The message of a failed check at layer `l`, index `k`: `head`, the layer,
/// ` index ` and the index.
pub open spec fn entry_text(head: Seq<char>, l: int, k: int) -> Seq<char> {
    two_number_text(head, l, " index "@, k)
}

/// The first failed check of layer `l` of the cache at position `k`, in the
/// order `Az`/`Bz` (zero at a large position, the field value elsewhere),
/// then `Cz` likewise, then `Az * Bz = Cz` in the field.
pub open spec fn entry_failure(field: FieldStepMatvecs, abc: SmallAbcStepMatvecs, l: int, k: int) -> Option<
    Seq<char>,
> {
    let az = field.az@[l]@[k]@;
    let bz = field.bz@[l]@[k]@;
    let cz = field.cz@[l]@[k]@;
    let az_small = abc.ab.az_small@[l]@[k];
    let bz_small = abc.ab.bz_small@[l]@[k];
    let cz_small = abc.cz_small@[l]@[k];
    if abc.ab.large_positions@.contains(k as usize) && az_small != 0 {
        Some(entry_text("A/B field-position small Az entry must be zero at layer "@, l, k))
    } else if abc.ab.large_positions@.contains(k as usize) && bz_small != 0 {
        Some(entry_text("A/B field-position small Bz entry must be zero at layer "@, l, k))
    } else if !abc.ab.large_positions@.contains(k as usize) && fmod(az_small as int) != az {
        Some(entry_text("small Az cache mismatch at layer "@, l, k))
    } else if !abc.ab.large_positions@.contains(k as usize) && fmod(bz_small as int) != bz {
        Some(entry_text("small Bz cache mismatch at layer "@, l, k))
    } else if abc.c_large_positions@.contains(k as usize) && cz_small != 0 {
        Some(entry_text("C field-position small Cz entry must be zero at layer "@, l, k))
    } else if !abc.c_large_positions@.contains(k as usize) && fmod(cz_small as int) != cz {
        Some(entry_text("small Cz cache mismatch at layer "@, l, k))
    } else if fmod((az * bz) as int) != cz {
        Some(entry_text("field Az*Bz != Cz at layer "@, l, k))
    } else {
        None
    }
}

/// The first failed length check of layer `l` against `len`, in the order
/// field `Az`, `Bz`, `Cz`, small `Az`, `Bz`, `Cz`.
pub open spec fn layer_length_failure(field: FieldStepMatvecs, abc: SmallAbcStepMatvecs, l: int, len: int) -> Option<
    Seq<char>,
> {
    if field.az@[l]@.len() != len {
        Some("field Az layer "@ + decimal_text(l) + " length mismatch"@)
    } else if field.bz@[l]@.len() != len {
        Some("field Bz layer "@ + decimal_text(l) + " length mismatch"@)
    } else if field.cz@[l]@.len() != len {
        Some("field Cz layer "@ + decimal_text(l) + " length mismatch"@)
    } else if abc.ab.az_small@[l]@.len() != len {
        Some("small Az layer "@ + decimal_text(l) + " length mismatch"@)
    } else if abc.ab.bz_small@[l]@.len() != len {
        Some("small Bz layer "@ + decimal_text(l) + " length mismatch"@)
    } else if abc.cz_small@[l]@.len() != len {
        Some("small Cz layer "@ + decimal_text(l) + " length mismatch"@)
    } else {
        None
    }
}

/// The first failed entry check of layer `l` at positions `from..len`.
pub open spec fn first_entry_failure(
    field: FieldStepMatvecs,
    abc: SmallAbcStepMatvecs,
    l: int,
    from: int,
    len: int,
) -> Option<Seq<char>>
    decreases len - from,
{
    if from < 0 || from >= len {
        None
    } else {
        match entry_failure(field, abc, l, from) {
            Some(m) => Some(m),
            None => first_entry_failure(field, abc, l, from + 1, len),
        }
    }
}

/// The first failed check of layers `from..n`: a layer's lengths, then its
/// entries in order.
pub open spec fn first_layer_failure(
    field: FieldStepMatvecs,
    abc: SmallAbcStepMatvecs,
    from: int,
    n: int,
    len: int,
) -> Option<Seq<char>>
    decreases n - from,
{
    if from < 0 || from >= n {
        None
    } else {
        match layer_length_failure(field, abc, from, len) {
            Some(m) => Some(m),
            None => match first_entry_failure(field, abc, from, 0, len) {
                Some(m) => Some(m),
                None => first_layer_failure(field, abc, from + 1, n, len),
            },
        }
    }
}

/// The first failed check of one large-position list against the layer
/// length `len`: order, then range.
pub open spec fn large_list_failure(label: Seq<char>, pos: Seq<usize>, len: int) -> Option<Seq<char>> {
    if !strictly_increasing(pos) {
        Some(label + " large positions must be sorted and unique"@)
    } else {
        match first_at_least(pos, len, 0) {
            Some(p) => Some(
                two_number_text(
                    label + " large position "@,
                    p as int,
                    " is out of range for layer length "@,
                    len,
                ),
            ),
            None => None,
        }
    }
}

/// The first failed check of the cache against the field tables, in the
/// order of [`check_small_abc_cache`]: layer counts, the `A/B` and
/// `C` large-position lists, then each layer in turn.
pub open spec fn cache_failure(field: FieldStepMatvecs, abc: SmallAbcStepMatvecs) -> Option<Seq<char>> {
    let n = field.az@.len();
    if field.bz@.len() != n {
        Some("field Az/Bz layer count mismatch"@)
    } else if field.cz@.len() != n {
        Some("field Az/Cz layer count mismatch"@)
    } else if abc.ab.az_small@.len() != n {
        Some("small Az layer count mismatch"@)
    } else if abc.ab.bz_small@.len() != n {
        Some("small Bz layer count mismatch"@)
    } else if abc.cz_small@.len() != n {
        Some("small Cz layer count mismatch"@)
    } else if n == 0 {
        None
    } else {
        let len = field.az@[0]@.len() as int;
        match large_list_failure("A/B"@, abc.ab.large_positions@, len) {
            Some(m) => Some(m),
            None => match large_list_failure("C"@, abc.c_large_positions@, len) {
                Some(m) => Some(m),
                None => first_layer_failure(field, abc, 0, n as int, len),
            },
        }
    }
}

/// Whether `k` is one of the positions.
fn contains_position(pos: &[usize], k: usize) -> (r: bool)
    ensures
        r == pos@.contains(k),
{
    let mut i: usize = 0;
    while i < pos.len()
        invariant
            i <= pos@.len(),
            forall|j: int| 0 <= j < i ==> pos@[j] != k,
        decreases pos@.len() - i,
    {
        if pos[i] == k {
            assert(pos@[i as int] == k);
            return true;
        }
        i = i + 1;
    }
    false
}

/// `first_at_least` is `None` exactly when every position from `from` on is
/// below the bound, and otherwise names one of them that is not.
proof fn lemma_first_at_least(pos: Seq<usize>, bound: int, from: int)
    requires
        0 <= from,
    ensures
        first_at_least(pos, bound, from) is None <==> forall|p: int|
            from <= p < pos.len() ==> #[trigger] pos[p] < bound,
        first_at_least(pos, bound, from) matches Some(v) ==> v >= bound,
    decreases pos.len() - from,
{
    if from < pos.len() {
        lemma_first_at_least(pos, bound, from + 1);
        if pos[from] < bound {
            assert forall|p: int| from + 1 <= p < pos.len() && #[trigger] pos[p] < bound implies true by {}
            assert((forall|p: int| from <= p < pos.len() ==> #[trigger] pos[p] < bound) <==> (forall|
                p: int,
            | from + 1 <= p < pos.len() ==> #[trigger] pos[p] < bound)) by {
                if forall|p: int| from + 1 <= p < pos.len() ==> #[trigger] pos[p] < bound {
                    assert forall|p: int| from <= p < pos.len() implies #[trigger] pos[p] < bound by {
                        if p > from {
                        }
                    }
                }
            }
        }
    }
}

/// `a + decimal(n) + b + decimal(m)` as a string.
fn two_number_message(a: &str, n: usize, b: &str, m: usize) -> (r: String)
    ensures
        r@ == two_number_text(a@, n as int, b@, m as int),
{
    let r = text_with_two_numbers(a, n, b, m, "");
    proof {
        reveal_strlit("");
        assert(r@ =~= two_number_text(a@, n as int, b@, m as int));
    }
    r
}

/// Check one large-position list against the layer length.
fn check_large_list(label: &str, pos: &[usize], len: usize) -> (r: Result<(), String>)
    ensures
        match large_list_failure(label@, pos@, len as int) {
            None => r is Ok,
            Some(m) => r matches Err(e) && e@ == m,
        },
{
    if !is_strictly_increasing(pos) {
        return Err(concat(label, " large positions must be sorted and unique"));
    }
    match find_first_at_least(pos, len) {
        Some(p) => {
            let head = concat(label, " large position ");
            Err(two_number_message(head.as_str(), p, " is out of range for layer length ", len))
        },
        None => Ok(()),
    }
}

/// Check layer `l` of the cache at position `k`.
fn check_cache_entry(field: &FieldStepMatvecs, abc: &SmallAbcStepMatvecs, l: usize, k: usize) -> (r:
    Result<(), String>)
    requires
        l < field.az@.len(),
        l < field.bz@.len(),
        l < field.cz@.len(),
        l < abc.ab.az_small@.len(),
        l < abc.ab.bz_small@.len(),
        l < abc.cz_small@.len(),
        k < field.az@[l as int]@.len(),
        k < field.bz@[l as int]@.len(),
        k < field.cz@[l as int]@.len(),
        k < abc.ab.az_small@[l as int]@.len(),
        k < abc.ab.bz_small@[l as int]@.len(),
        k < abc.cz_small@[l as int]@.len(),
    ensures
        r is Ok <==> cache_entry_ok(*field, *abc, l as int, k as int),
        match entry_failure(*field, *abc, l as int, k as int) {
            None => r is Ok,
            Some(m) => r matches Err(e) && e@ == m,
        },
{
    let az = field.az[l][k];
    let bz = field.bz[l][k];
    let cz = field.cz[l][k];
    let az_small = abc.ab.az_small[l][k];
    let bz_small = abc.ab.bz_small[l][k];
    let cz_small = abc.cz_small[l][k];
    if contains_position(abc.ab.large_positions.as_slice(), k) {
        if az_small != 0 {
            return Err(
                two_number_message(
                    "A/B field-position small Az entry must be zero at layer ",
                    l,
                    " index ",
                    k,
                ),
            );
        }
        if bz_small != 0 {
            return Err(
                two_number_message(
                    "A/B field-position small Bz entry must be zero at layer ",
                    l,
                    " index ",
                    k,
                ),
            );
        }
    } else {
        if !az_small.small_to_field().equals(&az) {
            return Err(two_number_message("small Az cache mismatch at layer ", l, " index ", k));
        }
        if !bz_small.small_to_field().equals(&bz) {
            return Err(two_number_message("small Bz cache mismatch at layer ", l, " index ", k));
        }
    }
    if contains_position(abc.c_large_positions.as_slice(), k) {
        if cz_small != 0 {
            return Err(
                two_number_message(
                    "C field-position small Cz entry must be zero at layer ",
                    l,
                    " index ",
                    k,
                ),
            );
        }
    } else {
        if !cz_small.small_to_field().equals(&cz) {
            return Err(two_number_message("small Cz cache mismatch at layer ", l, " index ", k));
        }
    }
    if !az.mul(&bz).equals(&cz) {
        return Err(two_number_message("field Az*Bz != Cz at layer ", l, " index ", k));
    }
    Ok(())
}

/// Check the lengths of layer `l` against `len`.
fn check_layer_lengths(field: &FieldStepMatvecs, abc: &SmallAbcStepMatvecs, l: usize, len: usize) -> (r:
    Result<(), String>)
    requires
        l < field.az@.len(),
        l < field.bz@.len(),
        l < field.cz@.len(),
        l < abc.ab.az_small@.len(),
        l < abc.ab.bz_small@.len(),
        l < abc.cz_small@.len(),
    ensures
        match layer_length_failure(*field, *abc, l as int, len as int) {
            None => r is Ok,
            Some(m) => r matches Err(e) && e@ == m,
        },
{
    if field.az[l].len() != len {
        return Err(text_with_number("field Az layer ", l, " length mismatch"));
    }
    if field.bz[l].len() != len {
        return Err(text_with_number("field Bz layer ", l, " length mismatch"));
    }
    if field.cz[l].len() != len {
        return Err(text_with_number("field Cz layer ", l, " length mismatch"));
    }
    if abc.ab.az_small[l].len() != len {
        return Err(text_with_number("small Az layer ", l, " length mismatch"));
    }
    if abc.ab.bz_small[l].len() != len {
        return Err(text_with_number("small Bz layer ", l, " length mismatch"));
    }
    if abc.cz_small[l].len() != len {
        return Err(text_with_number("small Cz layer ", l, " length mismatch"));
    }
    Ok(())
}

/// Check that the small `Az/Bz/Cz` cache is consistent with the field
/// tables, as [`small_abc_cache_valid`] states; on the first failed check,
/// return its message, as [`cache_failure`] states.
pub fn check_small_abc_cache(field: &FieldStepMatvecs, small_abc: &SmallAbcStepMatvecs) -> (r:
    Result<(), String>)
    ensures
        r is Ok <==> small_abc_cache_valid(*field, *small_abc),
        match cache_failure(*field, *small_abc) {
            None => r is Ok,
            Some(m) => r matches Err(e) && e@ == m,
        },
{
    let n = field.az.len();
    if field.bz.len() != n {
        return Err("field Az/Bz layer count mismatch".to_owned());
    }
    if field.cz.len() != n {
        return Err("field Az/Cz layer count mismatch".to_owned());
    }
    if small_abc.ab.az_small.len() != n {
        return Err("small Az layer count mismatch".to_owned());
    }
    if small_abc.ab.bz_small.len() != n {
        return Err("small Bz layer count mismatch".to_owned());
    }
    if small_abc.cz_small.len() != n {
        return Err("small Cz layer count mismatch".to_owned());
    }
    if n == 0 {
        return Ok(());
    }
    let layer_len = field.az[0].len();
    let ghost len = layer_len as int;
    proof {
        lemma_first_at_least(small_abc.ab.large_positions@, len, 0);
        lemma_first_at_least(small_abc.c_large_positions@, len, 0);
    }
    match check_large_list("A/B", small_abc.ab.large_positions.as_slice(), layer_len) {
        Ok(()) => {},
        Err(e) => {
            return Err(e);
        },
    }
    match check_large_list("C", small_abc.c_large_positions.as_slice(), layer_len) {
        Ok(()) => {},
        Err(e) => {
            return Err(e);
        },
    }
    let mut l: usize = 0;
    while l < n
        invariant
            l <= n,
            n == field.az@.len(),
            n == field.bz@.len(),
            n == field.cz@.len(),
            n == small_abc.ab.az_small@.len(),
            n == small_abc.ab.bz_small@.len(),
            n == small_abc.cz_small@.len(),
            n > 0,
            layer_len == field.az@[0]@.len(),
            cache_failure(*field, *small_abc) == first_layer_failure(
                *field,
                *small_abc,
                l as int,
                n as int,
                layer_len as int,
            ),
            strictly_increasing(small_abc.ab.large_positions@),
            all_below(small_abc.ab.large_positions@, layer_len as int),
            strictly_increasing(small_abc.c_large_positions@),
            all_below(small_abc.c_large_positions@, layer_len as int),
            forall|q: int|
                0 <= q < l ==> {
                    &&& (#[trigger] field.az@[q])@.len() == layer_len
                    &&& field.bz@[q]@.len() == layer_len
                    &&& field.cz@[q]@.len() == layer_len
                    &&& small_abc.ab.az_small@[q]@.len() == layer_len
                    &&& small_abc.ab.bz_small@[q]@.len() == layer_len
                    &&& small_abc.cz_small@[q]@.len() == layer_len
                },
            forall|q: int, k: int|
                0 <= q < l && 0 <= k < layer_len ==> #[trigger] cache_entry_ok(
                    *field,
                    *small_abc,
                    q,
                    k,
                ),
        decreases n - l,
    {
        match check_layer_lengths(field, small_abc, l, layer_len) {
            Ok(()) => {},
            Err(e) => {
                return Err(e);
            },
        }
        let mut k: usize = 0;
        while k < layer_len
            invariant
                k <= layer_len,
                l < n,
                n == field.az@.len(),
                n == field.bz@.len(),
                n == field.cz@.len(),
                n == small_abc.ab.az_small@.len(),
                n == small_abc.ab.bz_small@.len(),
                n == small_abc.cz_small@.len(),
                field.az@[l as int]@.len() == layer_len,
                field.bz@[l as int]@.len() == layer_len,
                field.cz@[l as int]@.len() == layer_len,
                small_abc.ab.az_small@[l as int]@.len() == layer_len,
                small_abc.ab.bz_small@[l as int]@.len() == layer_len,
                small_abc.cz_small@[l as int]@.len() == layer_len,
                layer_len == field.az@[0]@.len(),
                first_entry_failure(*field, *small_abc, l as int, 0, layer_len as int)
                    == first_entry_failure(*field, *small_abc, l as int, k as int, layer_len as int),
                cache_failure(*field, *small_abc) == first_layer_failure(
                    *field,
                    *small_abc,
                    l as int,
                    n as int,
                    layer_len as int,
                ),
                layer_length_failure(*field, *small_abc, l as int, layer_len as int) is None,
                forall|q: int|
                    0 <= q < l ==> {
                        &&& (#[trigger] field.az@[q])@.len() == layer_len
                        &&& field.bz@[q]@.len() == layer_len
                        &&& field.cz@[q]@.len() == layer_len
                        &&& small_abc.ab.az_small@[q]@.len() == layer_len
                        &&& small_abc.ab.bz_small@[q]@.len() == layer_len
                        &&& small_abc.cz_small@[q]@.len() == layer_len
                    },
                forall|q: int, j: int|
                    0 <= q < l && 0 <= j < layer_len ==> #[trigger] cache_entry_ok(
                        *field,
                        *small_abc,
                        q,
                        j,
                    ),
                forall|j: int| 0 <= j < k ==> #[trigger] cache_entry_ok(*field, *small_abc, l as int, j),
            decreases layer_len - k,
        {
            match check_cache_entry(field, small_abc, l, k) {
                Ok(()) => {},
                Err(e) => {
                    assert(!cache_entry_ok(*field, *small_abc, l as int, k as int));
                    return Err(e);
                },
            }
            k = k + 1;
        }
        assert(first_entry_failure(*field, *small_abc, l as int, layer_len as int, layer_len as int)
            is None);
        assert(first_layer_failure(*field, *small_abc, l as int, n as int, layer_len as int)
            == first_layer_failure(*field, *small_abc, l as int + 1, n as int, layer_len as int));
        assert forall|q: int| 0 <= q < l + 1 implies {
            &&& (#[trigger] field.az@[q])@.len() == layer_len
            &&& field.bz@[q]@.len() == layer_len
            &&& field.cz@[q]@.len() == layer_len
            &&& small_abc.ab.az_small@[q]@.len() == layer_len
            &&& small_abc.ab.bz_small@[q]@.len() == layer_len
            &&& small_abc.cz_small@[q]@.len() == layer_len
        } by {
            if q == l {
            }
        }
        l = l + 1;
    }
    Ok(())
}

/// Check the small-value step matvecs' cache against their field tables, as
/// [`check_small_abc_cache`] does.
pub fn check_small_value_step_matvecs(step_matvecs: &SmallValueNeutronNovaStepMatvecs) -> (r: Result<
    (),
    String,
>)
    ensures
        r is Ok <==> small_abc_cache_valid(step_matvecs.field, step_matvecs.small_abc),
        match cache_failure(step_matvecs.field, step_matvecs.small_abc) {
            None => r is Ok,
            Some(m) => r matches Err(e) && e@ == m,
        },
{
    check_small_abc_cache(&step_matvecs.field, &step_matvecs.small_abc)
}

/// The debug assertion that the small `Az/Bz/Cz` cache is consistent with
/// the field tables: it is only to be reached with a consistent cache, and
/// then returns normally. [`check_small_abc_cache`] reports the first failed
/// check of any cache.
pub fn debug_validate_small_abc_cache(field: &FieldStepMatvecs, small_abc: &SmallAbcStepMatvecs)
    requires
        small_abc_cache_valid(*field, *small_abc),
{
    let checked = check_small_abc_cache(field, small_abc);
    assert(checked is Ok);
}

/// The debug assertion that the small-value step matvecs' cache is
/// consistent with their field tables, as [`debug_validate_small_abc_cache`]
/// states.
pub fn debug_validate_small_value_step_matvecs(step_matvecs: &SmallValueNeutronNovaStepMatvecs)
    requires
        small_abc_cache_valid(step_matvecs.field, step_matvecs.small_abc),
{
    debug_validate_small_abc_cache(&step_matvecs.field, &step_matvecs.small_abc);
}

/// A position large in the first `m` layers of uniform length `len` lies
/// below `len`.
proof fn lemma_ab_large_in_range(
    az: Seq<Vec<Scalar>>,
    bz: Seq<Vec<Scalar>>,
    l0: nat,
    m: nat,
    k: int,
    len: int,
)
    requires
        m <= az.len(),
        m <= bz.len(),
        forall|l: int| 0 <= l < m ==> (#[trigger] az[l])@.len() == len && bz[l]@.len() == len,
        ab_large(az, bz, l0, m, k),
    ensures
        0 <= k < len,
    decreases m,
{
    if ab_large(az, bz, l0, (m - 1) as nat, k) {
        lemma_ab_large_in_range(az, bz, l0, (m - 1) as nat, k, len);
    } else {
        assert(az[m - 1]@.len() == len);
    }
}

/// A position large in the first `m` `Cz` layers of uniform length `len`
/// lies below `len`.
proof fn lemma_c_large_in_range(cz: Seq<Vec<Scalar>>, m: nat, k: int, len: int)
    requires
        m <= cz.len(),
        forall|l: int| 0 <= l < m ==> (#[trigger] cz[l])@.len() == len,
        c_large(cz, m, k),
    ensures
        0 <= k < len,
    decreases m,
{
    if c_large(cz, (m - 1) as nat, k) {
        lemma_c_large_in_range(cz, (m - 1) as nat, k, len);
    } else {
        assert(cz[m - 1]@.len() == len);
    }
}

/// Whether the field tables have equal layer counts, layers all of the first
/// `Az` layer's length, and satisfy `Az * Bz = Cz` entrywise.
pub open spec fn is_uniform_r1cs_table(field: FieldStepMatvecs) -> bool {
    let n = field.az@.len();
    let len = field.az@[0]@.len();
    &&& field.bz@.len() == n
    &&& field.cz@.len() == n
    &&& forall|l: int|
        0 <= l < n ==> (#[trigger] field.az@[l])@.len() == len && field.bz@[l]@.len() == len
            && field.cz@[l]@.len() == len
    &&& forall|l: int, k: int|
        0 <= l < n && 0 <= k < len ==> fmod(
            (#[trigger] field.az@[l]@[k]@ * field.bz@[l]@[k]@) as int,
        ) == field.cz@[l]@[k]@
}

/// A built cache validates: when the field tables have equal layer counts,
/// uniform layer lengths and satisfy `Az * Bz = Cz`, the small `Az/Bz/Cz`
/// cache that [`build_small_abc_from_field`] describes is valid: it passes
/// [`check_small_abc_cache`].
#[verifier::spinoff_prover]
#[verifier::rlimit(40)]
pub proof fn law_built_cache_is_valid(field: FieldStepMatvecs, l0: nat, abc: SmallAbcStepMatvecs)
    requires
        is_small_abc_of(field, l0, abc),
        is_uniform_r1cs_table(field),
        field.az@.len() > 0 ==> field.az@[0]@.len() <= usize::MAX,
    ensures
        small_abc_cache_valid(field, abc),
{
    let n = field.az@.len();
    let az = field.az@;
    let bz = field.bz@;
    let cz = field.cz@;
    if n > 0 {
        let len = az[0]@.len() as int;
        let ab_large_k = |k: int| ab_large(az, bz, l0, zipped_len(az, bz), k);
        let c_large_k = |k: int| c_large(cz, cz.len(), k);
        let ab_read = |v: nat| ab_reading(v, l0);
        let c_read = |v: nat| small_reading(v);
        assert(zipped_len(az, bz) == n);
        let abp = abc.ab.large_positions@;
        let cp = abc.c_large_positions@;
        assert forall|p: int| 0 <= p < abp.len() implies #[trigger] abp[p] < len by {
            assert(ab_large_k(abp[p] as int));
            lemma_ab_large_in_range(az, bz, l0, n, abp[p] as int, len);
        }
        assert forall|l: int| 0 <= l < n implies (#[trigger] cz[l])@.len() == len by {
            assert(az[l]@.len() == len);
        }
        assert forall|p: int| 0 <= p < cp.len() implies #[trigger] cp[p] < len by {
            assert(c_large_k(cp[p] as int));
            lemma_c_large_in_range(cz, n, cp[p] as int, len);
        }
        assert forall|p: int| 0 <= p < abp.len() - 1 implies #[trigger] abp[p] < abp[p + 1] by {}
        assert forall|p: int| 0 <= p < cp.len() - 1 implies #[trigger] cp[p] < cp[p + 1] by {}
        assert forall|l: int| 0 <= l < n implies {
            &&& (#[trigger] field.az@[l])@.len() == len
            &&& field.bz@[l]@.len() == len
            &&& field.cz@[l]@.len() == len
            &&& abc.ab.az_small@[l]@.len() == len
            &&& abc.ab.bz_small@[l]@.len() == len
            &&& abc.cz_small@[l]@.len() == len
        } by {
            assert(is_cached_layer(abc.ab.az_small@[l]@, az[l]@, ab_read, ab_large_k));
            assert(is_cached_layer(abc.cz_small@[l]@, cz[l]@, c_read, c_large_k));
        }
        assert forall|l: int, k: int| 0 <= l < n && 0 <= k < len implies #[trigger] cache_entry_ok(
            field,
            abc,
            l,
            k,
        ) by {
            lemma_built_entry_ok(field, l0, abc, l, k);
        }
    }
}

/// One entry of a built cache is consistent with the field tables.
#[verifier::rlimit(30)]
proof fn lemma_built_entry_ok(field: FieldStepMatvecs, l0: nat, abc: SmallAbcStepMatvecs, l: int, k: int)
    requires
        is_small_abc_of(field, l0, abc),
        is_uniform_r1cs_table(field),
        field.az@.len() > 0,
        field.az@[0]@.len() <= usize::MAX,
        0 <= l < field.az@.len(),
        0 <= k < field.az@[0]@.len(),
    ensures
        cache_entry_ok(field, abc, l, k),
{
    let n = field.az@.len();
    let az = field.az@;
    let bz = field.bz@;
    let cz = field.cz@;
    let len = az[0]@.len() as int;
    let ab_large_k = |k: int| ab_large(az, bz, l0, zipped_len(az, bz), k);
    let c_large_k = |k: int| c_large(cz, cz.len(), k);
    let ab_read = |v: nat| ab_reading(v, l0);
    let c_read = |v: nat| small_reading(v);
    assert(zipped_len(az, bz) == n);
    let abp = abc.ab.large_positions@;
    let cp = abc.c_large_positions@;
    assert(field.az@[l]@.len() == len);
    assert(az[l]@.len() == len && bz[l]@.len() == len && cz[l]@.len() == len);
    assert(is_cached_layer(abc.ab.az_small@[l]@, az[l]@, ab_read, ab_large_k));
    assert(is_cached_layer(abc.ab.bz_small@[l]@, bz[l]@, ab_read, ab_large_k));
    assert(is_cached_layer(abc.cz_small@[l]@, cz[l]@, c_read, c_large_k));
    let a_s = abc.ab.az_small@[l]@[k];
    let b_s = abc.ab.bz_small@[l]@[k];
    let c_s = abc.cz_small@[l]@[k];
    let ku = k as usize;
    assert(ku as int == k);
    if abp.contains(ku) {
        let w = choose|w: int| 0 <= w < abp.len() && abp[w] == ku;
        assert(ab_large_k(abp[w] as int));
    } else {
        if ab_large_k(k) {
            assert(ab_large_k(ku as int));
        }
        lemma_ab_large_mono(az, bz, l0, (l + 1) as nat, n, k);
        let va = az[l]@[k]@;
        let vb = bz[l]@[k]@;
        crate::field::lemma_scalar_lt_modulus(az[l]@[k]);
        crate::field::lemma_scalar_lt_modulus(bz[l]@[k]);
        lemma_field_to_int_denotes(va, i64::MIN as int, i64::MAX as int);
        lemma_field_to_int_denotes(vb, i64::MIN as int, i64::MAX as int);
    }
    if cp.contains(ku) {
        let w = choose|w: int| 0 <= w < cp.len() && cp[w] == ku;
        assert(c_large_k(cp[w] as int));
    } else {
        if c_large_k(k) {
            assert(c_large_k(ku as int));
        }
        lemma_c_large_mono(cz, (l + 1) as nat, n, k);
        let vc = cz[l]@[k]@;
        crate::field::lemma_scalar_lt_modulus(cz[l]@[k]);
        lemma_field_to_int_denotes(
            vc,
            -(crate::small_value::SMALL_VALUE_MAX as int),
            crate::small_value::SMALL_VALUE_MAX as int,
        );
    }
}

} // verus!
