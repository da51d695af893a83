//! Bounds certificate for native small-value Lagrange extension.
//!
//! A multilinear polynomial with small integer evaluations is extended, one
//! Boolean coordinate at a time, to the Lagrange domain
//! `U_D = {∞, 0, 1, ..., D - 1}`, and extended values are then multiplied in
//! pairs. Both steps run in native integers, so the original evaluations must
//! be small enough that neither overflows. This module computes that bound and
//! certifies polynomials against it.

use crate::errors::{concat, decimal_text, i128_to_decimal, usize_to_decimal, SpartanError};
use crate::field::Scalar;
use crate::multilinear::MultilinearPolynomial;
use crate::small_int::{ExtensionMagnitude, SmallValue};
use crate::small_value::field_to_int_in;
use std::collections::BTreeSet;
use std::marker::PhantomData;
use vstd::arithmetic::power::{pow, lemma_pow0, lemma_pow1, lemma_pow_adds, lemma_pow_multiplies, lemma_pow_positive};
use vstd::prelude::*;

verus! {

broadcast use vstd::std_specs::btree::group_btree_axioms;

/// `usize` keys are totally ordered as the set specifications need.
pub proof fn lemma_usize_keys_ordered()
    ensures
        vstd::laws_cmp::obeys_cmp::<usize>(),
{
    broadcast use vstd::laws_cmp::group_laws_cmp;

}

/// The keys of a set of positions, in iteration order, increase strictly.
pub proof fn lemma_position_keys_increase(s: Seq<&usize>)
    requires
        vstd::std_specs::btree::increasing_seq(s),
    ensures
        forall|i: int, j: int| 0 <= i < j < s.len() ==> *s[i] < *s[j],
{
    broadcast use vstd::laws_cmp::group_laws_cmp;

    assert forall|i: int, j: int| 0 <= i < j < s.len() implies *s[i] < *s[j] by {
        assert(vstd::std_specs::cmp::OrdSpec::cmp_spec(&s[i], &s[j]) is Less);
    }
}

/// Degree `D` of the accumulator tables of the small-value sum-check: `A * B`
/// relations give quadratic round polynomials.
pub const SMALL_VALUE_T_DEGREE: usize = 2;

// ---------------------------------------------------------------------------
// Specification.
// ---------------------------------------------------------------------------

/// The positions below `n` where `pred` holds.
pub open spec fn position_set(n: nat, pred: spec_fn(int) -> bool) -> Set<usize> {
    Set::new(|k: usize| (k as int) < n && pred(k as int))
}

/// The positions of a set in increasing order.
pub fn sorted_positions(set: &BTreeSet<usize>) -> (r: Vec<usize>)
    ensures
        forall|i: int, j: int| 0 <= i < j < r@.len() ==> r@[i] < r@[j],
        r@.to_set() == set@,
{
    proof {
        lemma_usize_keys_ordered();
        lemma_position_keys_increase(
            vstd::std_specs::iter::IteratorSpec::remaining(&vstd::std_specs::btree::spec_btree_keys_iter(set)),
        );
    }
    let ghost keys = vstd::std_specs::iter::IteratorSpec::remaining(
        &vstd::std_specs::btree::spec_btree_keys_iter(set),
    ).unref();
    proof {
        assert(keys.take(keys.len() as int) =~= keys);
    }
    let mut out: Vec<usize> = Vec::new();
    for idx in it: set.iter()
        invariant
            it.seq().unref() == keys,
            keys.to_set() == set@,
            forall|i: int, j: int| 0 <= i < j < keys.len() ==> keys[i] < keys[j],
            out@ == keys.take(it.index() as int),
    {
        let ghost j = it.index();
        proof {
            assert(keys[j] == *idx);
            assert(keys.take(j + 1) =~= keys.take(j).push(*idx));
        }
        out.push(*idx);
    }
    out
}

/// Absolute value.
pub open spec fn abs_int(x: int) -> int {
    if x < 0 {
        -x
    } else {
        x
    }
}

/// Worst growth `H_D = max(2, 2D - 3)` of one extension round over `U_D`.
pub open spec fn step_growth(d: nat) -> int {
    if d <= 2 {
        2
    } else {
        2 * d - 3
    }
}

/// Whether computing `H_D` in a type with maximum `max` stays in range.
pub open spec fn step_growth_fits(d: nat, max: int) -> bool {
    d <= 2 || 2 * d <= max
}

/// Truncated square root.
pub open spec fn floor_sqrt(n: nat) -> nat
    decreases n,
{
    if n == 0 {
        0
    } else {
        let s = floor_sqrt((n - 1) as nat);
        if (s + 1) * (s + 1) <= n {
            s + 1
        } else {
            s
        }
    }
}

pub open spec fn min_int(a: int, b: int) -> int {
    if a <= b {
        a
    } else {
        b
    }
}

/// Largest original evaluation magnitude that survives `rounds` extension
/// rounds in a type with maximum `sv_max` and a following pairwise product in a
/// type with maximum `p_max`: `min(sv_max, floor(sqrt(p_max))) / H_D^rounds`, or
/// 0 when the growth factor itself does not fit.
pub open spec fn product_input_bound(sv_max: int, p_max: int, d: nat, rounds: nat) -> int {
    let g = pow(step_growth(d), rounds);
    let limit = min_int(min_int(sv_max, p_max), floor_sqrt(p_max as nat) as int);
    if !step_growth_fits(d, p_max) || g > p_max || g > limit {
        0
    } else {
        limit / g
    }
}

/// Largest original evaluation magnitude that survives `rounds` extension
/// rounds in a type with maximum `sv_max`, computed in a magnitude type with
/// maximum `m_max`.
pub open spec fn fit_input_bound(sv_max: int, m_max: int, d: nat, rounds: nat) -> int {
    let g = pow(step_growth(d), rounds);
    let limit = min_int(sv_max, m_max);
    if !step_growth_fits(d, m_max) || g > m_max || g > limit {
        0
    } else {
        limit / g
    }
}

/// The small value that a field element denotes, when it lies in `[min, max]`
/// and its magnitude is at most `bound`.
pub open spec fn bounded_reading(v: nat, min: int, max: int, bound: int) -> Option<int> {
    match field_to_int_in(v, min, max) {
        Some(x) => if abs_int(x) <= bound {
            Some(x)
        } else {
            None
        },
        None => None,
    }
}

/// Text of the context of an overflow error.
pub open spec fn overflow_context_text(
    context: Seq<char>,
    bound_name: Seq<char>,
    max_abs: int,
    d: int,
    rounds: int,
) -> Seq<char> {
    context + ": small-value Lagrange "@ + bound_name + " bound exceeded: max_abs="@ + decimal_text(
        max_abs,
    ) + ", D="@ + decimal_text(d) + ", rounds="@ + decimal_text(rounds)
}

/// Text naming the offending value of an overflow error.
pub open spec fn overflow_value_text(value_abs: int, m_max: int) -> Seq<char> {
    if value_abs <= m_max {
        decimal_text(value_abs)
    } else {
        "magnitude exceeds bound type"@
    }
}

/// Whether `e` is the overflow error for a value of magnitude `value_abs`.
pub open spec fn is_overflow_error(
    e: SpartanError,
    value_abs: int,
    m_max: int,
    context: Seq<char>,
    bound_name: Seq<char>,
    max_abs: int,
    d: int,
    rounds: int,
) -> bool {
    e matches SpartanError::SmallValueOverflow { value, context: ctx } && value@
        == overflow_value_text(value_abs, m_max) && ctx@ == overflow_context_text(
        context,
        bound_name,
        max_abs,
        d,
        rounds,
    )
}

/// Whether a check of `vals` against `max_abs` answered as it should: `Ok` when
/// every magnitude is within the bound, otherwise the overflow error for the
/// first value beyond it.
pub open spec fn check_outcome(
    r: Result<(), SpartanError>,
    vals: Seq<int>,
    max_abs: int,
    m_max: int,
    context: Seq<char>,
    bound_name: Seq<char>,
    d: int,
    rounds: int,
) -> bool {
    match r {
        Ok(()) => forall|i: int| 0 <= i < vals.len() ==> abs_int(#[trigger] vals[i]) <= max_abs,
        Err(e) => exists|j: int|
            0 <= j < vals.len() && (forall|i: int|
                0 <= i < j ==> abs_int(#[trigger] vals[i]) <= max_abs) && abs_int(#[trigger] vals[j])
                > max_abs && is_overflow_error(
                e,
                abs_int(vals[j]),
                m_max,
                context,
                bound_name,
                max_abs,
                d,
                rounds,
            ),
    }
}

/// The integers that a sequence of native values denotes.
pub open spec fn int_vals<T: ExtensionMagnitude>(s: Seq<T>) -> Seq<int> {
    s.map_values(|x: T| x.int_val())
}

// ---------------------------------------------------------------------------
// Lemmas.
// ---------------------------------------------------------------------------

/// `floor_sqrt(n)` is the truncated square root of `n`.
pub proof fn lemma_floor_sqrt(n: nat)
    ensures
        floor_sqrt(n) * floor_sqrt(n) <= n,
        n < (floor_sqrt(n) + 1) * (floor_sqrt(n) + 1),
    decreases n,
{
    if n > 0 {
        lemma_floor_sqrt((n - 1) as nat);
        let s = floor_sqrt((n - 1) as nat);
        let f = floor_sqrt(n);
        if (s + 1) * (s + 1) <= n {
            assert(f == s + 1);
            assert(f * f <= n);
            assert(n < (f + 1) * (f + 1)) by (nonlinear_arith)
                requires
                    n - 1 < (s + 1) * (s + 1),
                    f == s + 1,
            ;
        } else {
            assert(f == s);
            assert(f * f <= n);
            assert(n < (f + 1) * (f + 1));
        }
    } else {
        let f = floor_sqrt(0);
        assert(f == 0);
        assert(f * f <= 0 && 0 < (f + 1) * (f + 1)) by (nonlinear_arith)
            requires
                f == 0,
        ;
    }
}

/// The truncated square root is unique.
pub proof fn lemma_floor_sqrt_unique(n: nat, r: int)
    requires
        r >= 0,
        r * r <= n < (r + 1) * (r + 1),
    ensures
        r == floor_sqrt(n),
{
    lemma_floor_sqrt(n);
    let s = floor_sqrt(n) as int;
    if r < s {
        assert((r + 1) * (r + 1) <= s * s) by (nonlinear_arith)
            requires
                0 <= r < s,
        ;
    }
    if s < r {
        assert((s + 1) * (s + 1) <= r * r) by (nonlinear_arith)
            requires
                0 <= s < r,
        ;
    }
}

/// Both input bounds are non-negative.
pub proof fn lemma_input_bounds_nonneg(sv_max: int, p_max: int, d: nat, rounds: nat)
    requires
        sv_max >= 0,
        p_max >= 0,
    ensures
        product_input_bound(sv_max, p_max, d, rounds) >= 0,
        fit_input_bound(sv_max, p_max, d, rounds) >= 0,
{
    lemma_pow_ge_one(step_growth(d), rounds);
    let g = pow(step_growth(d), rounds);
    let lim = min_int(min_int(sv_max, p_max), floor_sqrt(p_max as nat) as int);
    let lim2 = min_int(sv_max, p_max);
    vstd::arithmetic::div_mod::lemma_div_pos_is_pos(lim, g);
    vstd::arithmetic::div_mod::lemma_div_pos_is_pos(lim2, g);
}

/// One step of exponentiation by squaring.
proof fn lemma_pow_halving(b: int, e: nat)
    ensures
        pow(b, e) == pow(b, e % 2) * pow(b * b, e / 2),
        e % 2 == 0 ==> pow(b, e % 2) == 1,
        e % 2 == 1 ==> pow(b, e % 2) == b,
{
    lemma_pow0(b);
    lemma_pow1(b);
    vstd::arithmetic::power::lemma_square_is_pow2(b);
    lemma_pow_multiplies(b, 2, e / 2);
    lemma_pow_adds(b, e % 2, 2 * (e / 2));
}

/// Powers of a number at least one are at least one.
proof fn lemma_pow_ge_one(b: int, e: nat)
    requires
        b >= 1,
    ensures
        pow(b, e) >= 1,
{
    lemma_pow_positive(b, e);
}

// ---------------------------------------------------------------------------
// Growth and bounds.
// ---------------------------------------------------------------------------

/// Worst growth `H_D = max(2, 2D - 3)` of one extension round, computed in `T`.
///
/// Fix every coordinate except the one being extended. Along that coordinate
/// an MLE is the line `p(t) = (1 - t) p(0) + t p(1)`. If both endpoints have
/// magnitude at most `B`, the finite point `t = D - 1` gives at most
/// `(|2 - D| + |D - 1|) B = (2D - 3) B` for `D >= 2`, and the point `∞`, which
/// stores the leading coefficient `p(1) - p(0)`, gives at most `2B`.
pub fn extension_step_growth<T: ExtensionMagnitude, const D: usize>() -> (r: Option<T>)
    ensures
        r is Some <==> step_growth_fits(D as nat, T::max_int()),
        r matches Some(g) ==> g.int_val() == step_growth(D as nat),
{
    proof {
        T::lemma_bounds();
    }
    let two = match T::from_usize(2) {
        Some(two) => two,
        None => {
            return None;
        },
    };
    if D <= 2 {
        Some(two)
    } else {
        let d = match T::from_usize(D) {
            Some(d) => d,
            None => {
                return None;
            },
        };
        let doubled = match d.checked_mul_mag(two) {
            Some(v) => v,
            None => {
                return None;
            },
        };
        let three = match T::from_usize(3) {
            Some(three) => three,
            None => {
                return None;
            },
        };
        doubled.checked_sub_mag(three)
    }
}

/// `base^exp` by repeated squaring, `None` when an intermediate product
/// overflows `T`.
pub fn checked_pow<T: ExtensionMagnitude>(base: T, exp: usize) -> (r: Option<T>)
    ensures
        r matches Some(v) ==> v.int_val() == pow(base.int_val(), exp as nat),
        base.int_val() >= 0 ==> (r is Some <==> pow(base.int_val(), exp as nat) <= T::max_int()),
{
    let ghost total = pow(base.int_val(), exp as nat);
    let mut acc = match T::from_usize(1) {
        Some(one) => one,
        None => {
            proof {
                T::lemma_range(base);
            }
            return None;
        },
    };
    let mut b = base;
    let mut e = exp;
    proof {
        lemma_pow1(base.int_val());
    }
    while e > 0
        invariant
            acc.int_val() * pow(b.int_val(), e as nat) == total,
            total == pow(base.int_val(), exp as nat),
            base.int_val() >= 1 ==> acc.int_val() >= 1 && b.int_val() >= 1,
            base.int_val() == 0 ==> b.int_val() == 0 && acc.int_val() >= 0,
        decreases e,
    {
        proof {
            lemma_pow_halving(b.int_val(), e as nat);
            lemma_pow0(b.int_val());
            T::lemma_range(b);
            T::lemma_range(acc);
            if base.int_val() >= 1 {
                assert(b.int_val() * b.int_val() >= 1) by (nonlinear_arith)
                    requires
                        b.int_val() >= 1,
                ;
            }
        }
        let ghost bb = b.int_val() * b.int_val();
        let ghost half = (e / 2) as nat;
        if e % 2 == 1 {
            match acc.checked_mul_mag(b) {
                Some(v) => {
                    proof {
                        assert(v.int_val() * pow(bb, half) == total) by (nonlinear_arith)
                            requires
                                v.int_val() == acc.int_val() * b.int_val(),
                                acc.int_val() * (b.int_val() * pow(bb, half)) == total,
                        ;
                        if base.int_val() >= 1 {
                            assert(v.int_val() >= 1) by (nonlinear_arith)
                                requires
                                    v.int_val() == acc.int_val() * b.int_val(),
                                    acc.int_val() >= 1,
                                    b.int_val() >= 1,
                            ;
                        }
                        if base.int_val() == 0 {
                            assert(v.int_val() == 0) by (nonlinear_arith)
                                requires
                                    v.int_val() == acc.int_val() * b.int_val(),
                                    b.int_val() == 0,
                            ;
                        }
                    }
                    acc = v;
                },
                None => {
                    proof {
                        if base.int_val() >= 0 {
                            if base.int_val() == 0 {
                                assert(acc.int_val() * b.int_val() == 0) by (nonlinear_arith)
                                    requires
                                        b.int_val() == 0,
                                ;
                            }
                            lemma_pow_ge_one(bb, half);
                            assert(total > T::max_int()) by (nonlinear_arith)
                                requires
                                    acc.int_val() * b.int_val() > T::max_int(),
                                    acc.int_val() >= 1,
                                    b.int_val() >= 1,
                                    pow(bb, half) >= 1,
                                    total == acc.int_val() * (b.int_val() * pow(bb, half)),
                            ;
                        }
                    }
                    return None;
                },
            }
        } else {
            proof {
                assert(acc.int_val() * pow(bb, half) == total);
            }
        }
        e = e / 2;
        if e > 0 {
            match b.checked_mul_mag(b) {
                Some(v) => {
                    proof {
                        if base.int_val() >= 1 {
                            assert(v.int_val() >= 1) by (nonlinear_arith)
                                requires
                                    v.int_val() == b.int_val() * b.int_val(),
                                    b.int_val() >= 1,
                            ;
                        }
                    }
                    b = v;
                },
                None => {
                    proof {
                        if base.int_val() >= 0 {
                            if base.int_val() == 0 {
                                assert(b.int_val() * b.int_val() == 0);
                            }
                            assert(half >= 1);
                            lemma_pow_adds(bb, 1, (half - 1) as nat);
                            lemma_pow1(bb);
                            lemma_pow_ge_one(bb, (half - 1) as nat);
                            assert(total > T::max_int()) by (nonlinear_arith)
                                requires
                                    bb > T::max_int(),
                                    T::max_int() >= 0,
                                    acc.int_val() >= 1,
                                    pow(bb, (half - 1) as nat) >= 1,
                                    total == acc.int_val() * (bb * pow(bb, (half - 1) as nat)),
                            ;
                        }
                    }
                    return None;
                },
            }
        }
    }
    proof {
        lemma_pow0(b.int_val());
        T::lemma_range(acc);
    }
    Some(acc)
}

/// The largest value of `T`, converted to `M` when it fits.
pub fn max_abs<T: ExtensionMagnitude, M: ExtensionMagnitude>() -> (r: Option<M>)
    ensures
        r is Some <==> T::max_int() <= M::max_int(),
        r matches Some(v) ==> v.int_val() == T::max_int(),
{
    proof {
        T::lemma_bounds();
        M::lemma_bounds();
    }
    M::from_i128(T::max_value().to_i128())
}

/// The magnitude of `value`, converted to `M` when it fits.
pub fn abs_as<T: ExtensionMagnitude, M: ExtensionMagnitude>(value: T) -> (r: Option<M>)
    ensures
        r is Some <==> abs_int(value.int_val()) <= M::max_int(),
        r matches Some(v) ==> v.int_val() == abs_int(value.int_val()),
{
    proof {
        T::lemma_range(value);
        M::lemma_bounds();
    }
    let v = match M::from_i128(value.to_i128()) {
        Some(v) => v,
        None => {
            return None;
        },
    };
    if v.le_mag(M::zero()) && !M::zero().le_mag(v) {
        v.checked_neg_mag()
    } else {
        Some(v)
    }
}

/// Maximum absolute MLE evaluation safe for `rounds` rounds of native
/// Lagrange extension over `U_D` into `SV` followed by a pairwise native
/// product in `Product`.
///
/// With `H_D` the growth of one round, every original evaluation `B` must
/// satisfy `B * H_D^rounds <= SV_max` and `(B * H_D^rounds)^2 <= Product_max`,
/// so the bound is `min(SV_max, floor(sqrt(Product_max))) / H_D^rounds`, and 0
/// when the growth factor does not fit in `Product` or exceeds that limit.
pub fn max_extension_input_abs_for_rounds<
    SV: SmallValue,
    Product: ExtensionMagnitude,
    const D: usize,
>(rounds: usize) -> (r: Product)
    ensures
        r.int_val() == product_input_bound(
            SV::max_int(),
            Product::max_int(),
            D as nat,
            rounds as nat,
        ),
{
    proof {
        Product::lemma_bounds();
        SV::lemma_bounds();
    }
    let growth = match extension_step_growth::<Product, D>() {
        Some(base) => match checked_pow(base, rounds) {
            Some(g) => g,
            None => {
                return Product::zero();
            },
        },
        None => {
            return Product::zero();
        },
    };
    let extension_limit = match max_abs::<SV, Product>() {
        Some(v) => v,
        None => Product::max_value(),
    };
    let product_max = match max_abs::<Product, Product>() {
        Some(v) => v,
        None => {
            return Product::zero();
        },
    };
    let product_limit = product_max.isqrt();
    proof {
        lemma_floor_sqrt_unique(Product::max_int() as nat, product_limit.int_val());
        lemma_floor_sqrt(Product::max_int() as nat);
        let s = product_limit.int_val();
        assert(s <= Product::max_int()) by (nonlinear_arith)
            requires
                s >= 0,
                s * s <= Product::max_int(),
        {
            if s > Product::max_int() {
                assert(s * s > s * 1);
            }
        }
    }
    let limit = if extension_limit.le_mag(product_limit) {
        extension_limit
    } else {
        product_limit
    };
    if !growth.le_mag(limit) {
        return Product::zero();
    }
    proof {
        lemma_pow_ge_one(step_growth(D as nat), rounds as nat);
    }
    limit.div_nonneg(growth)
}

/// Maximum absolute MLE evaluation safe for `rounds` rounds of native
/// Lagrange extension over `U_D` into `SV`, with no following product: the
/// bound for linear terms such as `Cz`.
pub fn max_extension_fit_input_abs_for_rounds<
    SV: SmallValue,
    Magnitude: ExtensionMagnitude,
    const D: usize,
>(rounds: usize) -> (r: Magnitude)
    ensures
        r.int_val() == fit_input_bound(SV::max_int(), Magnitude::max_int(), D as nat, rounds as nat),
{
    proof {
        Magnitude::lemma_bounds();
        SV::lemma_bounds();
    }
    let growth = match extension_step_growth::<Magnitude, D>() {
        Some(base) => match checked_pow(base, rounds) {
            Some(g) => g,
            None => {
                return Magnitude::zero();
            },
        },
        None => {
            return Magnitude::zero();
        },
    };
    let limit = match max_abs::<SV, Magnitude>() {
        Some(v) => v,
        None => Magnitude::max_value(),
    };
    if !growth.le_mag(limit) {
        return Magnitude::zero();
    }
    proof {
        lemma_pow_ge_one(step_growth(D as nat), rounds as nat);
    }
    limit.div_nonneg(growth)
}

/// [`max_extension_input_abs_for_rounds`] with the round count `LB`.
pub fn max_extension_input_abs<
    SV: SmallValue,
    Product: ExtensionMagnitude,
    const D: usize,
    const LB: usize,
>() -> (r: Product)
    ensures
        r.int_val() == product_input_bound(SV::max_int(), Product::max_int(), D as nat, LB as nat),
{
    max_extension_input_abs_for_rounds::<SV, Product, D>(LB)
}

/// [`max_extension_fit_input_abs_for_rounds`] with the round count `LB`.
pub fn max_extension_fit_input_abs<
    SV: SmallValue,
    Magnitude: ExtensionMagnitude,
    const D: usize,
    const LB: usize,
>() -> (r: Magnitude)
    ensures
        r.int_val() == fit_input_bound(SV::max_int(), Magnitude::max_int(), D as nat, LB as nat),
{
    max_extension_fit_input_abs_for_rounds::<SV, Magnitude, D>(LB)
}


// ---------------------------------------------------------------------------
// Checks.
// ---------------------------------------------------------------------------

/// The context text of an overflow error.
fn overflow_context(
    context: &str,
    bound_name: &str,
    max_abs: i128,
    d: usize,
    rounds: usize,
) -> (r: String)
    ensures
        r@ == overflow_context_text(context@, bound_name@, max_abs as int, d as int, rounds as int),
{
    let s = concat(context, ": small-value Lagrange ");
    let s = concat(s.as_str(), bound_name);
    let s = concat(s.as_str(), " bound exceeded: max_abs=");
    let m = i128_to_decimal(max_abs);
    let s = concat(s.as_str(), m.as_str());
    let s = concat(s.as_str(), ", D=");
    let t = usize_to_decimal(d);
    let s = concat(s.as_str(), t.as_str());
    let s = concat(s.as_str(), ", rounds=");
    let u = usize_to_decimal(rounds);
    concat(s.as_str(), u.as_str())
}

/// Check original evaluations against a magnitude bound: `Ok` when every
/// magnitude is at most `max_abs`, otherwise the overflow error for the first
/// value beyond it.
pub fn check_extension_values_against_bound<
    SV: SmallValue,
    Magnitude: ExtensionMagnitude,
    const D: usize,
>(
    values: &[SV],
    max_abs: Magnitude,
    rounds: usize,
    context: &str,
    bound_name: &str,
) -> (r: Result<(), SpartanError>)
    ensures
        check_outcome(
            r,
            int_vals(values@),
            max_abs.int_val(),
            Magnitude::max_int(),
            context@,
            bound_name@,
            D as int,
            rounds as int,
        ),
{
    proof {
        Magnitude::lemma_range(max_abs);
    }
    let ghost vals = int_vals(values@);
    let mut i: usize = 0;
    while i < values.len()
        invariant
            i <= values@.len(),
            vals == int_vals(values@),
            Magnitude::min_int() <= max_abs.int_val() <= Magnitude::max_int(),
            forall|j: int| 0 <= j < i ==> abs_int(#[trigger] vals[j]) <= max_abs.int_val(),
        decreases values@.len() - i,
    {
        assert(vals[i as int] == values@[i as int].int_val());
        match abs_as::<SV, Magnitude>(values[i]) {
            None => {
                let e = SpartanError::SmallValueOverflow {
                    value: "magnitude exceeds bound type".to_owned(),
                    context: overflow_context(
                        context,
                        bound_name,
                        max_abs.to_i128(),
                        D,
                        rounds,
                    ),
                };
                assert(is_overflow_error(
                    e,
                    abs_int(vals[i as int]),
                    Magnitude::max_int(),
                    context@,
                    bound_name@,
                    max_abs.int_val(),
                    D as int,
                    rounds as int,
                ));
                return Err(e);
            },
            Some(value_abs) => {
                if !value_abs.le_mag(max_abs) {
                    let e = SpartanError::SmallValueOverflow {
                        value: i128_to_decimal(value_abs.to_i128()),
                        context: overflow_context(
                            context,
                            bound_name,
                            max_abs.to_i128(),
                            D,
                            rounds,
                        ),
                    };
                    assert(is_overflow_error(
                        e,
                        abs_int(vals[i as int]),
                        Magnitude::max_int(),
                        context@,
                        bound_name@,
                        max_abs.int_val(),
                        D as int,
                        rounds as int,
                    ));
                    return Err(e);
                }
            },
        }
        i = i + 1;
    }
    Ok(())
}

/// Check that original evaluations are safe for `rounds` rounds of native
/// extension over `U_D` followed by a pairwise native product.
pub fn check_extension_bound_values_for_rounds<
    SV: SmallValue,
    Product: ExtensionMagnitude,
    const D: usize,
>(values: &[SV], rounds: usize, context: &str) -> (r: Result<(), SpartanError>)
    ensures
        check_outcome(
            r,
            int_vals(values@),
            product_input_bound(SV::max_int(), Product::max_int(), D as nat, rounds as nat),
            Product::max_int(),
            context@,
            "extension/product"@,
            D as int,
            rounds as int,
        ),
{
    let max_abs = max_extension_input_abs_for_rounds::<SV, Product, D>(rounds);
    check_extension_values_against_bound::<SV, Product, D>(
        values,
        max_abs,
        rounds,
        context,
        "extension/product",
    )
}

/// Check that original evaluations are safe for `rounds` rounds of native
/// extension over `U_D`, with no following product.
pub fn check_extension_fit_bound_values_for_rounds<
    SV: SmallValue,
    Magnitude: ExtensionMagnitude,
    const D: usize,
>(values: &[SV], rounds: usize, context: &str) -> (r: Result<(), SpartanError>)
    ensures
        check_outcome(
            r,
            int_vals(values@),
            fit_input_bound(SV::max_int(), Magnitude::max_int(), D as nat, rounds as nat),
            Magnitude::max_int(),
            context@,
            "extension"@,
            D as int,
            rounds as int,
        ),
{
    let max_abs = max_extension_fit_input_abs_for_rounds::<SV, Magnitude, D>(rounds);
    check_extension_values_against_bound::<SV, Magnitude, D>(
        values,
        max_abs,
        rounds,
        context,
        "extension",
    )
}

/// [`check_extension_bound_values_for_rounds`] on a polynomial's evaluation
/// table, with `LB` rounds.
pub fn check_extension_bound<SV: SmallValue, Product: ExtensionMagnitude, const D: usize, const LB: usize>(
    poly: &MultilinearPolynomial<SV>,
) -> (r: Result<(), SpartanError>)
    ensures
        check_outcome(
            r,
            int_vals(poly.Z@),
            product_input_bound(SV::max_int(), Product::max_int(), D as nat, LB as nat),
            Product::max_int(),
            "small-value polynomial"@,
            "extension/product"@,
            D as int,
            LB as int,
        ),
{
    check_extension_bound_values_for_rounds::<SV, Product, D>(
        poly.Z.as_slice(),
        LB,
        "small-value polynomial",
    )
}

/// [`check_extension_fit_bound_values_for_rounds`] on a polynomial's
/// evaluation table, with `LB` rounds.
pub fn check_extension_fit_bound<SV: SmallValue, Magnitude: ExtensionMagnitude, const D: usize, const LB: usize>(
    poly: &MultilinearPolynomial<SV>,
) -> (r: Result<(), SpartanError>)
    ensures
        check_outcome(
            r,
            int_vals(poly.Z@),
            fit_input_bound(SV::max_int(), Magnitude::max_int(), D as nat, LB as nat),
            Magnitude::max_int(),
            "small-value polynomial"@,
            "extension"@,
            D as int,
            LB as int,
        ),
{
    check_extension_fit_bound_values_for_rounds::<SV, Magnitude, D>(
        poly.Z.as_slice(),
        LB,
        "small-value polynomial",
    )
}

/// Whether the magnitude of `value` is at most `max_abs`.
pub fn small_value_fits_abs_bound<SV: ExtensionMagnitude, Magnitude: ExtensionMagnitude>(
    value: SV,
    max_abs: Magnitude,
) -> (r: bool)
    ensures
        r == (abs_int(value.int_val()) <= max_abs.int_val()),
{
    proof {
        Magnitude::lemma_range(max_abs);
    }
    match abs_as::<SV, Magnitude>(value) {
        Some(value_abs) => value_abs.le_mag(max_abs),
        None => false,
    }
}

/// Whether `small` keeps each field value that denotes an `SV` of magnitude at
/// most `bound`, and stores zero for every other one.
pub open spec fn is_bounded_small_view<SV: ExtensionMagnitude>(
    small: Seq<SV>,
    values: Seq<Scalar>,
    bound: int,
) -> bool {
    &&& small.len() == values.len()
    &&& forall|i: int|
        0 <= i < values.len() ==> match #[trigger] bounded_reading(
            values[i]@,
            SV::min_int(),
            SV::max_int(),
            bound,
        ) {
            Some(x) => small[i].int_val() == x,
            None => small[i] == SV::zero_value() && small[i].int_val() == 0,
        }
}

/// Convert field elements into bounded small values.
///
/// Values that do not denote an `SV`, or whose magnitude exceeds `max_abs`,
/// become zero, and the set of their positions is returned.
pub fn field_values_to_small_or_zero_with_bound<SV: SmallValue, Magnitude: ExtensionMagnitude>(
    values: &[Scalar],
    max_abs: Magnitude,
) -> (r: (Vec<SV>, BTreeSet<usize>))
    ensures
        is_bounded_small_view(r.0@, values@, max_abs.int_val()),
        r.1@ == position_set(
            values@.len(),
            |i: int|
                bounded_reading(values@[i]@, SV::min_int(), SV::max_int(), max_abs.int_val()) is None,
        ),
{
    let ghost pred = |i: int|
        bounded_reading(values@[i]@, SV::min_int(), SV::max_int(), max_abs.int_val()) is None;
    let mut small: Vec<SV> = Vec::new();
    let mut field_positions: BTreeSet<usize> = BTreeSet::new();
    proof {
        lemma_usize_keys_ordered();
        assert(field_positions@ =~= position_set(0, pred));
    }
    let mut idx: usize = 0;
    while idx < values.len()
        invariant
            idx <= values@.len(),
            pred == (|i: int|
                bounded_reading(values@[i]@, SV::min_int(), SV::max_int(), max_abs.int_val()) is None),
            small@.len() == idx,
            forall|i: int|
                0 <= i < idx ==> match #[trigger] bounded_reading(
                    values@[i]@,
                    SV::min_int(),
                    SV::max_int(),
                    max_abs.int_val(),
                ) {
                    Some(x) => small@[i].int_val() == x,
                    None => small@[i] == SV::zero_value() && small@[i].int_val() == 0,
                },
            field_positions@ == position_set(idx as nat, pred),
        decreases values@.len() - idx,
    {
        let kept = match SV::try_field_to_small(&values[idx]) {
            Some(small_value) => {
                if small_value_fits_abs_bound::<SV, Magnitude>(small_value, max_abs) {
                    Some(small_value)
                } else {
                    None
                }
            },
            None => None,
        };
        match kept {
            Some(small_value) => {
                small.push(small_value);
            },
            None => {
                small.push(SV::zero());
                assert(pred(idx as int));
                proof {
                    lemma_usize_keys_ordered();
                }
                field_positions.insert(idx);
            },
        }
        proof {
            assert(field_positions@ =~= position_set((idx + 1) as nat, pred));
        }
        idx = idx + 1;
    }
    (small, field_positions)
}

// ---------------------------------------------------------------------------
// The certificate.
// ---------------------------------------------------------------------------

/// Whether `out` is `input` with every entry of magnitude above `bound` zeroed.
pub open spec fn is_zeroed_above_bound<SV: ExtensionMagnitude>(
    out: Seq<SV>,
    input: Seq<SV>,
    bound: int,
) -> bool {
    &&& out.len() == input.len()
    &&& forall|i: int|
        0 <= i < input.len() ==> if abs_int(#[trigger] input[i].int_val()) <= bound {
            out[i] == input[i]
        } else {
            out[i] == SV::zero_value() && out[i].int_val() == 0
        }
}

/// Polynomial whose original MLE evaluations are certified safe for native
/// extension.
///
/// The certificate is parameterized by the input value type `SV`, the widened
/// native product type `Product`, the extension domain degree `D`, and the
/// number of native extension rounds `LB`. Use [`ExtensionBoundedPoly::new`]
/// to scan and verify the bound, or [`ExtensionBoundedPoly::new_unchecked`]
/// when the bound was established some other way.
#[derive(Debug)]
pub struct ExtensionBoundedPoly<SV, Product, const D: usize, const LB: usize> {
    poly: MultilinearPolynomial<SV>,
    _product: PhantomData<Product>,
}

impl<SV: SmallValue, Product: ExtensionMagnitude, const D: usize, const LB: usize> Clone for ExtensionBoundedPoly<
    SV,
    Product,
    D,
    LB,
> {
    fn clone(&self) -> (r: Self)
        ensures
            r@ == self@,
    {
        ExtensionBoundedPoly { poly: self.poly.duplicate(), _product: PhantomData }
    }
}

impl<SV, Product, const D: usize, const LB: usize> View for ExtensionBoundedPoly<SV, Product, D, LB> {
    type V = Seq<SV>;

    closed spec fn view(&self) -> Seq<SV> {
        self.poly.Z@
    }
}

impl<SV: SmallValue, Product: ExtensionMagnitude, const D: usize, const LB: usize> ExtensionBoundedPoly<
    SV,
    Product,
    D,
    LB,
> {
    /// The extension/product bound that this certificate is for.
    pub open spec fn product_bound() -> int {
        product_input_bound(SV::max_int(), Product::max_int(), D as nat, LB as nat)
    }

    /// The extension-only bound that this certificate is for.
    pub open spec fn extension_bound() -> int {
        fit_input_bound(SV::max_int(), Product::max_int(), D as nat, LB as nat)
    }

    /// Every evaluation is within the extension/product bound.
    pub open spec fn is_product_certified(&self) -> bool {
        forall|i: int| 0 <= i < self@.len() ==> abs_int(#[trigger] self@[i].int_val()) <= Self::product_bound()
    }

    /// Every evaluation is within the extension-only bound.
    pub open spec fn is_extension_certified(&self) -> bool {
        forall|i: int| 0 <= i < self@.len() ==> abs_int(#[trigger] self@[i].int_val()) <= Self::extension_bound()
    }

    /// Certify a polynomial for native extension and pairwise product, after
    /// scanning its whole evaluation table.
    pub fn new(poly: MultilinearPolynomial<SV>) -> (r: Result<Self, SpartanError>)
        ensures
            check_outcome(
                match r {
                    Ok(_) => Ok(()),
                    Err(e) => Err(e),
                },
                int_vals(poly.Z@),
                Self::product_bound(),
                Product::max_int(),
                "small-value polynomial"@,
                "extension/product"@,
                D as int,
                LB as int,
            ),
            r matches Ok(p) ==> p@ == poly.Z@ && p.is_product_certified(),
    {
        match check_extension_bound::<SV, Product, D, LB>(&poly) {
            Ok(()) => {
                let p = Self::new_unchecked(poly);
                assert forall|i: int| 0 <= i < p@.len() implies abs_int(#[trigger] p@[i].int_val())
                    <= Self::product_bound() by {
                    assert(int_vals(p@)[i] == p@[i].int_val());
                }
                Ok(p)
            },
            Err(e) => Err(e),
        }
    }

    /// Certify a polynomial for native extension only, as for linear terms
    /// such as `Cz` that are not multiplied by another native small value.
    pub fn new_extension_only(poly: MultilinearPolynomial<SV>) -> (r: Result<Self, SpartanError>)
        ensures
            check_outcome(
                match r {
                    Ok(_) => Ok(()),
                    Err(e) => Err(e),
                },
                int_vals(poly.Z@),
                Self::extension_bound(),
                Product::max_int(),
                "small-value polynomial"@,
                "extension"@,
                D as int,
                LB as int,
            ),
            r matches Ok(p) ==> p@ == poly.Z@ && p.is_extension_certified(),
    {
        match check_extension_fit_bound::<SV, Product, D, LB>(&poly) {
            Ok(()) => {
                let p = Self::new_unchecked(poly);
                assert forall|i: int| 0 <= i < p@.len() implies abs_int(#[trigger] p@[i].int_val())
                    <= Self::extension_bound() by {
                    assert(int_vals(p@)[i] == p@[i].int_val());
                }
                Ok(p)
            },
            Err(e) => Err(e),
        }
    }

    /// Certify a copy of `poly` for extension and product, zeroing every
    /// evaluation beyond the bound and returning the set of those positions.
    pub fn try_new_with_field_positions(poly: &MultilinearPolynomial<SV>) -> (r: (Self, BTreeSet<usize>))
        ensures
            is_zeroed_above_bound(r.0@, poly.Z@, Self::product_bound()),
            r.1@ == position_set(
                poly.Z@.len(),
                |i: int| abs_int(poly.Z@[i].int_val()) > Self::product_bound(),
            ),
            r.0.is_product_certified(),
    {
        proof {
            SV::lemma_bounds();
            Product::lemma_bounds();
            lemma_input_bounds_nonneg(SV::max_int(), Product::max_int(), D as nat, LB as nat);
        }
        Self::new_with_positions(poly.duplicate(), max_extension_input_abs::<SV, Product, D, LB>())
    }

    /// [`Self::try_new_with_field_positions`] on an owned polynomial.
    pub fn try_new_owned_with_field_positions(poly: MultilinearPolynomial<SV>) -> (r: (
        Self,
        BTreeSet<usize>,
    ))
        ensures
            is_zeroed_above_bound(r.0@, poly.Z@, Self::product_bound()),
            r.1@ == position_set(
                poly.Z@.len(),
                |i: int| abs_int(poly.Z@[i].int_val()) > Self::product_bound(),
            ),
            r.0.is_product_certified(),
    {
        proof {
            SV::lemma_bounds();
            Product::lemma_bounds();
            lemma_input_bounds_nonneg(SV::max_int(), Product::max_int(), D as nat, LB as nat);
        }
        Self::new_with_positions(poly, max_extension_input_abs::<SV, Product, D, LB>())
    }

    /// Certify a copy of `poly` for extension only, zeroing every evaluation
    /// beyond the bound and returning the set of those positions.
    pub fn try_new_extension_only_with_field_positions(poly: &MultilinearPolynomial<SV>) -> (r: (
        Self,
        BTreeSet<usize>,
    ))
        ensures
            is_zeroed_above_bound(r.0@, poly.Z@, Self::extension_bound()),
            r.1@ == position_set(
                poly.Z@.len(),
                |i: int| abs_int(poly.Z@[i].int_val()) > Self::extension_bound(),
            ),
            r.0.is_extension_certified(),
    {
        proof {
            SV::lemma_bounds();
            Product::lemma_bounds();
            lemma_input_bounds_nonneg(SV::max_int(), Product::max_int(), D as nat, LB as nat);
        }
        Self::new_with_positions(
            poly.duplicate(),
            max_extension_fit_input_abs::<SV, Product, D, LB>(),
        )
    }

    /// [`Self::try_new_extension_only_with_field_positions`] on an owned
    /// polynomial.
    pub fn try_new_owned_extension_only_with_field_positions(
        poly: MultilinearPolynomial<SV>,
    ) -> (r: (Self, BTreeSet<usize>))
        ensures
            is_zeroed_above_bound(r.0@, poly.Z@, Self::extension_bound()),
            r.1@ == position_set(
                poly.Z@.len(),
                |i: int| abs_int(poly.Z@[i].int_val()) > Self::extension_bound(),
            ),
            r.0.is_extension_certified(),
    {
        proof {
            SV::lemma_bounds();
            Product::lemma_bounds();
            lemma_input_bounds_nonneg(SV::max_int(), Product::max_int(), D as nat, LB as nat);
        }
        Self::new_with_positions(poly, max_extension_fit_input_abs::<SV, Product, D, LB>())
    }

    /// Build a certificate from field evaluations and a supplied bound: values
    /// that do not denote an `SV` of magnitude at most `max_abs` become zero
    /// and the set of their positions is returned.
    pub fn from_field_values_with_bound(values: &[Scalar], max_abs: Product) -> (r: (
        Self,
        BTreeSet<usize>,
    ))
        ensures
            is_bounded_small_view(r.0@, values@, max_abs.int_val()),
            r.1@ == position_set(
                values@.len(),
                |i: int|
                    bounded_reading(values@[i]@, SV::min_int(), SV::max_int(), max_abs.int_val())
                        is None,
            ),
    {
        let (small, field_positions) = field_values_to_small_or_zero_with_bound::<SV, Product>(
            values,
            max_abs,
        );
        (Self::new_unchecked(MultilinearPolynomial::new(small)), field_positions)
    }

    /// [`Self::from_field_values_with_bound`] with the extension/product bound.
    pub fn from_field_values_with_product_bound(values: &[Scalar]) -> (r: (Self, BTreeSet<usize>))
        ensures
            is_bounded_small_view(r.0@, values@, Self::product_bound()),
            r.1@ == position_set(
                values@.len(),
                |i: int|
                    bounded_reading(values@[i]@, SV::min_int(), SV::max_int(), Self::product_bound())
                        is None,
            ),
    {
        Self::from_field_values_with_bound(values, max_extension_input_abs::<SV, Product, D, LB>())
    }

    /// [`Self::from_field_values_with_bound`] with the extension-only bound.
    pub fn from_field_values_with_extension_bound(values: &[Scalar]) -> (r: (Self, BTreeSet<usize>))
        ensures
            is_bounded_small_view(r.0@, values@, Self::extension_bound()),
            r.1@ == position_set(
                values@.len(),
                |i: int|
                    bounded_reading(values@[i]@, SV::min_int(), SV::max_int(), Self::extension_bound())
                        is None,
            ),
    {
        Self::from_field_values_with_bound(
            values,
            max_extension_fit_input_abs::<SV, Product, D, LB>(),
        )
    }

    /// Zero every evaluation of magnitude above `max_abs` and return the set of those
    /// positions.
    pub fn new_with_positions(poly: MultilinearPolynomial<SV>, max_abs: Product) -> (r: (
        Self,
        BTreeSet<usize>,
    ))
        ensures
            is_zeroed_above_bound(r.0@, poly.Z@, max_abs.int_val()),
            r.1@ == position_set(
                poly.Z@.len(),
                |i: int| abs_int(poly.Z@[i].int_val()) > max_abs.int_val(),
            ),
            max_abs.int_val() >= 0 ==> forall|i: int|
                0 <= i < r.0@.len() ==> abs_int(#[trigger] r.0@[i].int_val()) <= max_abs.int_val(),
    {
        let ghost input = poly.Z@;
        let ghost pred = |i: int| abs_int(input[i].int_val()) > max_abs.int_val();
        let mut poly = poly;
        let mut field_positions: BTreeSet<usize> = BTreeSet::new();
        proof {
            lemma_usize_keys_ordered();
            assert(field_positions@ =~= position_set(0, pred));
        }
        let mut idx: usize = 0;
        while idx < poly.Z.len()
            invariant
                idx <= poly.Z@.len(),
                poly.Z@.len() == input.len(),
                pred == (|i: int| abs_int(input[i].int_val()) > max_abs.int_val()),
                forall|i: int| idx <= i < input.len() ==> poly.Z@[i] == input[i],
                forall|i: int|
                    0 <= i < idx ==> if abs_int(#[trigger] input[i].int_val()) <= max_abs.int_val() {
                        poly.Z@[i] == input[i]
                    } else {
                        poly.Z@[i] == SV::zero_value() && poly.Z@[i].int_val() == 0
                    },
                field_positions@ == position_set(idx as nat, pred),
            decreases input.len() - idx,
        {
            if !small_value_fits_abs_bound::<SV, Product>(poly.Z[idx], max_abs) {
                poly.Z.set(idx, SV::zero());
                assert(pred(idx as int));
                proof {
                    lemma_usize_keys_ordered();
                }
                field_positions.insert(idx);
            }
            proof {
                assert(field_positions@ =~= position_set((idx + 1) as nat, pred));
            }
            idx = idx + 1;
        }
        let p = Self::new_unchecked(poly);
        proof {
            Product::lemma_range(max_abs);
            assert forall|i: int| 0 <= i < p@.len() && max_abs.int_val() >= 0 implies abs_int(
                #[trigger] p@[i].int_val(),
            ) <= max_abs.int_val() by {
                if abs_int(input[i].int_val()) <= max_abs.int_val() {
                    assert(p@[i] == input[i]);
                } else {
                    assert(p@[i].int_val() == 0);
                }
            }
        }
        (p, field_positions)
    }

    /// Wrap a polynomial without scanning it: the caller vouches for the bound.
    pub fn new_unchecked(poly: MultilinearPolynomial<SV>) -> (r: Self)
        ensures
            r@ == poly.Z@,
    {
        ExtensionBoundedPoly { poly, _product: PhantomData }
    }

    /// The certified polynomial.
    pub fn as_poly(&self) -> (r: &MultilinearPolynomial<SV>)
        ensures
            r.Z@ == self@,
    {
        &self.poly
    }

    /// Consume the certificate and return the polynomial.
    pub fn into_poly(self) -> (r: MultilinearPolynomial<SV>)
        ensures
            r.Z@ == self@,
    {
        self.poly
    }

    /// Zero the evaluations at the given positions.
    pub fn zero_positions(&mut self, positions: &BTreeSet<usize>)
        requires
            forall|k: usize| #[trigger] positions@.contains(k) ==> (k as int) < old(self)@.len(),
        ensures
            final(self)@.len() == old(self)@.len(),
            forall|k: usize|
                (k as int) < old(self)@.len() ==> if positions@.contains(k) {
                    (#[trigger] final(self)@[k as int]).int_val() == 0
                } else {
                    final(self)@[k as int] == old(self)@[k as int]
                },
    {
        let ghost start = self@;
        proof {
            lemma_usize_keys_ordered();
        }
        let ghost keys = vstd::std_specs::iter::IteratorSpec::remaining(
            &vstd::std_specs::btree::spec_btree_keys_iter(positions),
        ).unref();
        proof {
            assert(keys.take(keys.len() as int) =~= keys);
        }
        for idx in it: positions.iter()
            invariant
                self@.len() == start.len(),
                forall|k: usize| #[trigger] positions@.contains(k) ==> (k as int) < start.len(),
                it.seq().unref() == keys,
                keys.to_set() == positions@,
                forall|k: usize|
                    (k as int) < start.len() ==> if keys.take(it.index() as int).contains(k) {
                        (#[trigger] self@[k as int]).int_val() == 0
                    } else {
                        self@[k as int] == start[k as int]
                    },
        {
            let ghost j = it.index();
            let i = *idx;
            proof {
                assert(keys[j] == i);
                assert(keys.contains(i));
                assert(keys.to_set().contains(i));
                assert(positions@.contains(i));
            }
            let ghost before = self@;
            let z = SV::zero();
            self.poly.Z.set(i, z);
            proof {
                let cur = keys.take(j + 1);
                let prev = keys.take(j);
                assert(cur =~= prev.push(i));
                SV::lemma_bounds();
                assert(self@ == before.update(i as int, z));
                assert forall|k: usize| (k as int) < start.len() implies if cur.contains(k) {
                    (#[trigger] self@[k as int]).int_val() == 0
                } else {
                    self@[k as int] == start[k as int]
                } by {
                    assert(if prev.contains(k) {
                        before[k as int].int_val() == 0
                    } else {
                        before[k as int] == start[k as int]
                    });
                    if k == i {
                        assert(self@[k as int] == z);
                        assert(cur.contains(k)) by {
                            assert(cur[j] == i);
                        }
                    } else {
                        assert(self@[k as int] == before[k as int]);
                    }
                    if cur.contains(k) && k != i {
                        let w = choose|w: int| 0 <= w < cur.len() && cur[w] == k;
                        assert(prev[w] == k);
                    }
                    if !cur.contains(k) && prev.contains(k) {
                        let w = choose|w: int| 0 <= w < prev.len() && prev[w] == k;
                        assert(cur[w] == k);
                    }
                }
            }
        }
    }
}

} // verus!
