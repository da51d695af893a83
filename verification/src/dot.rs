//! Field-weighted sums of small values and of field values.

use crate::field::{field_modulus, fmod, lemma_fmod_range, lemma_scalar_lt_modulus, Scalar};
use crate::small_int::SmallValue;
use vstd::prelude::*;

verus! {

broadcast use {lemma_scalar_lt_modulus, lemma_fmod_range};

/// `sum_{q < n} w[woff + q] * t[toff + q]` over the integers.
pub open spec fn run_dot<SV: SmallValue>(
    w: Seq<Scalar>,
    woff: int,
    t: Seq<SV>,
    toff: int,
    n: nat,
) -> int
    decreases n,
{
    if n == 0 {
        0
    } else {
        run_dot(w, woff, t, toff, (n - 1) as nat) + w[woff + n - 1]@ * t[toff + n - 1].int_val()
    }
}

/// `sum_{i < n} w[i] * layers[i][j]` over the integers.
pub open spec fn column_dot<SV: SmallValue>(w: Seq<Scalar>, layers: Seq<&[SV]>, j: int, n: nat) -> int
    decreases n,
{
    if n == 0 {
        0
    } else {
        column_dot(w, layers, j, (n - 1) as nat) + w[n - 1]@ * layers[n - 1]@[j].int_val()
    }
}

/// `sum_{i < n} w[i] * layers[i][j]` for field-valued layers.
pub open spec fn field_column_dot(w: Seq<Scalar>, layers: Seq<&[Scalar]>, j: int, n: nat) -> int
    decreases n,
{
    if n == 0 {
        0
    } else {
        field_column_dot(w, layers, j, (n - 1) as nat) + w[n - 1]@ * layers[n - 1]@[j]@
    }
}

/// `sum_{i < n} w[woff + i] * layers[loff + i][j]` for owned field-valued layers.
pub open spec fn field_vec_column_dot(
    w: Seq<Scalar>,
    woff: int,
    layers: Seq<Vec<Scalar>>,
    loff: int,
    j: int,
    n: nat,
) -> int
    decreases n,
{
    if n == 0 {
        0
    } else {
        field_vec_column_dot(w, woff, layers, loff, j, (n - 1) as nat) + w[woff + n - 1]@
            * layers[loff + n - 1]@[j]@
    }
}

/// A multiply-accumulate step in the field agrees with the integer sum.
pub proof fn lemma_mac(s: int, w: int, x: int)
    ensures
        fmod(fmod(s) + fmod(w * fmod(x)) as int) == fmod(s + w * x),
{
    let m = field_modulus() as int;
    vstd::arithmetic::div_mod::lemma_mul_mod_noop_right(w, x, m);
    vstd::arithmetic::div_mod::lemma_add_mod_noop(s, w * x, m);
}

/// `acc + w * x` in the field, for a small value `x`.
pub fn mac_small<SV: SmallValue>(acc: &Scalar, w: &Scalar, x: SV) -> (r: Scalar)
    ensures
        forall|s: int| acc@ == #[trigger] fmod(s) ==> r@ == fmod(s + w@ * x.int_val()),
{
    let xf = x.small_to_field();
    let r = acc.add(&w.mul(&xf));
    proof {
        assert forall|s: int| acc@ == #[trigger] fmod(s) implies r@ == fmod(s + w@ * x.int_val()) by {
            lemma_mac(s, w@ as int, x.int_val());
        }
    }
    r
}

/// `acc + w * x` in the field.
pub fn mac_field(acc: &Scalar, w: &Scalar, x: &Scalar) -> (r: Scalar)
    ensures
        forall|s: int| acc@ == #[trigger] fmod(s) ==> r@ == fmod(s + w@ * x@),
{
    let r = acc.add(&w.mul(x));
    proof {
        assert forall|s: int| acc@ == #[trigger] fmod(s) implies r@ == fmod(s + w@ * x@) by {
            lemma_mac(s, w@ as int, x@ as int);
            vstd::arithmetic::div_mod::lemma_small_mod(x@, field_modulus());
        }
    }
    r
}

/// `sum_{q < n} w[woff + q] * t[toff + q]` in the field.
pub fn small_run_dot<SV: SmallValue>(
    w: &[Scalar],
    woff: usize,
    t: &[SV],
    toff: usize,
    n: usize,
) -> (r: Scalar)
    requires
        woff + n <= w@.len(),
        toff + n <= t@.len(),
    ensures
        r@ == fmod(run_dot(w@, woff as int, t@, toff as int, n as nat)),
{
    let mut acc = Scalar::zero();
    let _wl = w.len();
    let _tl = t.len();
    let mut q: usize = 0;
    while q < n
        invariant
            q <= n,
            w@.len() <= usize::MAX,
            t@.len() <= usize::MAX,
            woff + n <= w@.len(),
            toff + n <= t@.len(),
            acc@ == fmod(run_dot(w@, woff as int, t@, toff as int, q as nat)),
        decreases n - q,
    {
        acc = mac_small(&acc, &w[woff + q], t[toff + q]);
        q = q + 1;
    }
    acc
}

/// `sum_{i < n} w[i] * layers[i][j]` in the field.
pub fn small_column_dot<SV: SmallValue>(w: &[Scalar], layers: &[&[SV]], j: usize, n: usize) -> (r:
    Scalar)
    requires
        n <= w@.len(),
        n <= layers@.len(),
        forall|i: int| 0 <= i < n ==> j < (#[trigger] layers@[i])@.len(),
    ensures
        r@ == fmod(column_dot(w@, layers@, j as int, n as nat)),
{
    let mut acc = Scalar::zero();
    let mut i: usize = 0;
    while i < n
        invariant
            i <= n,
            n <= w@.len(),
            n <= layers@.len(),
            forall|i: int| 0 <= i < n ==> j < (#[trigger] layers@[i])@.len(),
            acc@ == fmod(column_dot(w@, layers@, j as int, i as nat)),
        decreases n - i,
    {
        let layer: &[SV] = layers[i];
        acc = mac_small(&acc, &w[i], layer[j]);
        i = i + 1;
    }
    acc
}

/// `sum_{i < n} w[i] * layers[i][j]` in the field, for field-valued layers.
pub fn field_column_dot_exec(w: &[Scalar], layers: &[&[Scalar]], j: usize, n: usize) -> (r: Scalar)
    requires
        n <= w@.len(),
        n <= layers@.len(),
        forall|i: int| 0 <= i < n ==> j < (#[trigger] layers@[i])@.len(),
    ensures
        r@ == fmod(field_column_dot(w@, layers@, j as int, n as nat)),
{
    let mut acc = Scalar::zero();
    let mut i: usize = 0;
    while i < n
        invariant
            i <= n,
            n <= w@.len(),
            n <= layers@.len(),
            forall|i: int| 0 <= i < n ==> j < (#[trigger] layers@[i])@.len(),
            acc@ == fmod(field_column_dot(w@, layers@, j as int, i as nat)),
        decreases n - i,
    {
        let layer: &[Scalar] = layers[i];
        acc = mac_field(&acc, &w[i], &layer[j]);
        i = i + 1;
    }
    acc
}

/// `sum_{i < n} w[woff + i] * layers[loff + i][j]` in the field, for owned
/// field-valued layers.
pub fn field_vec_column_dot_exec(
    w: &[Scalar],
    woff: usize,
    layers: &[Vec<Scalar>],
    loff: usize,
    j: usize,
    n: usize,
) -> (r: Scalar)
    requires
        woff + n <= w@.len(),
        loff + n <= layers@.len(),
        forall|i: int| loff <= i < loff + n ==> j < (#[trigger] layers@[i])@.len(),
    ensures
        r@ == fmod(field_vec_column_dot(w@, woff as int, layers@, loff as int, j as int, n as nat)),
{
    let mut acc = Scalar::zero();
    let _wl = w.len();
    let _ll = layers.len();
    let mut i: usize = 0;
    while i < n
        invariant
            i <= n,
            w@.len() <= usize::MAX,
            layers@.len() <= usize::MAX,
            woff + n <= w@.len(),
            loff + n <= layers@.len(),
            forall|i: int| loff <= i < loff + n ==> j < (#[trigger] layers@[i])@.len(),
            acc@ == fmod(field_vec_column_dot(w@, woff as int, layers@, loff as int, j as int, i as nat)),
        decreases n - i,
    {
        acc = mac_field(&acc, &w[woff + i], &layers[loff + i][j]);
        i = i + 1;
    }
    acc
}

} // verus!
