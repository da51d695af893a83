//! Conversions between field elements and native signed integers.
//!
//! A field element `v` is read as the signed integer `x` when `v == x mod q`
//! and `x` lies in the target range. Because the field order is far larger
//! than any native range used here, at most one such `x` exists.

use crate::field::{
    field_modulus, fmod, le_nat, lemma_fmod_range, lemma_le_nat_bound, lemma_scalar_lt_modulus,
    pow256, Scalar,
};
use vstd::prelude::*;

verus! {

broadcast use {lemma_scalar_lt_modulus, lemma_fmod_range};

/// Largest magnitude kept by [`to_small_vec_or_zero`]: `2^62 - 1`, so that
/// sums and products of such values stay inside `i128`.
pub const SMALL_VALUE_MAX: u64 = 0x3fff_ffff_ffff_ffffu64;

/// `-SMALL_VALUE_MAX` as an `i64`.
pub const SMALL_VALUE_MIN_I64: i64 = -0x3fff_ffff_ffff_ffffi64;

/// The integer in `[min, max]` that the field element `v` denotes, if any.
///
/// Non-negative integers denote themselves; a negative `x` denotes `q + x`.
pub open spec fn field_to_int_in(v: nat, min: int, max: int) -> Option<int> {
    if v <= max {
        Some(v as int)
    } else if field_modulus() - v <= -min {
        Some(v - field_modulus())
    } else {
        None
    }
}

/// A field element read as a sign and a magnitude below `256^width`.
#[derive(Clone, Copy, Debug, PartialEq, Eq)]
pub enum SignedMagnitude {
    Positive(u128),
    Negative(u128),
}

// ---------------------------------------------------------------------------
// Facts about little-endian byte strings.
// ---------------------------------------------------------------------------

pub proof fn lemma_pow256_values()
    ensures
        pow256(4) == 0x1_0000_0000nat,
        pow256(8) == 0x1_0000_0000_0000_0000nat,
        pow256(16) == 0x1_0000_0000_0000_0000_0000_0000_0000_0000nat,
{
    reveal_with_fuel(pow256, 17);
}

pub proof fn lemma_pow256_monotonic(a: nat, b: nat)
    requires
        a <= b,
    ensures
        1 <= pow256(a) <= pow256(b),
    decreases b,
{
    if b > 0 {
        if a == b {
            lemma_pow256_monotonic((a - 1) as nat, (b - 1) as nat);
        } else {
            lemma_pow256_monotonic(a, (b - 1) as nat);
        }
    }
}

/// A byte string splits into its first `w` bytes and the rest.
pub proof fn lemma_le_nat_split(s: Seq<u8>, w: nat)
    requires
        w <= s.len(),
    ensures
        le_nat(s) == le_nat(s.take(w as int)) + pow256(w) * le_nat(s.skip(w as int)),
    decreases w,
{
    if w == 0 {
        assert(s.skip(0) =~= s);
        assert(s.take(0).len() == 0);
        assert(le_nat(s.take(0)) == 0);
        assert(pow256(0) == 1);
    } else {
        let t = s.drop_first();
        lemma_le_nat_split(t, (w - 1) as nat);
        assert(s.take(w as int).drop_first() =~= t.take(w - 1));
        assert(s.skip(w as int) =~= t.skip(w - 1));
        let a = le_nat(t.take(w - 1));
        let b = le_nat(t.skip(w - 1));
        let p = pow256((w - 1) as nat);
        assert(s.take(w as int)[0] == s[0]);
        assert(le_nat(s.take(w as int)) == s[0] as nat + 256 * a);
        assert(pow256(w) == 256 * p);
        assert(256 * (a + p * b) == 256 * a + (256 * p) * b) by (nonlinear_arith);
        assert(le_nat(s) == s[0] as nat + 256 * le_nat(t));
        assert(le_nat(t) == a + p * b);
    }
}

/// A byte string denotes zero exactly when all its bytes are zero.
pub proof fn lemma_le_nat_zero(s: Seq<u8>)
    ensures
        (le_nat(s) == 0) <==> (forall|i: int| 0 <= i < s.len() ==> s[i] == 0),
    decreases s.len(),
{
    if s.len() > 0 {
        lemma_le_nat_zero(s.drop_first());
        if le_nat(s) == 0 {
            assert forall|i: int| 0 <= i < s.len() implies s[i] == 0 by {
                if i > 0 {
                    assert(s[i] == s.drop_first()[i - 1]);
                }
            }
        }
        if forall|i: int| 0 <= i < s.len() ==> s[i] == 0 {
            assert forall|i: int| 0 <= i < s.drop_first().len() implies s.drop_first()[i] == 0 by {
                assert(s.drop_first()[i] == s[i + 1]);
            }
        }
    }
}

/// The bytes from `w` on are zero exactly when the value is below `256^w`.
pub proof fn lemma_high_bytes_zero_iff(s: Seq<u8>, w: nat)
    requires
        w <= s.len(),
    ensures
        (forall|i: int| w <= i < s.len() ==> s[i] == 0) <==> le_nat(s) < pow256(w),
        le_nat(s) < pow256(w) ==> le_nat(s.take(w as int)) == le_nat(s),
{
    lemma_le_nat_split(s, w);
    lemma_le_nat_bound(s.take(w as int));
    lemma_le_nat_zero(s.skip(w as int));
    let hi = le_nat(s.skip(w as int));
    let lo = le_nat(s.take(w as int));
    let p = pow256(w);
    if forall|i: int| w <= i < s.len() ==> s[i] == 0 {
        assert forall|i: int| 0 <= i < s.skip(w as int).len() implies s.skip(w as int)[i] == 0 by {
            assert(s.skip(w as int)[i] == s[i + w]);
        }
        assert(hi == 0);
        assert(le_nat(s) < p);
    } else {
        let i = choose|i: int| w <= i < s.len() && s[i] != 0;
        assert(s.skip(w as int)[i - w] == s[i]);
        assert(hi >= 1);
        assert(p * hi >= p) by (nonlinear_arith)
            requires
                hi >= 1,
                p >= 0,
        ;
        assert(le_nat(s) >= p);
    }
    if lo + p * hi < p {
        assert(hi == 0) by (nonlinear_arith)
            requires
                lo + p * hi < p,
                lo >= 0,
                hi >= 0,
        ;
    }
}

/// `q - v` is the field negation of a nonzero `v`.
pub proof fn lemma_fmod_neg(v: int)
    requires
        0 < v < field_modulus(),
    ensures
        fmod(-v) == field_modulus() - v,
{
    let m = field_modulus() as int;
    vstd::arithmetic::div_mod::lemma_mod_add_multiples_vanish(-v, m);
    vstd::arithmetic::div_mod::lemma_small_mod((m - v) as nat, m as nat);
}

/// A field value that reads as the integer `x` is the field element of `x`.
pub proof fn lemma_field_to_int_denotes(v: nat, min: int, max: int)
    requires
        v < field_modulus(),
        field_to_int_in(v, min, max) is Some,
    ensures
        fmod(field_to_int_in(v, min, max)->0) == v,
{
    let m = field_modulus() as int;
    if v <= max {
        vstd::arithmetic::div_mod::lemma_small_mod(v, m as nat);
    } else {
        vstd::arithmetic::div_mod::lemma_mod_add_multiples_vanish(v - m, m);
        vstd::arithmetic::div_mod::lemma_small_mod(v, m as nat);
    }
}

// ---------------------------------------------------------------------------
// Executable conversions.
// ---------------------------------------------------------------------------

/// Whether every byte from position `width_bytes` on is zero.
pub fn high_bytes_are_zero(bytes: &[u8], width_bytes: usize) -> (r: bool)
    requires
        width_bytes <= bytes@.len(),
    ensures
        r == (forall|i: int| width_bytes <= i < bytes@.len() ==> bytes@[i] == 0),
{
    let mut i = width_bytes;
    while i < bytes.len()
        invariant
            width_bytes <= i <= bytes@.len(),
            forall|j: int| width_bytes <= j < i ==> bytes@[j] == 0,
        decreases bytes@.len() - i,
    {
        if bytes[i] != 0 {
            return false;
        }
        i = i + 1;
    }
    true
}

/// The little-endian value of the first `width_bytes` bytes.
pub fn lower_bytes_to_u128(bytes: &[u8], width_bytes: usize) -> (r: u128)
    requires
        width_bytes <= 16,
        width_bytes <= bytes@.len(),
    ensures
        r == le_nat(bytes@.take(width_bytes as int)),
{
    let ghost s = bytes@.take(width_bytes as int);
    let mut acc: u128 = 0;
    let mut i = width_bytes;
    proof {
        lemma_pow256_values();
    }
    while i > 0
        invariant
            0 <= i <= width_bytes <= 16,
            width_bytes <= bytes@.len(),
            s == bytes@.take(width_bytes as int),
            acc == le_nat(s.subrange(i as int, width_bytes as int)),
            acc < pow256((width_bytes - i) as nat),
            pow256(16) == 0x1_0000_0000_0000_0000_0000_0000_0000_0000nat,
        decreases i,
    {
        let ghost old_i = i;
        i = i - 1;
        proof {
            let t = s.subrange(i as int, width_bytes as int);
            assert(t.drop_first() =~= s.subrange(old_i as int, width_bytes as int));
            assert(t[0] == bytes@[i as int]);
            lemma_pow256_monotonic((width_bytes - i) as nat, 16);
            assert(256 * (acc as int) + 255 < 256 * pow256((width_bytes - old_i) as nat));
        }
        acc = acc * 256 + bytes[i] as u128;
    }
    proof {
        assert(s.subrange(0, width_bytes as int) =~= s);
    }
    acc
}

/// Read a field element as a sign and a magnitude below `256^width_bytes`.
///
/// The element itself is tried first; its negation second, and only when it
/// is nonzero.
pub fn try_field_to_signed_magnitude(val: &Scalar, width_bytes: usize) -> (r: Option<
    SignedMagnitude,
>)
    requires
        1 <= width_bytes <= 16,
    ensures
        match r {
            Some(SignedMagnitude::Positive(m)) => val@ < pow256(width_bytes as nat) && m == val@,
            Some(SignedMagnitude::Negative(m)) => val@ >= pow256(width_bytes as nat) && 0 < fmod(
                -val@,
            ) < pow256(width_bytes as nat) && m == fmod(-val@),
            None => val@ >= pow256(width_bytes as nat) && !(0 < fmod(-val@) < pow256(
                width_bytes as nat,
            )),
        },
{
    let repr = val.to_repr();
    proof {
        lemma_high_bytes_zero_iff(repr@, width_bytes as nat);
    }
    if high_bytes_are_zero(&repr, width_bytes) {
        return Some(SignedMagnitude::Positive(lower_bytes_to_u128(&repr, width_bytes)));
    }
    let neg_repr = val.neg().to_repr();
    proof {
        lemma_high_bytes_zero_iff(neg_repr@, width_bytes as nat);
    }
    if high_bytes_are_zero(&neg_repr, width_bytes) {
        let mag = lower_bytes_to_u128(&neg_repr, width_bytes);
        if mag > 0 {
            return Some(SignedMagnitude::Negative(mag));
        }
    }
    None
}


/// The integer in `[min, max]` that a field element denotes, within the range of
/// a native type of `width_bytes` bytes.
proof fn lemma_signed_magnitude_reading(v: nat, width: nat, min: int, max: int)
    requires
        v < field_modulus(),
        max == pow256(width) / 2 - 1,
        min == -max - 1,
        width == 4 || width == 8 || width == 16,
    ensures
        v < pow256(width) && v > max ==> field_to_int_in(v, min, max) is None,
        v >= pow256(width) ==> fmod(-v) == field_modulus() - v,
        v >= pow256(width) && fmod(-v) >= pow256(width) ==> field_to_int_in(v, min, max) is None,
{
    lemma_pow256_values();
    if v > 0 {
        lemma_fmod_neg(v as int);
    }
}

/// Read a field element as an `i32`, if it denotes one.
pub fn try_field_to_i32(val: &Scalar) -> (r: Option<i32>)
    ensures
        match r {
            Some(x) => field_to_int_in(val@, i32::MIN as int, i32::MAX as int) == Some(x as int),
            None => field_to_int_in(val@, i32::MIN as int, i32::MAX as int) is None,
        },
{
    proof {
        lemma_pow256_values();
        lemma_signed_magnitude_reading(val@, 4, i32::MIN as int, i32::MAX as int);
    }
    match try_field_to_signed_magnitude(val, 4) {
        Some(SignedMagnitude::Positive(mag)) => {
            if mag <= 0x7fff_ffffu128 {
                Some(mag as i32)
            } else {
                None
            }
        },
        Some(SignedMagnitude::Negative(mag)) => {
            if mag <= 0x8000_0000u128 {
                Some((-(mag as i64)) as i32)
            } else {
                None
            }
        },
        None => None,
    }
}

/// Read a field element as an `i64`, if it denotes one.
pub fn try_field_to_i64(val: &Scalar) -> (r: Option<i64>)
    ensures
        match r {
            Some(x) => field_to_int_in(val@, i64::MIN as int, i64::MAX as int) == Some(x as int),
            None => field_to_int_in(val@, i64::MIN as int, i64::MAX as int) is None,
        },
{
    proof {
        lemma_pow256_values();
        lemma_signed_magnitude_reading(val@, 8, i64::MIN as int, i64::MAX as int);
    }
    match try_field_to_signed_magnitude(val, 8) {
        Some(SignedMagnitude::Positive(mag)) => {
            if mag <= 0x7fff_ffff_ffff_ffffu128 {
                Some(mag as i64)
            } else {
                None
            }
        },
        Some(SignedMagnitude::Negative(mag)) => {
            if mag <= 0x8000_0000_0000_0000u128 {
                Some((-(mag as i128)) as i64)
            } else {
                None
            }
        },
        None => None,
    }
}

/// Read a field element as an `i128`, if it denotes one.
pub fn try_field_to_i128(val: &Scalar) -> (r: Option<i128>)
    ensures
        match r {
            Some(x) => field_to_int_in(val@, i128::MIN as int, i128::MAX as int) == Some(x as int),
            None => field_to_int_in(val@, i128::MIN as int, i128::MAX as int) is None,
        },
{
    proof {
        lemma_pow256_values();
        lemma_signed_magnitude_reading(val@, 16, i128::MIN as int, i128::MAX as int);
    }
    match try_field_to_signed_magnitude(val, 16) {
        Some(SignedMagnitude::Positive(mag)) => {
            if mag <= 0x7fff_ffff_ffff_ffff_ffff_ffff_ffff_ffffu128 {
                Some(mag as i128)
            } else {
                None
            }
        },
        Some(SignedMagnitude::Negative(mag)) => {
            if mag < 0x8000_0000_0000_0000_0000_0000_0000_0000u128 {
                Some(-(mag as i128))
            } else if mag == 0x8000_0000_0000_0000_0000_0000_0000_0000u128 {
                Some(i128::MIN)
            } else {
                None
            }
        },
        None => None,
    }
}

/// The field element `v` for an unsigned 128-bit `v`.
fn u128_to_field(v: u128) -> (r: Scalar)
    ensures
        r@ == v as nat,
{
    let two_64 = Scalar::from_u64(0xffff_ffff_ffff_ffffu64).add(&Scalar::one());
    let lo = v as u64;
    let hi = (v >> 64u32) as u64;
    assert(v == (hi as u128) * 0x1_0000_0000_0000_0000u128 + (lo as u128)) by (bit_vector)
        requires
            lo == v as u64,
            hi == (v >> 64u32) as u64,
    ;
    let high = Scalar::from_u64(hi).mul(&two_64);
    Scalar::from_u64(lo).add(&high)
}

/// The field element that an `i64` denotes.
pub fn i64_to_field(value: i64) -> (r: Scalar)
    ensures
        r@ == fmod(value as int),
{
    if value >= 0 {
        Scalar::from_u64(value as u64)
    } else {
        let mag = (-(value as i128)) as u64;
        let r = Scalar::from_u64(mag).neg();
        assert(-(mag as int) == value as int);
        r
    }
}

/// The field element that an `i32` denotes.
pub fn i32_to_field(value: i32) -> (r: Scalar)
    ensures
        r@ == fmod(value as int),
{
    i64_to_field(value as i64)
}

/// The field element that an `i128` denotes.
pub fn i128_to_field(value: i128) -> (r: Scalar)
    ensures
        r@ == fmod(value as int),
{
    if value >= 0 {
        u128_to_field(value as u128)
    } else {
        let mag: u128 = if value == i128::MIN {
            0x8000_0000_0000_0000_0000_0000_0000_0000u128
        } else {
            (-value) as u128
        };
        let r = u128_to_field(mag).neg();
        assert(-(mag as int) == value as int);
        r
    }
}

/// A field element denotes at most one integer in a range narrower than the
/// field; narrowing the range keeps the reading or drops it.
pub proof fn lemma_field_to_int_narrow(v: nat, min: int, max: int, lo: int, hi: int)
    requires
        v < field_modulus(),
        min <= lo <= 0 <= hi <= max,
        max - min < field_modulus(),
    ensures
        field_to_int_in(v, lo, hi) == (match field_to_int_in(v, min, max) {
            Some(x) => if lo <= x <= hi {
                Some(x)
            } else {
                None
            },
            None => None,
        }),
{
}

/// Reading a small integer back from its field element gives the integer.
pub proof fn lemma_field_to_int_roundtrip(x: int, min: int, max: int)
    requires
        min <= x <= max,
        min <= 0 <= max,
        max - min < field_modulus(),
    ensures
        field_to_int_in(fmod(x), min, max) == Some(x),
{
    let m = field_modulus() as int;
    if x < 0 {
        vstd::arithmetic::div_mod::lemma_mod_add_multiples_vanish(x, m);
        vstd::arithmetic::div_mod::lemma_small_mod((m + x) as nat, m as nat);
    }
}

/// Whether a sequence lists, in increasing order, exactly the indices below `n`
/// that satisfy `pred`.
pub open spec fn is_position_list(pos: Seq<usize>, n: nat, pred: spec_fn(int) -> bool) -> bool {
    &&& forall|i: int, j: int| 0 <= i < j < pos.len() ==> pos[i] < pos[j]
    &&& forall|i: int| 0 <= i < pos.len() ==> pos[i] < n && pred(pos[i] as int)
    &&& forall|k: usize| (k as int) < n && #[trigger] pred(k as int) ==> pos.contains(k)
}

/// The integer a field value denotes when its magnitude is at most
/// [`SMALL_VALUE_MAX`].
pub open spec fn small_reading(v: nat) -> Option<int> {
    field_to_int_in(v, -(SMALL_VALUE_MAX as int), SMALL_VALUE_MAX as int)
}

/// The positions of field values without a small reading.
pub open spec fn small_bad_pred(values: Seq<Scalar>) -> spec_fn(int) -> bool {
    |i: int| small_reading(values[i]@) is None
}

/// Convert field elements to `i64`, storing 0 for every element that does not
/// denote an integer of magnitude at most [`SMALL_VALUE_MAX`], and list those
/// positions.
pub fn to_small_vec_or_zero(poly: &[Scalar]) -> (r: (Vec<i64>, Vec<usize>))
    ensures
        r.0@.len() == poly@.len(),
        forall|i: int|
            0 <= i < poly@.len() ==> (#[trigger] r.0@[i]) as int == match small_reading(poly@[i]@) {
                Some(x) => x,
                None => 0,
            },
        is_position_list(r.1@, poly@.len(), small_bad_pred(poly@)),
{
    let ghost bound = SMALL_VALUE_MAX as int;
    let ghost pred = small_bad_pred(poly@);
    let mut result: Vec<i64> = Vec::new();
    let mut large_positions: Vec<usize> = Vec::new();
    let mut idx: usize = 0;
    while idx < poly.len()
        invariant
            idx <= poly@.len(),
            bound == SMALL_VALUE_MAX as int,
            pred == small_bad_pred(poly@),
            result@.len() == idx,
            forall|i: int|
                0 <= i < idx ==> match #[trigger] field_to_int_in(poly@[i]@, -bound, bound) {
                    Some(x) => result@[i] == x,
                    None => result@[i] == 0,
                },
            forall|i: int, j: int|
                0 <= i < j < large_positions@.len() ==> large_positions@[i]
                    < large_positions@[j],
            forall|i: int|
                0 <= i < large_positions@.len() ==> large_positions@[i] < idx && pred(
                    large_positions@[i] as int,
                ),
            forall|k: int| 0 <= k < idx && #[trigger] pred(k) ==> large_positions@.contains(k as usize),
        decreases poly@.len() - idx,
    {
        let ghost v = poly@[idx as int]@;
        proof {
            lemma_field_to_int_narrow(v, i64::MIN as int, i64::MAX as int, -bound, bound);
        }
        let kept = match try_field_to_i64(&poly[idx]) {
            Some(val) => {
                if SMALL_VALUE_MIN_I64 <= val && val <= SMALL_VALUE_MAX as i64 {
                    Some(val)
                } else {
                    None
                }
            },
            None => None,
        };
        let ghost old_large = large_positions@;
        match kept {
            Some(val) => {
                result.push(val);
            },
            None => {
                result.push(0);
                proof {
                    assert(pred(idx as int));
                }
                large_positions.push(idx);
            },
        }
        proof {
            assert forall|k: int| 0 <= k < idx + 1 && #[trigger] pred(k) implies large_positions@.contains(
                k as usize,
            ) by {
                if k < idx {
                    assert(old_large.contains(k as usize));
                    let w = choose|w: int| 0 <= w < old_large.len() && old_large[w] == k as usize;
                    assert(large_positions@[w] == k as usize);
                } else {
                    assert(large_positions@[large_positions@.len() - 1] == idx);
                }
            }
        }
        idx = idx + 1;
    }
    (result, large_positions)
}

} // verus!
