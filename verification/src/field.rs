//! The scalar field of the Pallas curve, as used by the small-value provers.
//!
//! A [`Scalar`] holds the canonical little-endian encoding of a field element.
//! The arithmetic itself is done by `pasta_curves`; the library only moves
//! canonical encodings in and out of it.

use ff::{Field, PrimeField};
use pasta_curves::Fq;
use vstd::prelude::*;

verus! {

/// The order `q` of the Pallas scalar field.
pub open spec fn field_modulus() -> nat {
    0x40000000000000000000000000000000224698fc0994a8dd8c46eb2100000001nat
}

/// The inverse of `x` modulo `q` by Fermat's little theorem: `x^(q-2) mod q`.
pub open spec fn field_inverse(x: nat) -> nat {
    (vstd::arithmetic::power::pow(x as int, (field_modulus() - 2) as nat) % (field_modulus() as int)) as nat
}

/// The field values of a sequence of scalars.
pub open spec fn scalar_values(s: Seq<Scalar>) -> Seq<nat> {
    s.map_values(|x: Scalar| x@)
}

/// Value of a little-endian byte string.
pub open spec fn le_nat(s: Seq<u8>) -> nat
    decreases s.len(),
{
    if s.len() == 0 {
        0
    } else {
        s[0] as nat + 256 * le_nat(s.drop_first())
    }
}

/// `256^n`, the first value that does not fit in `n` bytes.
pub open spec fn pow256(n: nat) -> nat
    decreases n,
{
    if n == 0 {
        1
    } else {
        256 * pow256((n - 1) as nat)
    }
}

/// The field element that an integer denotes.
pub open spec fn fmod(x: int) -> nat {
    (x % (field_modulus() as int)) as nat
}

/// An element of the Pallas scalar field, stored as its canonical
/// little-endian encoding.
#[derive(Clone, Copy, Debug, PartialEq, Eq)]
pub struct Scalar {
    repr: [u8; 32],
}

impl Scalar {
    #[verifier::type_invariant]
    spec fn canonical(self) -> bool {
        le_nat(self.repr@) < field_modulus()
    }

    /// The field element as a number in `[0, q)`.
    pub closed spec fn value(self) -> nat {
        le_nat(self.repr@) % field_modulus()
    }
}

impl View for Scalar {
    type V = nat;

    open spec fn view(&self) -> nat {
        self.value()
    }
}

/// Every scalar denotes a number below the field order.
pub broadcast proof fn lemma_scalar_lt_modulus(x: Scalar)
    ensures
        #[trigger] x.value() < field_modulus(),
{
}

/// `fmod` lands in `[0, q)` and fixes the numbers already there.
pub broadcast proof fn lemma_fmod_range(x: int)
    ensures
        #[trigger] fmod(x) < field_modulus(),
        0 <= x < field_modulus() ==> fmod(x) == x,
{
}

/// A byte string of length `n` denotes a number below `256^n`.
pub proof fn lemma_le_nat_bound(s: Seq<u8>)
    ensures
        le_nat(s) < pow256(s.len()),
    decreases s.len(),
{
    if s.len() > 0 {
        lemma_le_nat_bound(s.drop_first());
    }
}

// ---------------------------------------------------------------------------
// Calls into `pasta_curves`.
// ---------------------------------------------------------------------------

/// `Fq::from(u64)`, handed back as `Fq::to_repr`: the canonical encoding of
/// the field element `v` (the field order exceeds `2^64`).
#[verifier::external_body]
fn fq_from_u64(v: u64) -> (r: [u8; 32])
    ensures
        le_nat(r@) == v as nat,
{
    Fq::from(v).to_repr()
}

/// `Fq + Fq` on canonical encodings: the canonical encoding of `(a + b) mod q`.
#[verifier::external_body]
fn fq_add(a: [u8; 32], b: [u8; 32]) -> (r: [u8; 32])
    requires
        le_nat(a@) < field_modulus(),
        le_nat(b@) < field_modulus(),
    ensures
        le_nat(r@) == (le_nat(a@) + le_nat(b@)) % field_modulus(),
{
    (Fq::from_repr(a).unwrap() + Fq::from_repr(b).unwrap()).to_repr()
}

/// `Fq - Fq` on canonical encodings: the canonical encoding of `(a - b) mod q`.
#[verifier::external_body]
fn fq_sub(a: [u8; 32], b: [u8; 32]) -> (r: [u8; 32])
    requires
        le_nat(a@) < field_modulus(),
        le_nat(b@) < field_modulus(),
    ensures
        le_nat(r@) == fmod(le_nat(a@) - le_nat(b@)),
{
    (Fq::from_repr(a).unwrap() - Fq::from_repr(b).unwrap()).to_repr()
}

/// `Fq * Fq` on canonical encodings: the canonical encoding of `(a * b) mod q`.
#[verifier::external_body]
fn fq_mul(a: [u8; 32], b: [u8; 32]) -> (r: [u8; 32])
    requires
        le_nat(a@) < field_modulus(),
        le_nat(b@) < field_modulus(),
    ensures
        le_nat(r@) == (le_nat(a@) * le_nat(b@)) % field_modulus(),
{
    (Fq::from_repr(a).unwrap() * Fq::from_repr(b).unwrap()).to_repr()
}

/// `-Fq` on a canonical encoding: the canonical encoding of `(-a) mod q`.
#[verifier::external_body]
fn fq_neg(a: [u8; 32]) -> (r: [u8; 32])
    requires
        le_nat(a@) < field_modulus(),
    ensures
        le_nat(r@) == fmod(-le_nat(a@)),
{
    (-Fq::from_repr(a).unwrap()).to_repr()
}

/// `Fq::invert` on a canonical encoding. The source raises `a` to `q - 2`
/// and fails exactly on zero; the result is the multiplicative inverse.
#[verifier::external_body]
fn fq_invert(a: [u8; 32]) -> (r: Option<[u8; 32]>)
    requires
        le_nat(a@) < field_modulus(),
    ensures
        r is Some <==> le_nat(a@) != 0,
        r matches Some(v) ==> le_nat(v@) == field_inverse(le_nat(a@)),
        r matches Some(v) ==> (le_nat(a@) * le_nat(v@)) % field_modulus() == 1,
{
    let inv: Option<Fq> = Fq::from_repr(a).unwrap().invert().into();
    match inv {
        Some(v) => Some(v.to_repr()),
        None => None,
    }
}

/// `Fq::from_repr`: accepts exactly the canonical encodings, those below `q`.
#[verifier::external_body]
fn fq_is_canonical(a: [u8; 32]) -> (r: bool)
    ensures
        r == (le_nat(a@) < field_modulus()),
{
    bool::from(Fq::from_repr(a).is_some())
}

impl Scalar {
    /// The field element `v`.
    pub fn from_u64(v: u64) -> (r: Scalar)
        ensures
            r@ == v as nat,
    {
        let repr = fq_from_u64(v);
        assert(le_nat(repr@) < field_modulus());
        Scalar { repr }
    }

    /// The additive identity.
    pub fn zero() -> (r: Scalar)
        ensures
            r@ == 0,
    {
        Scalar::from_u64(0)
    }

    /// The multiplicative identity.
    pub fn one() -> (r: Scalar)
        ensures
            r@ == 1,
    {
        Scalar::from_u64(1)
    }

    /// Field addition.
    pub fn add(&self, other: &Scalar) -> (r: Scalar)
        ensures
            r@ == fmod(self@ as int + other@ as int),
    {
        proof {
            use_type_invariant(self);
            use_type_invariant(other);
        }
        let repr = fq_add(self.repr, other.repr);
        Scalar { repr }
    }

    /// Field subtraction.
    pub fn sub(&self, other: &Scalar) -> (r: Scalar)
        ensures
            r@ == fmod(self@ - other@),
    {
        proof {
            use_type_invariant(self);
            use_type_invariant(other);
        }
        let repr = fq_sub(self.repr, other.repr);
        Scalar { repr }
    }

    /// Field multiplication.
    pub fn mul(&self, other: &Scalar) -> (r: Scalar)
        ensures
            r@ == fmod(self@ as int * other@ as int),
    {
        proof {
            use_type_invariant(self);
            use_type_invariant(other);
        }
        let repr = fq_mul(self.repr, other.repr);
        Scalar { repr }
    }

    /// Field negation.
    pub fn neg(&self) -> (r: Scalar)
        ensures
            r@ == fmod(-self@),
    {
        proof {
            use_type_invariant(self);
        }
        let repr = fq_neg(self.repr);
        Scalar { repr }
    }

    /// The canonical little-endian encoding.
    pub fn to_repr(&self) -> (r: [u8; 32])
        ensures
            le_nat(r@) == self@,
    {
        proof {
            use_type_invariant(self);
        }
        self.repr
    }

    /// Decode a canonical little-endian encoding; `None` for encodings of
    /// numbers at or above the field order.
    pub fn from_repr(repr: [u8; 32]) -> (r: Option<Scalar>)
        ensures
            r is Some <==> le_nat(repr@) < field_modulus(),
            r matches Some(s) ==> s@ == le_nat(repr@),
    {
        if fq_is_canonical(repr) {
            Some(Scalar { repr })
        } else {
            None
        }
    }

    /// The multiplicative inverse; `None` for zero.
    pub fn invert(&self) -> (r: Option<Scalar>)
        ensures
            r is Some <==> self@ != 0,
            r matches Some(v) ==> v@ == field_inverse(self@),
            r matches Some(v) ==> fmod(self@ as int * v@ as int) == 1,
    {
        proof {
            use_type_invariant(self);
        }
        match fq_invert(self.repr) {
            Some(repr) => {
                proof {
                    vstd::arithmetic::div_mod::lemma_mod_bound(
                        vstd::arithmetic::power::pow(le_nat(self.repr@) as int, (field_modulus() - 2) as nat),
                        field_modulus() as int,
                    );
                }
                Some(Scalar { repr })
            },
            None => None,
        }
    }

    /// Whether this is the zero element.
    pub fn is_zero(&self) -> (r: bool)
        ensures
            r == (self@ == 0),
    {
        let z = Scalar::zero();
        self.equals(&z)
    }

    /// Equality of field elements.
    pub fn equals(&self, other: &Scalar) -> (r: bool)
        ensures
            r == (self@ == other@),
    {
        proof {
            use_type_invariant(self);
            use_type_invariant(other);
        }
        let mut i: usize = 0;
        while i < 32
            invariant
                0 <= i <= 32,
                le_nat(self.repr@) < field_modulus(),
                le_nat(other.repr@) < field_modulus(),
                forall|j: int| 0 <= j < i ==> self.repr@[j] == other.repr@[j],
            decreases 32 - i,
        {
            if self.repr[i] != other.repr[i] {
                proof {
                    if le_nat(self.repr@) == le_nat(other.repr@) {
                        lemma_le_nat_injective(self.repr@, other.repr@);
                        assert(self.repr@[i as int] == other.repr@[i as int]);
                    }
                    vstd::arithmetic::div_mod::lemma_small_mod(
                        le_nat(self.repr@),
                        field_modulus(),
                    );
                    vstd::arithmetic::div_mod::lemma_small_mod(
                        le_nat(other.repr@),
                        field_modulus(),
                    );
                }
                return false;
            }
            i = i + 1;
        }
        proof {
            assert(self.repr@ =~= other.repr@);
        }
        true
    }
}

/// Two byte strings of one length with one value are equal.
pub proof fn lemma_le_nat_injective(a: Seq<u8>, b: Seq<u8>)
    requires
        a.len() == b.len(),
        le_nat(a) == le_nat(b),
    ensures
        a =~= b,
    decreases a.len(),
{
    if a.len() > 0 {
        let ra = le_nat(a.drop_first());
        let rb = le_nat(b.drop_first());
        assert(a[0] == b[0] && ra == rb) by (nonlinear_arith)
            requires
                a[0] as int + 256 * ra == b[0] as int + 256 * rb,
                0 <= a[0] < 256,
                0 <= b[0] < 256,
                ra >= 0,
                rb >= 0,
        ;
        lemma_le_nat_injective(a.drop_first(), b.drop_first());
        assert forall|i: int| 0 <= i < a.len() implies a[i] == b[i] by {
            if i > 0 {
                assert(a[i] == a.drop_first()[i - 1]);
                assert(b[i] == b.drop_first()[i - 1]);
            }
        }
    }
}

} // verus!
