//! Multilinear polynomials in evaluation form.

use crate::field::{fmod, Scalar};
use crate::small_int::SmallValue;
use vstd::prelude::*;

verus! {

/// A multilinear polynomial given by its evaluations over the Boolean
/// hypercube, in the usual big-endian index order.
#[derive(Clone, Debug, PartialEq, Eq)]
pub struct MultilinearPolynomial<T> {
    /// Evaluations, one per Boolean point.
    pub Z: Vec<T>,
}

impl<T: Copy> MultilinearPolynomial<T> {
    /// The polynomial with the given evaluation table.
    pub fn new(Z: Vec<T>) -> (r: Self)
        ensures
            r.Z@ == Z@,
    {
        MultilinearPolynomial { Z }
    }

    /// A polynomial with the same evaluation table.
    pub fn duplicate(&self) -> (r: Self)
        ensures
            r.Z@ == self.Z@,
    {
        let mut Z: Vec<T> = Vec::new();
        let mut i: usize = 0;
        while i < self.Z.len()
            invariant
                i <= self.Z@.len(),
                Z@ == self.Z@.take(i as int),
            decreases self.Z@.len() - i,
        {
            Z.push(self.Z[i]);
            i = i + 1;
            assert(Z@ =~= self.Z@.take(i as int));
        }
        assert(Z@ =~= self.Z@);
        MultilinearPolynomial { Z }
    }
}

/// The field-valued polynomial with the same evaluations as a small-valued
/// one.
pub fn small_poly_to_field<SV: SmallValue>(poly: &MultilinearPolynomial<SV>) -> (r:
    MultilinearPolynomial<Scalar>)
    ensures
        r.Z@.len() == poly.Z@.len(),
        forall|i: int| 0 <= i < poly.Z@.len() ==> (#[trigger] r.Z@[i])@ == fmod(poly.Z@[i].int_val()),
{
    let mut Z: Vec<Scalar> = Vec::new();
    let mut i: usize = 0;
    while i < poly.Z.len()
        invariant
            i <= poly.Z@.len(),
            Z@.len() == i,
            forall|j: int| 0 <= j < i ==> (#[trigger] Z@[j])@ == fmod(poly.Z@[j].int_val()),
        decreases poly.Z@.len() - i,
    {
        Z.push(poly.Z[i].small_to_field());
        i = i + 1;
    }
    MultilinearPolynomial { Z }
}

} // verus!
