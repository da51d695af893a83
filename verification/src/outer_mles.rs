//! Step-circuit `Az/Bz/Cz` tables, field-valued and small-valued.

use crate::field::Scalar;
use vstd::prelude::*;

verus! {

/// Full field-valued step-circuit `Az/Bz/Cz` tables.
#[derive(Clone, Debug)]
pub struct FieldStepMLEs {
    /// Field-valued `Az` tables in original instance order.
    pub az: Vec<Vec<Scalar>>,
    /// Field-valued `Bz` tables in original instance order.
    pub bz: Vec<Vec<Scalar>>,
    /// Field-valued `Cz` tables in original instance order.
    pub cz: Vec<Vec<Scalar>>,
}

/// Split a list of `(Az, Bz, Cz)` layer triples into three layer lists.
pub fn split_triples(field_mles: Vec<(Vec<Scalar>, Vec<Scalar>, Vec<Scalar>)>) -> (r: (
    Vec<Vec<Scalar>>,
    Vec<Vec<Scalar>>,
    Vec<Vec<Scalar>>,
))
    ensures
        r.0@.len() == field_mles@.len(),
        r.1@.len() == field_mles@.len(),
        r.2@.len() == field_mles@.len(),
        forall|i: int| 0 <= i < field_mles@.len() ==> #[trigger] r.0@[i] == field_mles@[i].0,
        forall|i: int| 0 <= i < field_mles@.len() ==> #[trigger] r.1@[i] == field_mles@[i].1,
        forall|i: int| 0 <= i < field_mles@.len() ==> #[trigger] r.2@[i] == field_mles@[i].2,
{
    let ghost start = field_mles@;
    let mut field_mles = field_mles;
    let mut az: Vec<Vec<Scalar>> = Vec::new();
    let mut bz: Vec<Vec<Scalar>> = Vec::new();
    let mut cz: Vec<Vec<Scalar>> = Vec::new();
    let mut i: usize = 0;
    while i < field_mles.len()
        invariant
            i <= field_mles@.len(),
            field_mles@.len() == start.len(),
            forall|j: int| i <= j < start.len() ==> #[trigger] field_mles@[j] == start[j],
            az@.len() == i,
            bz@.len() == i,
            cz@.len() == i,
            forall|j: int| 0 <= j < i ==> #[trigger] az@[j] == start[j].0,
            forall|j: int| 0 <= j < i ==> #[trigger] bz@[j] == start[j].1,
            forall|j: int| 0 <= j < i ==> #[trigger] cz@[j] == start[j].2,
        decreases start.len() - i,
    {
        let mut triple: (Vec<Scalar>, Vec<Scalar>, Vec<Scalar>) = (Vec::new(), Vec::new(), Vec::new());
        std::mem::swap(&mut triple, &mut field_mles[i]);
        let (a, b, c) = triple;
        az.push(a);
        bz.push(b);
        cz.push(c);
        i = i + 1;
    }
    (az, bz, cz)
}

impl FieldStepMLEs {
    /// Build the tables from per-instance `(Az, Bz, Cz)` triples.
    pub fn from_triples(field_mles: Vec<(Vec<Scalar>, Vec<Scalar>, Vec<Scalar>)>) -> (r: Self)
        ensures
            r.az@.len() == field_mles@.len(),
            r.bz@.len() == field_mles@.len(),
            r.cz@.len() == field_mles@.len(),
            forall|i: int| 0 <= i < field_mles@.len() ==> #[trigger] r.az@[i] == field_mles@[i].0,
            forall|i: int| 0 <= i < field_mles@.len() ==> #[trigger] r.bz@[i] == field_mles@[i].1,
            forall|i: int| 0 <= i < field_mles@.len() ==> #[trigger] r.cz@[i] == field_mles@[i].2,
    {
        let (az, bz, cz) = split_triples(field_mles);
        FieldStepMLEs { az, bz, cz }
    }

    /// Number of step instances.
    pub fn len(&self) -> (r: usize)
        ensures
            r == self.az@.len(),
    {
        self.az.len()
    }
}

/// Small-value `Az/Bz` tables and the global positions that must use field
/// corrections.
///
/// Invariant: for every index in `field_positions`, every layer's small `Az`
/// and `Bz` table stores zero at that index.
#[derive(Clone, Debug)]
pub struct SmallAbStepMLEs<AbLayer> {
    /// Small `Az` tables; global large positions are zeroed.
    pub az_small: Vec<AbLayer>,
    /// Small `Bz` tables; global large positions are zeroed.
    pub bz_small: Vec<AbLayer>,
    /// Sorted positions where any cached value did not fit in the small
    /// representation.
    pub field_positions: Vec<usize>,
}

/// Small-value `Az/Bz/Cz` tables and the global positions that must use field
/// corrections.
#[derive(Clone, Debug)]
pub struct SmallAbcStepMLEs<AbLayer, CLayer> {
    /// Small `Az/Bz` tables and their large-position metadata.
    pub ab: SmallAbStepMLEs<AbLayer>,
    /// Small `Cz` tables; global large positions are zeroed.
    pub cz_small: Vec<CLayer>,
    /// Sorted positions where any cached `C` value did not fit in the small
    /// representation.
    pub c_field_positions: Vec<usize>,
}

} // verus!
