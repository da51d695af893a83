//! Traits of a zkSNARK's keys.

use crate::errors::SpartanError;
use vstd::prelude::*;

verus! {

/// A type representing the digest of a verifier's key.
pub type VegaDigest = [u8; 32];

/// A helper trait that defines the behavior of a verifier key of a zkSNARK.
pub trait DigestHelperTrait {
    /// Returns the digest of the verifier's key.
    fn digest(&self) -> Result<VegaDigest, SpartanError>;
}

} // verus!
