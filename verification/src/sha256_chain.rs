//! The SHA-256 chain circuit's public description: its input, its length, and
//! the digest the chain is expected to end with.

use sha2::Digest;
use vstd::prelude::*;

verus! {

/// The SHA-256 digest of a byte string.
pub uninterp spec fn sha256(data: Seq<u8>) -> Seq<u8>;

/// `n` applications of SHA-256 to `input`.
pub open spec fn sha256_chain(input: Seq<u8>, n: nat) -> Seq<u8>
    decreases n,
{
    if n == 0 {
        input
    } else {
        sha256(sha256_chain(input, (n - 1) as nat))
    }
}

/// `sha2::Sha256::digest` of a 32-byte block: its result is the SHA-256
/// digest of the block, which depends on the block alone.
#[verifier::external_body]
fn sha256_of_block(data: [u8; 32]) -> (r: [u8; 32])
    ensures
        r@ == sha256(data@),
{
    sha2::Sha256::digest(data).into()
}

/// SHA-256 chain circuit: `chain_length` SHA-256 hashes starting from a
/// 256-bit input, `Hash[0] = SHA-256(input)`, `Hash[i] = SHA-256(Hash[i - 1])`.
#[derive(Debug, Clone)]
pub struct SmallSha256ChainCircuit {
    /// 32-byte (256-bit) input to start the chain.
    pub input: [u8; 32],
    /// Number of SHA-256 hashes in the chain.
    pub chain_length: usize,
}

impl SmallSha256ChainCircuit {
    /// Create a new SHA-256 chain circuit.
    pub fn new(input: [u8; 32], chain_length: usize) -> (r: Self)
        ensures
            r.input == input,
            r.chain_length == chain_length,
    {
        SmallSha256ChainCircuit { input, chain_length }
    }

    /// The expected final hash: SHA-256 applied `chain_length` times to the
    /// input.
    pub fn expected_output(&self) -> (r: [u8; 32])
        ensures
            r@ == sha256_chain(self.input@, self.chain_length as nat),
    {
        let mut current = self.input;
        let mut i: usize = 0;
        while i < self.chain_length
            invariant
                i <= self.chain_length,
                current@ == sha256_chain(self.input@, i as nat),
            decreases self.chain_length - i,
        {
            current = sha256_of_block(current);
            i = i + 1;
        }
        current
    }

    /// The circuit draws no verifier challenges.
    pub fn num_challenges(&self) -> (r: usize)
        ensures
            r == 0,
    {
        0
    }
}

} // verus!
