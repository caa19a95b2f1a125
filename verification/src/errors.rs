//! Errors of the commitment schemes.

use vstd::prelude::*;

verus! {

/// What a commitment scheme reports in place of a result.
#[derive(Clone, Debug, PartialEq, Eq)]
pub enum PCSError {
    /// The prover's own consistency check failed.
    InvalidProver(String),
    /// A proof is malformed or a challenge is unusable.
    InvalidProof(String),
    /// The parameters or the inputs do not fit together.
    InvalidParameters(String),
}

/// An [`PCSError::InvalidProver`] with the given message.
pub fn invalid_prover(message: &str) -> (r: PCSError)
    ensures
        r matches PCSError::InvalidProver(m) && m@ == message@,
{
    PCSError::InvalidProver(message.to_string())
}

/// An [`PCSError::InvalidProof`] with the given message.
pub fn invalid_proof(message: &str) -> (r: PCSError)
    ensures
        r matches PCSError::InvalidProof(m) && m@ == message@,
{
    PCSError::InvalidProof(message.to_string())
}

/// An [`PCSError::InvalidParameters`] with the given message.
pub fn invalid_parameters(message: &str) -> (r: PCSError)
    ensures
        r matches PCSError::InvalidParameters(m) && m@ == message@,
{
    PCSError::InvalidParameters(message.to_string())
}

impl PCSError {
    /// The message of the error.
    pub fn message(&self) -> (r: &str)
        ensures
            r@ == (match self {
                PCSError::InvalidProver(m) => m@,
                PCSError::InvalidProof(m) => m@,
                PCSError::InvalidParameters(m) => m@,
            }),
    {
        match self {
            PCSError::InvalidProver(m) => m.as_str(),
            PCSError::InvalidProof(m) => m.as_str(),
            PCSError::InvalidParameters(m) => m.as_str(),
        }
    }
}

} // verus!
