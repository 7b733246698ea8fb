//! Error taxonomy shared by the pool and the proposer.

use vstd::prelude::*;

verus! {

/// Why a candidate block failed the structural evaluation.
#[derive(Debug, Clone, PartialEq, Eq)]
pub enum EvaluationError {
    /// The encoded block exceeds the block size limit.
    ProposalTooLarge,
    /// The candidate's parent hash is not the expected parent.
    WrongParentHash,
    /// The candidate's number is not one more than the parent's.
    WrongNumber,
    /// The candidate's timestamp lies too far past the local clock.
    TimestampInFuture,
    /// The candidate carries no decodable inherent extrinsic.
    MissingInherent,
}

/// Errors of the pool and the proposer.
#[derive(Debug, Clone, PartialEq, Eq)]
pub enum Error {
    /// A submitted extrinsic does not decode, or its signature does not
    /// verify under its sender.
    InvalidExtrinsicFormat,
    /// A submitted extrinsic is unsigned; inherents must not go through the
    /// pool.
    IsInherent,
    /// A single encoded extrinsic exceeds the admission limit.
    TooLarge {
        /// Size of the rejected extrinsic.
        got: usize,
        /// The admission limit.
        limit: usize,
    },
    /// The pool is at capacity and rejects new admissions.
    PoolFull,
    /// The chain database could not answer.
    Api,
    /// A delay timer of the surrounding runtime failed.
    Timer,
    /// The structural evaluation of a candidate block failed.
    Evaluation(EvaluationError),
}

impl Error {
    /// A short description, for callers that log or display errors.
    pub fn describe(&self) -> (r: &'static str) {
        match self {
            Error::InvalidExtrinsicFormat => "invalid extrinsic format",
            Error::IsInherent => "extrinsic is inherent",
            Error::TooLarge { .. } => "extrinsic too large",
            Error::PoolFull => "transaction pool is full",
            Error::Api => "chain api failure",
            Error::Timer => "timer failure",
            Error::Evaluation(EvaluationError::ProposalTooLarge) => "proposal too large",
            Error::Evaluation(EvaluationError::WrongParentHash) => "wrong parent hash",
            Error::Evaluation(EvaluationError::WrongNumber) => "wrong block number",
            Error::Evaluation(EvaluationError::TimestampInFuture) => "timestamp in the future",
            Error::Evaluation(EvaluationError::MissingInherent) => "missing inherent extrinsic",
        }
    }
}

} // verus!
