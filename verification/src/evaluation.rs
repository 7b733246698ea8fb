//! Structural validity checks on a candidate block: parent linkage, block
//! number, size bound, and the embedded timestamp.

use vstd::prelude::*;

use crate::codec::block_size_within;
use crate::codec::bytes_equal;
use crate::codec::decode_extrinsic;
use crate::codec::inherent_offline;
use crate::codec::inherent_timestamp;
use crate::codec::is_inherent_encoding;
use crate::codec::spec_block_size;
use crate::codec::Extrinsic;
use crate::error::Error;
use crate::error::EvaluationError;
use crate::types::Block;
use crate::types::BlockHash;
use crate::types::MAX_BLOCK_SIZE;
use crate::types::MAX_TIMESTAMP_DRIFT;

verus! {

/// A structurally checked candidate block, reduced to what the vote logic
/// reads: its timestamp and its claimed offline list.
#[derive(Debug, PartialEq, Eq)]
pub struct ProposalView {
    /// The block's embedded timestamp.
    pub timestamp: u64,
    /// The indices the block claims are offline.
    pub noted_offline: Vec<u32>,
}

impl ProposalView {
    /// The block's embedded timestamp.
    pub fn timestamp(&self) -> (r: u64)
        ensures
            r == self.timestamp,
    {
        self.timestamp
    }

    /// The indices the block claims are offline.
    pub fn noted_offline(&self) -> (r: &Vec<u32>)
        ensures
            r@ == self.noted_offline@,
    {
        &self.noted_offline
    }
}

/// Whether a candidate passes the structural evaluation against the given
/// parent and clock reading.
pub open spec fn spec_eval_ok(b: Block, now: u64, parent_hash: Seq<u8>, parent_number: u64) -> bool {
    &&& spec_block_size(b) <= MAX_BLOCK_SIZE
    &&& b.header.parent_hash@ == parent_hash
    &&& parent_number < u64::MAX
    &&& b.header.number == parent_number + 1
    &&& b.extrinsics@.len() >= 1
    &&& is_inherent_encoding(b.extrinsics@[0]@)
    &&& inherent_timestamp(b.extrinsics@[0]@) <= now + MAX_TIMESTAMP_DRIFT
}

/// Check a candidate block: its encoded size, its parent linkage, its
/// number, its inherent extrinsic, and that its timestamp is not far in
/// the future. Each rejection names the first failing check.
pub fn evaluate_initial(
    proposal: &Block,
    now: u64,
    parent_hash: &BlockHash,
    parent_number: u64,
) -> (r: Result<ProposalView, Error>)
    ensures
        spec_eval_ok(*proposal, now, parent_hash@, parent_number) <==> r is Ok,
        r matches Ok(p) ==> {
            &&& p.timestamp == inherent_timestamp(proposal.extrinsics@[0]@)
            &&& p.noted_offline@ == inherent_offline(proposal.extrinsics@[0]@)
        },
        spec_block_size(*proposal) > MAX_BLOCK_SIZE ==> r == Err::<ProposalView, Error>(
            Error::Evaluation(EvaluationError::ProposalTooLarge),
        ),
        spec_block_size(*proposal) <= MAX_BLOCK_SIZE && proposal.header.parent_hash@
            != parent_hash@ ==> r == Err::<ProposalView, Error>(
            Error::Evaluation(EvaluationError::WrongParentHash),
        ),
{
    if !block_size_within(proposal, MAX_BLOCK_SIZE) {
        return Err(Error::Evaluation(EvaluationError::ProposalTooLarge));
    }
    if !bytes_equal(&proposal.header.parent_hash, parent_hash) {
        return Err(Error::Evaluation(EvaluationError::WrongParentHash));
    }
    if parent_number == u64::MAX || proposal.header.number != parent_number + 1 {
        return Err(Error::Evaluation(EvaluationError::WrongNumber));
    }
    if proposal.extrinsics.len() == 0 {
        return Err(Error::Evaluation(EvaluationError::MissingInherent));
    }
    let data = match decode_extrinsic(&proposal.extrinsics[0]) {
        Ok(Extrinsic::Inherent { data }) => data,
        _ => {
            return Err(Error::Evaluation(EvaluationError::MissingInherent));
        },
    };
    let in_window = if now > u64::MAX - MAX_TIMESTAMP_DRIFT {
        true
    } else {
        data.timestamp <= now + MAX_TIMESTAMP_DRIFT
    };
    if !in_window {
        return Err(Error::Evaluation(EvaluationError::TimestampInFuture));
    }
    Ok(ProposalView { timestamp: data.timestamp, noted_offline: data.offline_indices })
}

} // verus!
