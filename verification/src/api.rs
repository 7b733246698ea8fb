//! The contract a node-local chain database must satisfy for the proposer
//! and the pool to work on top of it.
//!
//! The traits are implemented outside this library by whatever holds the
//! actual chain; the contracts written here are what the core relies on,
//! and every implementor is obliged to meet them.

use vstd::prelude::*;

use crate::codec::spec_encode_inherent;
use crate::error::Error;
use crate::types::AccountId;
use crate::types::Block;
use crate::types::BlockHash;
use crate::types::BlockId;
use crate::types::InherentData;
use crate::types::MAX_VALIDATORS;

verus! {

/// Build new blocks on top of a fixed parent.
///
/// A builder is created by [`Client::build_block`] holding the inherent
/// extrinsics; the proposer then pushes transactions and bakes.
pub trait BlockBuilder: Sized {
    /// The parent hash of the block being built.
    open spec fn parent_hash(&self) -> Seq<u8> {
        Seq::empty()
    }

    /// The number of the block being built.
    open spec fn number(&self) -> u64 {
        0u64
    }

    /// The extrinsics the builder was created with: the inherents.
    open spec fn initial(&self) -> Seq<Seq<u8>> {
        Seq::empty()
    }

    /// The extrinsics pushed since creation, in order.
    open spec fn pushed(&self) -> Seq<Seq<u8>> {
        Seq::empty()
    }

    /// Push an extrinsic onto the block. Fails, leaving the block as it
    /// was, if the runtime rejects the extrinsic.
    fn push_extrinsic(&mut self, extrinsic: &Vec<u8>) -> (r: Result<(), Error>)
        ensures
            final(self).parent_hash() == old(self).parent_hash(),
            final(self).number() == old(self).number(),
            final(self).initial() == old(self).initial(),
            r is Ok ==> final(self).pushed() == old(self).pushed().push(extrinsic@),
            r is Err ==> final(self).pushed() == old(self).pushed(),
    ;

    /// Bake the block with the gathered extrinsics.
    fn bake(self) -> (r: Result<Block, Error>)
        ensures
            r matches Ok(b) ==> {
                &&& b.header.parent_hash@ == self.parent_hash()
                &&& b.header.number == self.number()
                &&& b.extrinsics.deep_view() == self.initial() + self.pushed()
            },
    ;
}

/// Local client abstraction for the consensus: the chain database surface
/// the core consumes.
pub trait Client: Sized {
    /// The block builder for this client.
    type Builder: BlockBuilder;

    /// The value of the randomness beacon at a given block: 32 bytes.
    fn random_seed(&self, at: &BlockId) -> (r: Result<BlockHash, Error>)
        ensures
            r matches Ok(h) ==> h@.len() == 32,
    ;

    /// The validator set at a given block: 32-byte account identifiers, no
    /// more of them than the core supports.
    fn validators(&self, at: &BlockId) -> (r: Result<Vec<AccountId>, Error>)
        ensures
            r matches Ok(v) ==> {
                &&& v@.len() <= MAX_VALIDATORS
                &&& forall|i: int| 0 <= i < v@.len() ==> #[trigger] v@[i]@.len() == 32
            },
    ;

    /// Build a block on top of the parent with the given hash and number,
    /// with the inherent extrinsic already pushed.
    fn build_block(
        &self,
        parent_hash: &BlockHash,
        parent_number: u64,
        inherent_data: &InherentData,
    ) -> (r: Result<Self::Builder, Error>)
        requires
            parent_number < u64::MAX,
        ensures
            r matches Ok(b) ==> {
                &&& b.parent_hash() == parent_hash@
                &&& b.number() == parent_number + 1
                &&& b.initial() == seq![
                    spec_encode_inherent(
                        inherent_data.timestamp,
                        inherent_data.offline_indices@,
                    ),
                ]
                &&& b.pushed() == Seq::<Seq<u8>>::empty()
            },
    ;

    /// The next expected nonce of an account at a block.
    fn index(&self, at: &BlockId, account: &AccountId) -> (r: Result<u64, Error>);

    /// The encoded inherent extrinsics for a block being built on `at`.
    fn inherent_extrinsics(&self, at: &BlockId, inherent_data: &InherentData) -> (r: Result<
        Vec<Vec<u8>>,
        Error,
    >)
        ensures
            r matches Ok(xts) ==> xts.deep_view() == seq![
                spec_encode_inherent(inherent_data.timestamp, inherent_data.offline_indices@),
            ],
    ;

    /// Re-execute `block` against the state at `at`. `Ok(true)` means the
    /// block is good, `Ok(false)` that execution rejected it, and an error
    /// that it could not be evaluated at all.
    fn evaluate_block(&self, at: &BlockId, block: &Block) -> (r: Result<bool, Error>);
}

} // verus!
