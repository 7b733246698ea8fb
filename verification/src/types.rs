//! Plain data types and the bit-exact constants of the core.

use vstd::prelude::*;

verus! {

/// Maximal size in bytes of a single encoded extrinsic admitted to the pool.
pub const MAX_TRANSACTION_SIZE: usize = 4 * 1024 * 1024;

/// Maximal aggregate size in bytes of the non-inherent extrinsics of a
/// proposed block.
pub const MAX_TRANSACTIONS_SIZE: usize = 4 * 1024 * 1024;

/// Maximal encoded size of a whole block: the transaction budget plus room
/// for the header, the inherent extrinsic and per-extrinsic framing.
pub const MAX_BLOCK_SIZE: usize = 5 * 1024 * 1024;

/// Seconds added to the clock reading at proposer construction to obtain the
/// minimum timestamp of blocks built or voted on at this height.
pub const FORCE_DELAY: u64 = 5;

/// Seconds after proposer construction past which `propose` no longer
/// includes offline reports.
pub const MAX_VOTE_OFFLINE_SECONDS: u64 = 60;

/// Seconds a candidate block's timestamp may lie past the local clock before
/// the candidate is structurally rejected.
pub const MAX_TIMESTAMP_DRIFT: u64 = 60;

/// Largest supported authority set. Offline reports index validators with
/// `u32` values and the inherent extrinsic must fit in a block, which bounds
/// the set the core can work with.
pub const MAX_VALIDATORS: usize = 65536;

/// Number of consecutive missed rounds after which a validator is reported
/// offline. A single missed round is reportable.
pub const OFFLINE_THRESHOLD: u32 = 1;

/// Account identifier: the 32 bytes of the account's ed25519 public key.
pub type AccountId = Vec<u8>;

/// A 32-byte hash value, as raw bytes.
pub type BlockHash = Vec<u8>;

/// Unix time in seconds.
pub type Timestamp = u64;

/// Reference to a block in the chain database.
pub enum BlockId {
    /// By header hash.
    Hash(BlockHash),
    /// By block number.
    Number(u64),
}

/// A block header: the parent linkage and the height.
pub struct Header {
    /// Hash of the parent block's header.
    pub parent_hash: BlockHash,
    /// Block number; one more than the parent's.
    pub number: u64,
}

/// A block: a header and the encoded extrinsics in execution order.
pub struct Block {
    /// The header.
    pub header: Header,
    /// Encoded extrinsics; the inherent extrinsic comes first.
    pub extrinsics: Vec<Vec<u8>>,
}

/// Data the runtime turns into the inherent extrinsic of a block.
pub struct InherentData {
    /// The block's timestamp.
    pub timestamp: Timestamp,
    /// Indices into the current validator set of validators noted offline,
    /// strictly ascending.
    pub offline_indices: Vec<u32>,
}

} // verus!
