//! The proposer: block construction, candidate evaluation with timing
//! delays, deterministic round-leader selection, offline-validator
//! reporting, and translation of observed misbehavior into signed
//! on-chain reports.
//!
//! One proposer is built per height by [`ProposerFactory::init`] and holds
//! an immutable snapshot of the parent context. Wall-clock readings are
//! passed in by the caller; the surrounding runtime renders an
//! [`Evaluation::Accept`] delay with its own timer.

use vstd::prelude::*;

use crate::api::BlockBuilder;
use crate::api::Client;
use crate::codec::clone_bytes;
use crate::codec::bytes_equal;
use crate::codec::append_bytes;
use crate::codec::encode_signed_extrinsic;
use crate::codec::inherent_offline;
use crate::codec::inherent_timestamp;
use crate::codec::lemma_inherent_encoding_parts;
use crate::codec::lemma_signed_encoding_parts;
use crate::codec::lemma_total_len_nonneg;
use crate::codec::lemma_xts_size_add;
use crate::codec::lemma_xts_size_bound;
use crate::codec::lemma_xts_size_nonneg;
use crate::codec::push_u32_le;
use crate::codec::push_u64_le;
use crate::codec::spec_block_size;
use crate::codec::spec_encode_inherent;
use crate::codec::spec_encode_signed;
use crate::codec::spec_header_hash;
use crate::codec::hash_header;
use crate::codec::total_len;
use crate::codec::u32_le_bytes;
use crate::codec::u64_le_bytes;
use crate::codec::xts_size;
use crate::crypto::blake2_256;
use crate::crypto::blake2_256_of;
use crate::crypto::ed25519_public;
use crate::crypto::ed25519_public_of;
use crate::crypto::ed25519_sign;
use crate::crypto::ed25519_sign_of;
use crate::error::Error;
use crate::evaluation::evaluate_initial;
use crate::evaluation::spec_eval_ok;
use crate::offline_tracker::OfflineTracker;
use crate::pool::spec_verify_ok;
use crate::pool::views;
use crate::pool::ChainApi;
use crate::pool::Pool;
use crate::pool::TxView;
use crate::pool::cull_pending_post;
use crate::pool::lemma_pending_sub;
use crate::types::AccountId;
use crate::types::Block;
use crate::types::BlockHash;
use crate::types::BlockId;
use crate::types::Header;
use crate::types::InherentData;
use crate::types::Timestamp;
use crate::types::FORCE_DELAY;
use crate::types::MAX_TIMESTAMP_DRIFT;
use crate::types::MAX_TRANSACTIONS_SIZE;
use crate::types::MAX_VALIDATORS;
use crate::types::MAX_VOTE_OFFLINE_SECONDS;

verus! {

/// The big-endian value of a byte string.
pub open spec fn be_nat(s: Seq<u8>) -> nat
    decreases s.len(),
{
    if s.len() == 0 {
        0
    } else {
        be_nat(s.drop_last()) * 256 + (s.last() as nat)
    }
}

/// The deterministic primary slot for a round: the seed picks a starting
/// offset, and leadership advances one slot per round.
pub open spec fn spec_primary_index(seed: Seq<u8>, round: u64, len: int) -> int {
    ((be_nat(seed) % (len as nat)) + round) % (len as int)
}

/// The big-endian value of `seed`, reduced modulo `len`.
fn mod_be(seed: &Vec<u8>, len: u64) -> (r: u64)
    requires
        len >= 1,
    ensures
        r == be_nat(seed@) % (len as nat),
{
    let mut acc: u128 = 0;
    let mut i: usize = 0;
    proof {
        assert(seed@.take(0) =~= Seq::<u8>::empty());
        assert(be_nat(Seq::<u8>::empty()) == 0);
        vstd::arithmetic::div_mod::lemma_small_mod(0nat, len as nat);
    }
    while i < seed.len()
        invariant
            len >= 1,
            0 <= i <= seed@.len(),
            acc == be_nat(seed@.take(i as int)) % (len as nat),
        decreases seed@.len() - i,
    {
        let ghost pre = be_nat(seed@.take(i as int));
        proof {
            assert(seed@.take(i + 1).drop_last() =~= seed@.take(i as int));
            assert(seed@.take(i + 1).last() == seed@[i as int]);
        }
        let b = seed[i];
        let next = (acc * 256 + (b as u128)) % (len as u128);
        proof {
            let m = len as int;
            vstd::arithmetic::div_mod::lemma_mul_mod_noop_left(pre as int, 256, m);
            vstd::arithmetic::div_mod::lemma_add_mod_noop(
                (pre as int % m) * 256,
                b as int,
                m,
            );
            vstd::arithmetic::div_mod::lemma_add_mod_noop(pre as int * 256, b as int, m);
            vstd::arithmetic::div_mod::lemma_mod_twice(pre as int * 256, m);
            assert(next == be_nat(seed@.take(i + 1)) % (len as nat));
        }
        acc = next;
        i += 1;
    }
    proof {
        assert(seed@.take(seed@.len() as int) =~= seed@);
    }
    acc as u64
}

/// Leader rotation: with more than one authority, consecutive rounds have
/// different primaries.
pub proof fn lemma_leader_rotation(seed: Seq<u8>, round: u64, len: int)
    requires
        len > 1,
        round >= 1,
    ensures
        spec_primary_index(seed, round, len) != spec_primary_index(seed, (round - 1) as u64, len),
{
    let b = (be_nat(seed) % (len as nat)) as int;
    let x = b + round - 1;
    let a = x % len;
    vstd::arithmetic::div_mod::lemma_mod_bound(x, len);
    vstd::arithmetic::div_mod::lemma_add_mod_noop(x, 1, len);
    vstd::arithmetic::div_mod::lemma_small_mod(1nat, len as nat);
    if a + 1 < len {
        vstd::arithmetic::div_mod::lemma_small_mod((a + 1) as nat, len as nat);
    } else {
        vstd::arithmetic::div_mod::lemma_mod_self_0(len);
    }
    vstd::arithmetic::div_mod::lemma_mod_bound(x + 1, len);
}

/// Leader determinism: the primary of a round is a pure function of the
/// seed, the round number and the authority count, so any two proposers
/// built over the same seed agree on every round's leader.
pub proof fn lemma_leader_determinism(p1: Proposer, p2: Proposer, round: u64, len: int)
    requires
        p1.random_seed@ == p2.random_seed@,
    ensures
        spec_primary_index(p1.random_seed@, round, len) == spec_primary_index(
            p2.random_seed@,
            round,
            len,
        ),
{
}

/// BFT misbehavior observed by the round engine.
pub enum Misbehavior {
    /// A proposal from a validator that was not the round's primary; not
    /// punishable in this design.
    ProposeOutOfTurn {
        /// The round.
        round: u32,
    },
    /// Two proposals in one round; not punishable in this design.
    DoublePropose {
        /// The round.
        round: u32,
    },
    /// Two prepare votes for different blocks in one round.
    DoublePrepare {
        /// The round.
        round: u32,
        /// First voted hash.
        hash1: Vec<u8>,
        /// Signature on the first vote.
        signature1: Vec<u8>,
        /// Second voted hash.
        hash2: Vec<u8>,
        /// Signature on the second vote.
        signature2: Vec<u8>,
    },
    /// Two commit votes for different blocks in one round.
    DoubleCommit {
        /// The round.
        round: u32,
        /// First voted hash.
        hash1: Vec<u8>,
        /// Signature on the first vote.
        signature1: Vec<u8>,
        /// Second voted hash.
        hash2: Vec<u8>,
        /// Signature on the second vote.
        signature2: Vec<u8>,
    },
}

/// Evidence carries 32-byte block hashes and 64-byte signatures.
pub open spec fn evidence_wf(m: Misbehavior) -> bool {
    match m {
        Misbehavior::ProposeOutOfTurn { .. } => true,
        Misbehavior::DoublePropose { .. } => true,
        Misbehavior::DoublePrepare { round, hash1, signature1, hash2, signature2 } => hash1@.len()
            == 32 && signature1@.len() == 64 && hash2@.len() == 32 && signature2@.len() == 64,
        Misbehavior::DoubleCommit { round, hash1, signature1, hash2, signature2 } => hash1@.len()
            == 32 && signature1@.len() == 64 && hash2@.len() == 32 && signature2@.len() == 64,
    }
}

/// Whether the engine's evidence becomes an on-chain report.
pub open spec fn punishable(m: Misbehavior) -> bool {
    match m {
        Misbehavior::ProposeOutOfTurn { .. } => false,
        Misbehavior::DoublePropose { .. } => false,
        Misbehavior::DoublePrepare { .. } => true,
        Misbehavior::DoubleCommit { .. } => true,
    }
}

/// The call bytes of a misbehavior report: the parent context, the
/// accused validator, and the evidence.
pub open spec fn spec_report_call(
    parent_hash: Seq<u8>,
    parent_number: u64,
    target: Seq<u8>,
    m: Misbehavior,
) -> Seq<u8> {
    parent_hash + u64_le_bytes(parent_number) + target + match m {
        Misbehavior::ProposeOutOfTurn { .. } => Seq::empty(),
        Misbehavior::DoublePropose { .. } => Seq::empty(),
        Misbehavior::DoublePrepare { round, hash1, signature1, hash2, signature2 } => seq![1u8]
            + u32_le_bytes(round) + hash1@ + signature1@ + hash2@ + signature2@,
        Misbehavior::DoubleCommit { round, hash1, signature1, hash2, signature2 } => seq![2u8]
            + u32_le_bytes(round) + hash1@ + signature1@ + hash2@ + signature2@,
    }
}

/// The signed report extrinsic a proposer emits for one piece of
/// punishable evidence, at the given transaction index.
pub open spec fn spec_report_xt(p: Proposer, target: Seq<u8>, m: Misbehavior, index: u64) -> Seq<
    u8,
> {
    spec_encode_signed(
        ed25519_public_of(p.local_key@),
        index,
        ed25519_sign_of(
            p.local_key@,
            u64_le_bytes(index) + spec_report_call(p.parent_hash@, p.parent_number, target, m),
        ),
        spec_report_call(p.parent_hash@, p.parent_number, target, m),
    )
}

/// Number of punishable entries among the first `upto` of `ms`.
pub open spec fn punish_count(ms: Seq<(AccountId, Misbehavior)>, upto: int) -> int
    decreases upto,
{
    if upto <= 0 {
        0
    } else {
        punish_count(ms, upto - 1) + if punishable(ms[upto - 1].1) {
            1int
        } else {
            0int
        }
    }
}

/// Punish counts are non-negative and grow along the list.
pub proof fn lemma_punish_count_bounds(ms: Seq<(AccountId, Misbehavior)>, upto: int)
    requires
        0 <= upto,
    ensures
        0 <= punish_count(ms, upto) <= upto,
    decreases upto,
{
    if upto > 0 {
        lemma_punish_count_bounds(ms, upto - 1);
    }
}

/// Whether the pool content holds a transaction with exactly these bytes.
pub open spec fn pool_has_bytes(txs: Seq<TxView>, bytes: Seq<u8>) -> bool {
    exists|j: int| 0 <= j < txs.len() && txs[j].bytes == bytes
}

/// What the caller decides from a candidate evaluation.
#[derive(Debug, Clone, Copy, PartialEq, Eq, Structural)]
pub enum Evaluation {
    /// Vote no, immediately: a bad vote is never delayed.
    Reject,
    /// Never vote on this candidate: it accuses a validator this node
    /// does not itself consider offline.
    Abstain,
    /// Vote yes once `delay` seconds have passed.
    Accept {
        /// Seconds to wait before the vote resolves.
        delay: u64,
    },
}

/// The proposer's delay before a yes vote: until the candidate's
/// timestamp, and at least until the proposer's minimum timestamp, is
/// current.
pub open spec fn spec_delay(minimum_timestamp: u64, timestamp: u64, now: u64) -> u64 {
    let proposed: u64 = if minimum_timestamp > timestamp {
        minimum_timestamp
    } else {
        timestamp
    };
    if proposed > now {
        (proposed - now) as u64
    } else {
        0u64
    }
}

/// Delay monotonicity: a candidate with a future timestamp is delayed at
/// least until that timestamp is current.
pub proof fn lemma_delay_lower_bound(minimum_timestamp: u64, timestamp: u64, now: u64)
    requires
        timestamp > now,
    ensures
        spec_delay(minimum_timestamp, timestamp, now) >= timestamp - now,
{
}

/// The vote that a chain re-execution verdict warrants: approval is
/// accepted after the delay, an execution-level rejection votes no at
/// once, and an infrastructure failure surfaces as an error,
/// distinguishable from a rejection.
pub open spec fn spec_decide_vote(verdict: Result<bool, Error>, delay: u64) -> Result<
    Evaluation,
    Error,
> {
    match verdict {
        Ok(true) => Ok(Evaluation::Accept { delay }),
        Ok(false) => Ok(Evaluation::Reject),
        Err(e) => Err(e),
    }
}

/// Decide the vote on a candidate given the chain's re-execution verdict.
pub fn decide_vote(verdict: Result<bool, Error>, delay: u64) -> (r: Result<Evaluation, Error>)
    ensures
        r == spec_decide_vote(verdict, delay),
{
    match verdict {
        Ok(true) => Ok(Evaluation::Accept { delay }),
        Ok(false) => Ok(Evaluation::Reject),
        Err(e) => Err(e),
    }
}

/// The inherent extrinsic of a proposed block carries the block's
/// timestamp and an offline list this node stands behind: empty when the
/// height has dragged past the reporting cutoff, and naming only
/// validators this node itself would report.
pub open spec fn propose_offline_ok(
    b: Block,
    ts: u64,
    tracker: OfflineTracker,
    validators: Seq<AccountId>,
    elapsed: u64,
    off: Seq<u32>,
) -> bool {
    &&& b.extrinsics.deep_view()[0] == spec_encode_inherent(ts, off)
    &&& off.len() <= 0xffff_ffff
    &&& forall|a: int, b2: int| 0 <= a < b2 < off.len() ==> off[a] < off[b2]
    &&& elapsed > MAX_VOTE_OFFLINE_SECONDS ==> off == Seq::<u32>::empty()
    &&& forall|j: int|
        0 <= j < off.len() ==> tracker.spec_would_report(validators, #[trigger] off[j] as int)
    &&& elapsed <= MAX_VOTE_OFFLINE_SECONDS ==> forall|i: int|
        0 <= i < validators.len() && tracker.spec_would_report(validators, i) ==> off.contains(
            i as u32,
        )
}

/// Some offline list as above is what the proposed block's inherent
/// extrinsic encodes.
pub open spec fn propose_inherent_ok(
    b: Block,
    ts: u64,
    tracker: OfflineTracker,
    validators: Seq<AccountId>,
    elapsed: u64,
) -> bool {
    exists|off: Seq<u32>| #[trigger] propose_offline_ok(b, ts, tracker, validators, elapsed, off)
}

/// How `propose` used the pool, for the nonce snapshot `t` its cull drew
/// and the builder's accept/reject answer per attempted transaction: the
/// block's non-inherent extrinsics are the accepted members of the
/// budget-limited prefix of the ready set, in order; the pool afterwards
/// is the culled pool minus the rejected entries; and when the prefix is
/// proper, the next ready transaction did not fit the budget.
pub open spec fn propose_txs_ok(
    pre: Pool,
    post: Pool,
    b: Block,
    t: crate::pool::NonceTable,
    accepted: Seq<bool>,
) -> bool {
    let culled = crate::pool::cull_result(t, pre.pool_txs());
    let pend = crate::pool::pending_result(t, culled);
    let tried = pend.take(accepted.len() as int);
    &&& t.wf()
    &&& accepted.len() <= pend.len()
    &&& b.extrinsics.deep_view().skip(1) == crate::pool::selected_bytes(tried, accepted)
    &&& post.pool_txs() == crate::pool::remove_result(
        culled,
        crate::pool::rejected_hashes(tried, accepted),
    )
    &&& accepted.len() < pend.len() ==> total_len(crate::pool::selected_bytes(tried, accepted))
        + pend[accepted.len() as int].encoded_size >= MAX_TRANSACTIONS_SIZE
}

/// The proposer snapshot for one height, immutable once built.
pub struct Proposer {
    /// The 32-byte secret seed of this node's session key.
    pub local_key: Vec<u8>,
    /// The public key derived from `local_key`: this node's account.
    pub local_id: AccountId,
    /// Hash of the parent header.
    pub parent_hash: BlockHash,
    /// Number of the parent block.
    pub parent_number: u64,
    /// The on-chain randomness beacon at the parent, re-hashed locally.
    pub random_seed: BlockHash,
    /// The validator set at the parent.
    pub validators: Vec<AccountId>,
    /// No block of this height carries a smaller timestamp.
    pub minimum_timestamp: Timestamp,
}

impl Proposer {
    /// Well-formed snapshot.
    pub open spec fn wf(self) -> bool {
        &&& self.parent_hash@.len() == 32
        &&& self.random_seed@.len() == 32
        &&& self.local_key@.len() == 32
        &&& self.local_id@.len() == 32
        &&& self.validators@.len() <= MAX_VALIDATORS
        &&& forall|i: int| 0 <= i < self.validators@.len() ==> (#[trigger] self.validators@[i])@.len() == 32
        &&& self.parent_number < u64::MAX
    }

    /// The reference to the parent block.
    pub fn parent_id(&self) -> (r: BlockId)
        ensures
            r matches BlockId::Hash(h) && h@ == self.parent_hash@,
    {
        BlockId::Hash(clone_bytes(&self.parent_hash))
    }

    /// The primary slot of a round among `len` authorities.
    pub fn primary_index(&self, round: u64, len: usize) -> (r: usize)
        requires
            len >= 1,
        ensures
            r == spec_primary_index(self.random_seed@, round, len as int),
            r < len,
    {
        let base = mod_be(&self.random_seed, len as u64);
        let offset = ((base as u128) + (round as u128)) % (len as u128);
        offset as usize
    }

    /// The authority entitled to propose in a round. Deterministic: all
    /// honest nodes with the same seed agree without communication.
    pub fn round_proposer(&self, round: u64, authorities: &Vec<AccountId>) -> (r: AccountId)
        requires
            authorities@.len() >= 1,
        ensures
            r@ == (authorities@[spec_primary_index(
                self.random_seed@,
                round,
                authorities@.len() as int,
            )])@,
    {
        let idx = self.primary_index(round, authorities.len());
        clone_bytes(&authorities[idx])
    }

    /// Note the end of a round in the offline tracker: the primary of the
    /// round either proposed or missed its slot.
    pub fn on_round_end(&self, round: u64, was_proposed: bool, tracker: &mut OfflineTracker)
        requires
            old(tracker).wf(),
            self.validators@.len() >= 1,
        ensures
            OfflineTracker::note_round_end_rel(
                *old(tracker),
                *final(tracker),
                (self.validators@[spec_primary_index(
                    self.random_seed@,
                    round,
                    self.validators@.len() as int,
                )])@,
                was_proposed,
            ),
    {
        let idx = self.primary_index(round, self.validators.len());
        tracker.note_round_end(&self.validators[idx], was_proposed);
    }
}

/// Per-height entry point: wires the chain, the pool and the shared
/// offline tracker into a fresh proposer. The factory owns the tracker
/// across heights.
pub struct ProposerFactory {
    /// The shared offline tracker, re-synced at each init.
    pub offline: OfflineTracker,
}

impl ProposerFactory {
    /// A factory with an empty offline tracker.
    pub fn new() -> (r: ProposerFactory)
        ensures
            r.offline.wf(),
    {
        ProposerFactory { offline: OfflineTracker::new() }
    }

    /// Build the proposer for the height on top of `parent_header`:
    /// fetch and re-hash the randomness beacon, fetch the validator set,
    /// re-sync the offline tracker to it, and fix the minimum timestamp.
    pub fn init<A: Client>(
        &mut self,
        api: &ChainApi<A>,
        parent_header: &Header,
        sign_with: &Vec<u8>,
        now: Timestamp,
    ) -> (r: Result<Proposer, Error>)
        requires
            old(self).offline.wf(),
            sign_with@.len() == 32,
            parent_header.number < u64::MAX,
            now <= u64::MAX - FORCE_DELAY,
        ensures
            final(self).offline.wf(),
            r is Err ==> final(self).offline == old(self).offline,
            r matches Ok(p) ==> {
                &&& p.wf()
                &&& p.parent_hash@ == spec_header_hash(*parent_header)
                &&& p.parent_number == parent_header.number
                &&& p.minimum_timestamp == now + FORCE_DELAY
                &&& p.local_key@ == sign_with@
                &&& p.local_id@ == ed25519_public_of(sign_with@)
                &&& OfflineTracker::note_new_block_rel(
                    old(self).offline,
                    final(self).offline,
                    p.validators@,
                )
                &&& exists|beacon: Seq<u8>| p.random_seed@ == blake2_256_of(beacon)
            },
    {
        let parent_hash = hash_header(parent_header);
        let id = BlockId::Hash(clone_bytes(&parent_hash));
        let beacon = match api.client().random_seed(&id) {
            Ok(s) => s,
            Err(e) => {
                return Err(e);
            },
        };
        let random_seed = blake2_256(&beacon);
        let validators = match api.client().validators(&id) {
            Ok(v) => v,
            Err(e) => {
                return Err(e);
            },
        };
        self.offline.note_new_block(&validators);
        let local_id = ed25519_public(sign_with);
        Ok(
            Proposer {
                local_key: clone_bytes(sign_with),
                local_id,
                parent_hash,
                parent_number: parent_header.number,
                random_seed,
                validators,
                minimum_timestamp: now + FORCE_DELAY,
            },
        )
    }
}

impl Proposer {
    /// Evaluate a candidate block and decide the vote. A structural
    /// failure or an execution rejection votes no at once; a candidate
    /// that accuses a validator this node does not consider offline is
    /// abstained from; a good candidate is accepted after a delay that
    /// makes its timestamp, and this height's minimum timestamp, current.
    pub fn evaluate<A: Client>(
        &self,
        api: &ChainApi<A>,
        tracker: &OfflineTracker,
        unchecked_proposal: &Block,
        now: Timestamp,
    ) -> (r: Result<Evaluation, Error>)
        requires
            self.wf(),
            tracker.wf(),
        ensures
            !spec_eval_ok(*unchecked_proposal, now, self.parent_hash@, self.parent_number) ==> r
                == Ok::<Evaluation, Error>(Evaluation::Reject),
            spec_eval_ok(*unchecked_proposal, now, self.parent_hash@, self.parent_number) && !(
            forall|j: int|
                0 <= j < inherent_offline(unchecked_proposal.extrinsics@[0]@).len()
                    ==> tracker.spec_would_report(
                    self.validators@,
                    #[trigger] inherent_offline(unchecked_proposal.extrinsics@[0]@)[j] as int,
                )) ==> r == Ok::<Evaluation, Error>(Evaluation::Abstain),
            spec_eval_ok(*unchecked_proposal, now, self.parent_hash@, self.parent_number) && (
            forall|j: int|
                0 <= j < inherent_offline(unchecked_proposal.extrinsics@[0]@).len()
                    ==> tracker.spec_would_report(
                    self.validators@,
                    #[trigger] inherent_offline(unchecked_proposal.extrinsics@[0]@)[j] as int,
                )) ==> exists|verdict: Result<bool, Error>|
                r == #[trigger] spec_decide_vote(
                    verdict,
                    spec_delay(
                        self.minimum_timestamp,
                        inherent_timestamp(unchecked_proposal.extrinsics@[0]@),
                        now,
                    ),
                ),
    {
        let proposal = match evaluate_initial(
            unchecked_proposal,
            now,
            &self.parent_hash,
            self.parent_number,
        ) {
            Ok(p) => p,
            Err(_) => {
                return Ok(Evaluation::Reject);
            },
        };
        let proposed_timestamp = if self.minimum_timestamp > proposal.timestamp {
            self.minimum_timestamp
        } else {
            proposal.timestamp
        };
        let delay: u64 = if proposed_timestamp > now {
            proposed_timestamp - now
        } else {
            0
        };
        if !tracker.check_consistency(&self.validators, &proposal.noted_offline) {
            return Ok(Evaluation::Abstain);
        }
        let id = self.parent_id();
        let verdict = api.client().evaluate_block(&id, unchecked_proposal);
        let ghost v = verdict;
        let r = decide_vote(verdict, delay);
        proof {
            assert(delay == spec_delay(
                self.minimum_timestamp,
                inherent_timestamp(unchecked_proposal.extrinsics@[0]@),
                now,
            ));
            assert(r == spec_decide_vote(
                v,
                spec_delay(
                    self.minimum_timestamp,
                    inherent_timestamp(unchecked_proposal.extrinsics@[0]@),
                    now,
                ),
            ));
        }
        r
    }

    /// Build a candidate block: the timestamp inherent — with this node's
    /// offline reports, unless the height has dragged past the reporting
    /// cutoff — followed by as many ready transactions, in pool order, as
    /// fit the transaction budget. Transactions the builder rejects are
    /// removed from the pool. The produced block passes the structural
    /// evaluation it will be held to.
    #[verifier::rlimit(100)]
    pub fn propose<A: Client>(
        &self,
        api: &ChainApi<A>,
        pool: &mut Pool,
        tracker: &OfflineTracker,
        now: Timestamp,
        elapsed_since_start: u64,
    ) -> (r: Result<Block, Error>)
        requires
            self.wf(),
            tracker.wf(),
            old(pool).wf(),
        ensures
            final(pool).wf(),
            r matches Ok(b) ==> {
                let ts = if self.minimum_timestamp > now {
                    self.minimum_timestamp
                } else {
                    now
                };
                &&& b.header.parent_hash@ == self.parent_hash@
                &&& b.header.number == self.parent_number + 1
                &&& b.extrinsics@.len() >= 1
                &&& propose_inherent_ok(b, ts, *tracker, self.validators@, elapsed_since_start)
                &&& total_len(b.extrinsics.deep_view().skip(1)) < MAX_TRANSACTIONS_SIZE
                &&& forall|i: int|
                    1 <= i < b.extrinsics.deep_view().len() ==> spec_verify_ok(
                        #[trigger] b.extrinsics.deep_view()[i],
                    )
                &&& spec_eval_ok(b, ts, self.parent_hash@, self.parent_number)
                &&& exists|t: crate::pool::NonceTable, accepted: Seq<bool>|
                    #[trigger] propose_txs_ok(*old(pool), *final(pool), b, t, accepted)
            },
    {
        let timestamp = if self.minimum_timestamp > now {
            self.minimum_timestamp
        } else {
            now
        };
        let offline_indices: Vec<u32> = if elapsed_since_start > MAX_VOTE_OFFLINE_SECONDS {
            Vec::new()
        } else {
            tracker.reports(&self.validators)
        };
        let inherent_data = InherentData { timestamp, offline_indices };
        let ghost off = inherent_data.offline_indices@;
        let mut builder = match api.client().build_block(
            &self.parent_hash,
            self.parent_number,
            &inherent_data,
        ) {
            Ok(b) => b,
            Err(e) => {
                return Err(e);
            },
        };
        let ghost inherent_enc = spec_encode_inherent(timestamp, off);
        proof {
            lemma_inherent_encoding_parts(timestamp, off);
        }
        let id = self.parent_id();
        let pending = pool.cull_and_get_pending(api, &id);
        let ghost t = choose|t: crate::pool::NonceTable| #[trigger] cull_pending_post(
            *old(pool),
            *pool,
            views(pending@),
            t,
        );
        let ghost culled = pool.pool_txs();
        let ghost pendv = views(pending@);
        proof {
            assert(culled == crate::pool::cull_result(t, old(pool).pool_txs()));
            assert(pendv == crate::pool::pending_result(t, culled));
            assert forall|q: int| 0 <= q < pendv.len() implies crate::pool::txv_wf(
                #[trigger] pendv[q],
            ) by {
                lemma_pending_sub(t, culled, q);
                let k = choose|k: int| 0 <= k < culled.len() && culled[k] == pendv[q];
            }
        }
        let mut unqueue_invalid: Vec<Vec<u8>> = Vec::new();
        let mut pending_size: usize = 0;
        let mut p: usize = 0;
        let mut full = false;
        let ghost mut accepted: Seq<bool> = Seq::empty();
        proof {
            assert(pendv.take(0) =~= Seq::<crate::pool::TxView>::empty());
        }
        while p < pending.len() && !full
            invariant
                self.wf(),
                0 <= p <= pendv.len(),
                pendv == views(pending@),
                forall|q: int| 0 <= q < pendv.len() ==> crate::pool::txv_wf(#[trigger] pendv[q]),
                builder.parent_hash() == self.parent_hash@,
                builder.number() == self.parent_number + 1,
                builder.initial() == seq![inherent_enc],
                pending_size < MAX_TRANSACTIONS_SIZE,
                total_len(builder.pushed()) == pending_size,
                accepted.len() == p,
                builder.pushed() == crate::pool::selected_bytes(pendv.take(p as int), accepted),
                crate::pool::hash_views(unqueue_invalid@) == crate::pool::rejected_hashes(
                    pendv.take(p as int),
                    accepted,
                ),
                full ==> p < pendv.len() && pending_size + pendv[p as int].encoded_size
                    >= MAX_TRANSACTIONS_SIZE,
                forall|j: int|
                    0 <= j < builder.pushed().len() ==> spec_verify_ok(
                        #[trigger] builder.pushed()[j],
                    ),
                forall|j: int|
                    0 <= j < builder.pushed().len() ==> (#[trigger] builder.pushed()[j]).len()
                        >= 105,
            decreases pendv.len() - p, (if full {
                0int
            } else {
                1int
            }),
        {
            let sz = pending[p].verified.encoded_size;
            proof {
                assert(pendv[p as int] == pending@[p as int]@);
            }
            if pending_size + sz >= MAX_TRANSACTIONS_SIZE {
                full = true;
            } else {
                let ghost pushed_before = builder.pushed();
                let ghost acc_before = accepted;
                let ghost invalid_before = crate::pool::hash_views(unqueue_invalid@);
                proof {
                    assert(pendv.take(p + 1).drop_last() =~= pendv.take(p as int));
                    assert(pendv.take(p + 1).last() == pendv[p as int]);
                }
                match builder.push_extrinsic(&pending[p].original) {
                    Ok(_) => {
                        proof {
                            accepted = acc_before.push(true);
                            assert(accepted.drop_last() =~= acc_before);
                            assert(accepted.last());
                            assert(builder.pushed().drop_last() =~= pushed_before);
                            assert(builder.pushed().last() == pendv[p as int].bytes);
                            assert(builder.pushed() =~= crate::pool::selected_bytes(
                                pendv.take(p + 1),
                                accepted,
                            ));
                            assert(crate::pool::rejected_hashes(pendv.take(p + 1), accepted)
                                =~= invalid_before);
                        }
                        pending_size = pending_size + sz;
                    },
                    Err(_) => {
                        unqueue_invalid.push(clone_bytes(&pending[p].verified.hash));
                        proof {
                            accepted = acc_before.push(false);
                            assert(accepted.drop_last() =~= acc_before);
                            assert(!accepted.last());
                            assert(crate::pool::selected_bytes(pendv.take(p + 1), accepted)
                                =~= builder.pushed());
                            assert(crate::pool::hash_views(unqueue_invalid@) =~= invalid_before
                                + seq![pendv[p as int].hash]);
                            assert(crate::pool::hash_views(unqueue_invalid@)
                                =~= crate::pool::rejected_hashes(pendv.take(p + 1), accepted));
                        }
                    },
                }
                p += 1;
            }
        }
        proof {
            if p < pending.len() {
                assert(full);
            }
        }
        pool.remove(&unqueue_invalid, false);
        let ghost pushed = builder.pushed();
        let block = match builder.bake() {
            Ok(b) => b,
            Err(e) => {
                return Err(e);
            },
        };
        proof {
            let dv = block.extrinsics.deep_view();
            assert(dv == seq![inherent_enc] + pushed);
            assert(dv[0] == inherent_enc);
            assert(dv.len() >= 1);
            assert(dv.skip(1) =~= pushed);
            lemma_xts_size_add(seq![inherent_enc], pushed);
            assert(seq![inherent_enc].drop_last() =~= Seq::<Seq<u8>>::empty());
            assert(xts_size(Seq::<Seq<u8>>::empty()) == 0);
            assert(seq![inherent_enc].last() == inherent_enc);
            assert(xts_size(seq![inherent_enc]) == 4 + inherent_enc.len());
            lemma_xts_size_bound(pushed);
            lemma_total_len_nonneg(pushed);
            assert(off.len() <= MAX_VALIDATORS);
            assert(inherent_enc.len() == 13 + 4 * off.len());
            assert(105 * xts_size(pushed) <= 109 * total_len(pushed));
            assert(xts_size(pushed) >= 0) by {
                lemma_xts_size_nonneg(pushed);
            }
            assert(spec_block_size(block) == 16 + block.header.parent_hash@.len() + xts_size(dv));
            assert(block.header.parent_hash@.len() == 32);
            assert(105 * xts_size(pushed) <= 109 * (MAX_TRANSACTIONS_SIZE - 1));
            assert(xts_size(pushed) <= 4354086);
            assert(4 * off.len() <= 4 * MAX_VALIDATORS);
            assert(spec_block_size(block) <= crate::types::MAX_BLOCK_SIZE);
            assert(block.extrinsics@[0]@ == dv[0]);
            assert(crate::codec::is_inherent_encoding(block.extrinsics@[0]@));
            assert(inherent_timestamp(block.extrinsics@[0]@) == timestamp);
            assert(spec_eval_ok(block, timestamp, self.parent_hash@, self.parent_number));
            assert forall|i: int| 1 <= i < dv.len() implies spec_verify_ok(#[trigger] dv[i]) by {
                assert(dv[i] == pushed[i - 1]);
            }
            if elapsed_since_start > MAX_VOTE_OFFLINE_SECONDS {
                assert(off =~= Seq::<u32>::empty());
            }
            assert(block.extrinsics@.len() == dv.len());
            assert(propose_offline_ok(
                block,
                timestamp,
                *tracker,
                self.validators@,
                elapsed_since_start,
                off,
            ));
            assert(propose_inherent_ok(
                block,
                timestamp,
                *tracker,
                self.validators@,
                elapsed_since_start,
            ));
            assert(pool.pool_txs() == crate::pool::remove_result(
                culled,
                crate::pool::rejected_hashes(pendv.take(accepted.len() as int), accepted),
            ));
            assert(dv.skip(1) == crate::pool::selected_bytes(
                pendv.take(accepted.len() as int),
                accepted,
            ));
            assert(propose_txs_ok(*old(pool), *pool, block, t, accepted));
        }
        Ok(block)
    }
}

/// What a run of `import_misbehavior` left in the pool: for every piece
/// of punishable evidence, a self-signed report extrinsic at a distinct
/// consecutive index on top of some base `next0`.
pub open spec fn reports_submitted(
    p: Proposer,
    txs: Seq<TxView>,
    ms: Seq<(AccountId, Misbehavior)>,
    next0: u64,
) -> bool {
    forall|k: int|
        0 <= k < ms.len() && punishable(ms[k].1) ==> next0 + punish_count(ms, k) <= u64::MAX
            && pool_has_bytes(
            txs,
            spec_report_xt(p, (#[trigger] ms[k]).0@, ms[k].1, (next0 + punish_count(ms, k)) as u64),
        )
}

/// Punish counts grow along the list.
pub proof fn lemma_punish_count_mono(ms: Seq<(AccountId, Misbehavior)>, l: int, k: int)
    requires
        0 <= l <= k,
    ensures
        punish_count(ms, l) <= punish_count(ms, k),
    decreases k - l,
{
    if l < k {
        lemma_punish_count_mono(ms, l, k - 1);
    }
}

/// The pool after `import_misbehavior`, successful or not: on top of the
/// cull that refreshing the pending set performed, it grew by at most one
/// entry per punishable piece of evidence — skipped kinds add nothing.
pub open spec fn misbehavior_pool_bound(
    pre: Pool,
    post: Pool,
    ms: Seq<(AccountId, Misbehavior)>,
    t: crate::pool::NonceTable,
) -> bool {
    &&& t.wf()
    &&& post.transactions@.len() <= crate::pool::cull_result(t, pre.pool_txs()).len()
        + punish_count(ms, ms.len() as int)
}

/// What a successful `import_misbehavior` did, for the nonce snapshot its
/// cull drew: when this node's own account has pending transactions, the
/// base index is one past the last of them — the account's highest, since
/// pending entries of one sender are index-ordered — and every punishable
/// piece of evidence became a submitted report at its consecutive index.
pub open spec fn misbehavior_post(
    p: Proposer,
    pre: Pool,
    post: Pool,
    ms: Seq<(AccountId, Misbehavior)>,
    t: crate::pool::NonceTable,
    next0: u64,
) -> bool {
    let culled = crate::pool::cull_result(t, pre.pool_txs());
    let pend = crate::pool::pending_result(t, culled);
    let local = ed25519_public_of(p.local_key@);
    &&& t.wf()
    &&& crate::pool::has_sender(pend, local) ==> crate::pool::last_index_of(pend, local)
        < u64::MAX && next0 == crate::pool::last_index_of(pend, local) + 1
    &&& reports_submitted(p, post.pool_txs(), ms, next0)
}

impl Proposer {
    /// Translate engine-observed misbehavior into signed on-chain report
    /// extrinsics and submit them to the pool. The base index is the
    /// highest pending transaction of this node's own account, or the
    /// chain's answer when none is queued, plus one. Unpunishable
    /// evidence is skipped without fabricating a report.
    #[verifier::rlimit(100)]
    #[verifier::spinoff_prover]
    pub fn import_misbehavior<A: Client>(
        &self,
        api: &ChainApi<A>,
        pool: &mut Pool,
        misbehavior: &Vec<(AccountId, Misbehavior)>,
    ) -> (r: Result<(), Error>)
        requires
            self.wf(),
            old(pool).wf(),
            forall|k: int|
                0 <= k < misbehavior@.len() ==> (#[trigger] misbehavior@[k]).0@.len() == 32
                    && evidence_wf(misbehavior@[k].1),
        ensures
            final(pool).wf(),
            exists|t: crate::pool::NonceTable| #[trigger] misbehavior_pool_bound(
                *old(pool),
                *final(pool),
                misbehavior@,
                t,
            ),
            r is Ok ==> exists|t: crate::pool::NonceTable, next0: u64| #[trigger] misbehavior_post(
                *self,
                *old(pool),
                *final(pool),
                misbehavior@,
                t,
                next0,
            ),
    {
        let ghost ms = misbehavior@;
        let id = self.parent_id();
        let local_id = ed25519_public(&self.local_key);
        let pending = pool.cull_and_get_pending(api, &id);
        let ghost t = choose|t: crate::pool::NonceTable| #[trigger] cull_pending_post(
            *old(pool),
            *pool,
            views(pending@),
            t,
        );
        let ghost culled = pool.pool_txs();
        let ghost pendv = views(pending@);
        let ghost localv = local_id@;
        proof {
            assert(culled == crate::pool::cull_result(t, old(pool).pool_txs()));
            assert(pendv == crate::pool::pending_result(t, culled));
            lemma_punish_count_bounds(ms, ms.len() as int);
            assert(pendv.take(0) =~= Seq::<TxView>::empty());
        }
        let mut cur: Option<u64> = None;
        let mut j: usize = 0;
        while j < pending.len()
            invariant
                0 <= j <= pendv.len(),
                pendv == views(pending@),
                localv == local_id@,
                match cur {
                    Some(ci) => crate::pool::has_sender(pendv.take(j as int), localv) && ci
                        == crate::pool::last_index_of(pendv.take(j as int), localv),
                    None => !crate::pool::has_sender(pendv.take(j as int), localv),
                },
            decreases pendv.len() - j,
        {
            let ghost cur_before = cur;
            proof {
                assert(pendv.take(j + 1).drop_last() =~= pendv.take(j as int));
                assert(pendv.take(j + 1).last() == pendv[j as int]);
            }
            if bytes_equal(&pending[j].verified.sender, &local_id) {
                cur = Some(pending[j].verified.index);
                proof {
                    assert(pendv[j as int].sender == localv);
                    assert(pendv.take(j + 1)[j as int] == pendv[j as int]);
                    assert(crate::pool::has_sender(pendv.take(j + 1), localv));
                }
            } else {
                proof {
                    assert(pendv[j as int].sender != localv);
                    if crate::pool::has_sender(pendv.take(j + 1), localv) {
                        let w = choose|w: int|
                            0 <= w < pendv.take(j + 1).len() && (#[trigger] pendv.take(
                                j + 1,
                            )[w]).sender == localv;
                        assert(w < j);
                        assert(pendv.take(j as int)[w].sender == localv);
                        assert(crate::pool::has_sender(pendv.take(j as int), localv));
                    }
                }
            }
            j += 1;
        }
        proof {
            assert(pendv.take(pendv.len() as int) =~= pendv);
        }
        let cur_index = match cur {
            Some(i) => i,
            None => {
                match api.client().index(&id, &local_id) {
                    Ok(n) => n,
                    Err(e) => {
                        proof {
                            assert(pool.transactions@.len() == culled.len());
                            assert(misbehavior_pool_bound(*old(pool), *pool, ms, t));
                        }
                        return Err(e);
                    },
                }
            },
        };
        if cur_index == u64::MAX {
            proof {
                assert(pool.transactions@.len() == culled.len());
                assert(misbehavior_pool_bound(*old(pool), *pool, ms, t));
            }
            return Err(Error::Api);
        }
        let mut next_index: u64 = cur_index + 1;
        let ghost next0 = next_index;
        let mut k: usize = 0;
        while k < misbehavior.len()
            invariant
                self.wf(),
                pool.wf(),
                ms == misbehavior@,
                local_id@ == ed25519_public_of(self.local_key@),
                local_id@.len() == 32,
                forall|l: int|
                    0 <= l < ms.len() ==> (#[trigger] ms[l]).0@.len() == 32 && evidence_wf(
                        ms[l].1,
                    ),
                0 <= k <= ms.len(),
                t.wf(),
                culled == crate::pool::cull_result(t, old(pool).pool_txs()),
                pool.transactions@.len() <= culled.len() + punish_count(ms, k as int),
                next_index == next0 + punish_count(ms, k as int),
                forall|l: int|
                    0 <= l < k && punishable(ms[l].1) ==> {
                        let idx = (next0 + punish_count(ms, l)) as u64;
                        let xt = spec_report_xt(*self, (#[trigger] ms[l]).0@, ms[l].1, idx);
                        &&& next0 + punish_count(ms, l) <= u64::MAX
                        &&& pool_has_bytes(pool.pool_txs(), xt)
                        &&& xt.len() >= 105
                        &&& crate::codec::is_signed_encoding(xt)
                        &&& crate::codec::signed_index(xt) == idx
                        &&& crate::codec::signed_sender(xt) == ed25519_public_of(self.local_key@)
                    },
            decreases ms.len() - k,
        {
            proof {
                lemma_punish_count_bounds(ms, k as int);
            }
            let punish = match &misbehavior[k].1 {
                Misbehavior::DoublePrepare { .. } => true,
                Misbehavior::DoubleCommit { .. } => true,
                _ => false,
            };
            if punish {
                let mut call: Vec<u8> = Vec::new();
                append_bytes(&mut call, &self.parent_hash);
                push_u64_le(&mut call, self.parent_number);
                append_bytes(&mut call, &misbehavior[k].0);
                match &misbehavior[k].1 {
                    Misbehavior::DoublePrepare { round, hash1, signature1, hash2, signature2 } => {
                        call.push(1);
                        push_u32_le(&mut call, *round);
                        append_bytes(&mut call, hash1);
                        append_bytes(&mut call, signature1);
                        append_bytes(&mut call, hash2);
                        append_bytes(&mut call, signature2);
                        proof {
                            assert(call@ =~= spec_report_call(
                                self.parent_hash@,
                                self.parent_number,
                                ms[k as int].0@,
                                ms[k as int].1,
                            ));
                        }
                    },
                    Misbehavior::DoubleCommit { round, hash1, signature1, hash2, signature2 } => {
                        call.push(2);
                        push_u32_le(&mut call, *round);
                        append_bytes(&mut call, hash1);
                        append_bytes(&mut call, signature1);
                        append_bytes(&mut call, hash2);
                        append_bytes(&mut call, signature2);
                        proof {
                            assert(call@ =~= spec_report_call(
                                self.parent_hash@,
                                self.parent_number,
                                ms[k as int].0@,
                                ms[k as int].1,
                            ));
                        }
                    },
                    _ => {
                        proof {
                            assert(false);
                        }
                    },
                }
                let mut payload: Vec<u8> = Vec::new();
                push_u64_le(&mut payload, next_index);
                append_bytes(&mut payload, &call);
                let signature = ed25519_sign(&self.local_key, &payload);
                let xt = encode_signed_extrinsic(&local_id, next_index, &signature, &call);
                let ghost xtv = spec_report_xt(*self, ms[k as int].0@, ms[k as int].1, next_index);
                proof {
                    assert(xt@ == xtv);
                    lemma_signed_encoding_parts(local_id@, next_index, signature@, call@);
                    assert(crate::codec::signed_payload(xt@) =~= payload@);
                    assert(call@.len() <= 1024);
                    assert(xt@.len() == 105 + call@.len());
                    assert(spec_verify_ok(xt@));
                }
                let ghost pre = pool.pool_txs();
                match pool.submit(api, &id, &xt) {
                    Ok(_) => {},
                    Err(e) => {
                        proof {
                            lemma_punish_count_mono(ms, k as int, ms.len() as int);
                            assert(misbehavior_pool_bound(*old(pool), *pool, ms, t));
                        }
                        return Err(e);
                    },
                }
                proof {
                    let post = pool.pool_txs();
                    assert(crate::pool::submit_effect(pre, post, xt@));
                    if crate::pool::pool_has(
                        pre,
                        crate::codec::signed_sender(xt@),
                        crate::codec::signed_index(xt@),
                    ) {
                        let pos = crate::pool::pool_pos(
                            pre,
                            crate::codec::signed_sender(xt@),
                            crate::codec::signed_index(xt@),
                        );
                        assert(post[pos].bytes == xt@);
                        assert(pool_has_bytes(post, xt@));
                        assert forall|l: int| 0 <= l < k && punishable(ms[l].1) implies
                            pool_has_bytes(
                            post,
                            spec_report_xt(
                                *self,
                                (#[trigger] ms[l]).0@,
                                ms[l].1,
                                (next0 + punish_count(ms, l)) as u64,
                            ),
                        ) by {
                            let oxt = spec_report_xt(
                                *self,
                                ms[l].0@,
                                ms[l].1,
                                (next0 + punish_count(ms, l)) as u64,
                            );
                            let w = choose|w: int| 0 <= w < pre.len() && pre[w].bytes == oxt;
                            lemma_punish_count_bounds(ms, l);
                            lemma_punish_count_mono(ms, l + 1, k as int);
                            assert(punish_count(ms, l + 1) == punish_count(ms, l) + 1);
                            assert(crate::pool::txv_wf(pre[w]));
                            assert(pre[w].index == crate::codec::signed_index(oxt));
                            assert(crate::pool::txv_wf(pre[pos]));
                            assert(pre[pos].index == next_index);
                            assert(w != pos);
                            assert(post[w].bytes == oxt);
                        }
                    } else {
                        let p = choose|p: int|
                            0 <= p <= pre.len() && post == pre.insert(
                                p,
                                crate::pool::spec_verified_view(xt@),
                            );
                        assert(post[p].bytes == xt@);
                        assert(pool_has_bytes(post, xt@));
                        assert forall|l: int| 0 <= l < k && punishable(ms[l].1) implies
                            pool_has_bytes(
                            post,
                            spec_report_xt(
                                *self,
                                (#[trigger] ms[l]).0@,
                                ms[l].1,
                                (next0 + punish_count(ms, l)) as u64,
                            ),
                        ) by {
                            let oxt = spec_report_xt(
                                *self,
                                ms[l].0@,
                                ms[l].1,
                                (next0 + punish_count(ms, l)) as u64,
                            );
                            let w = choose|w: int| 0 <= w < pre.len() && pre[w].bytes == oxt;
                            if w < p {
                                assert(post[w].bytes == oxt);
                            } else {
                                assert(post[w + 1].bytes == oxt);
                            }
                        }
                    }
                }
                proof {
                    assert(punishable(ms[k as int].1));
                    assert(pool.pool_txs().len() <= pre.len() + 1);
                    assert(pool.transactions@.len() <= culled.len() + punish_count(ms, k + 1));
                }
                if next_index == u64::MAX {
                    proof {
                        lemma_punish_count_mono(ms, k + 1, ms.len() as int);
                        assert(misbehavior_pool_bound(*old(pool), *pool, ms, t));
                    }
                    return Err(Error::Api);
                }
                next_index = next_index + 1;
            }
            proof {
                assert(punish_count(ms, k + 1) == punish_count(ms, k as int) + if punishable(
                    ms[k as int].1,
                ) {
                    1int
                } else {
                    0int
                });
            }
            k += 1;
        }
        proof {
            assert(reports_submitted(*self, pool.pool_txs(), ms, next0));
            assert(misbehavior_pool_bound(*old(pool), *pool, ms, t));
            if crate::pool::has_sender(pendv, localv) {
                assert(cur is Some);
                assert(cur_index == crate::pool::last_index_of(pendv, localv));
            }
            assert(misbehavior_post(*self, *old(pool), *pool, ms, t, next0));
        }
        Ok(())
    }
}

/// Self-consistency: a block this node's own `propose` built passes the
/// structural evaluation at any later clock reading that has reached its
/// timestamp window, and its offline list passes this node's own
/// consistency check, so local `evaluate` never rejects or abstains on it
/// for structural reasons.
pub proof fn lemma_self_consistency(
    b: Block,
    ts: u64,
    now2: u64,
    parent_hash: Seq<u8>,
    parent_number: u64,
    tracker: OfflineTracker,
    validators: Seq<AccountId>,
    elapsed: u64,
)
    requires
        spec_eval_ok(b, ts, parent_hash, parent_number),
        propose_inherent_ok(b, ts, tracker, validators, elapsed),
        inherent_timestamp(b.extrinsics@[0]@) <= now2 + MAX_TIMESTAMP_DRIFT,
    ensures
        spec_eval_ok(b, now2, parent_hash, parent_number),
        forall|j: int|
            0 <= j < inherent_offline(b.extrinsics@[0]@).len() ==> tracker.spec_would_report(
                validators,
                #[trigger] inherent_offline(b.extrinsics@[0]@)[j] as int,
            ),
{
    let off = choose|off: Seq<u32>| #[trigger] propose_offline_ok(
        b,
        ts,
        tracker,
        validators,
        elapsed,
        off,
    );
    lemma_inherent_encoding_parts(ts, off);
    assert(b.extrinsics@[0]@ == b.extrinsics.deep_view()[0]);
    assert(inherent_offline(b.extrinsics@[0]@) == off);
}

} // verus!
