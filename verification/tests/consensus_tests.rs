use blake2::digest::consts::U32;
use blake2::Blake2b;
use blake2::Digest;
use ed25519_dalek::Signer;
use ed25519_dalek::SigningKey;

use node_consensus::api::Client;
use node_consensus::api::BlockBuilder;
use node_consensus::codec::encode_inherent;
use node_consensus::codec::hash_header;
use node_consensus::error::Error;
use node_consensus::error::EvaluationError;
use node_consensus::evaluation::evaluate_initial;
use node_consensus::offline_tracker::OfflineTracker;
use node_consensus::pool::ChainApi;
use node_consensus::pool::Choice;
use node_consensus::pool::NonceTable;
use node_consensus::pool::Options;
use node_consensus::pool::Pool;
use node_consensus::pool::Readiness;
use node_consensus::pool::Transaction;
use node_consensus::proposer::decide_vote;
use node_consensus::proposer::Evaluation;
use node_consensus::proposer::Misbehavior;
use node_consensus::proposer::Proposer;
use node_consensus::proposer::ProposerFactory;
use node_consensus::types::Block;
use node_consensus::types::BlockHash;
use node_consensus::types::BlockId;
use node_consensus::types::Header;
use node_consensus::types::InherentData;

fn key(b: u8) -> SigningKey {
    SigningKey::from_bytes(&[b; 32])
}

fn acct(b: u8) -> Vec<u8> {
    key(b).verifying_key().to_bytes().to_vec()
}

fn le64(v: u64) -> Vec<u8> {
    v.to_le_bytes().to_vec()
}

fn blake2_256_direct(data: &[u8]) -> Vec<u8> {
    let mut h: Blake2b<U32> = Blake2b::new();
    h.update(data);
    h.finalize().to_vec()
}

/// A signed extrinsic in the canonical encoding, signed by the key with
/// seed byte `kb`.
fn signed_xt(kb: u8, index: u64, call: &[u8]) -> Vec<u8> {
    let sk = key(kb);
    let sender = sk.verifying_key().to_bytes().to_vec();
    let mut payload = le64(index);
    payload.extend_from_slice(call);
    let sig = sk.sign(&payload).to_bytes().to_vec();
    let mut out = vec![1u8];
    out.extend_from_slice(&sender);
    out.extend_from_slice(&le64(index));
    out.extend_from_slice(&sig);
    out.extend_from_slice(call);
    out
}

struct MockBuilder {
    parent_hash: Vec<u8>,
    number: u64,
    xts: Vec<Vec<u8>>,
}

impl BlockBuilder for MockBuilder {
    fn push_extrinsic(&mut self, extrinsic: &Vec<u8>) -> Result<(), Error> {
        self.xts.push(extrinsic.clone());
        Ok(())
    }

    fn bake(self) -> Result<Block, Error> {
        Ok(Block {
            header: Header { parent_hash: self.parent_hash, number: self.number },
            extrinsics: self.xts,
        })
    }
}

struct MockClient {
    seed: Vec<u8>,
    validators: Vec<Vec<u8>>,
    nonces: Vec<(Vec<u8>, u64)>,
    eval: bool,
}

impl Client for MockClient {
    type Builder = MockBuilder;

    fn random_seed(&self, _at: &BlockId) -> Result<BlockHash, Error> {
        Ok(self.seed.clone())
    }

    fn validators(&self, _at: &BlockId) -> Result<Vec<Vec<u8>>, Error> {
        Ok(self.validators.clone())
    }

    fn build_block(
        &self,
        parent_hash: &BlockHash,
        parent_number: u64,
        inherent_data: &InherentData,
    ) -> Result<MockBuilder, Error> {
        let inherent = encode_inherent(&InherentData {
            timestamp: inherent_data.timestamp,
            offline_indices: inherent_data.offline_indices.clone(),
        });
        Ok(MockBuilder {
            parent_hash: parent_hash.clone(),
            number: parent_number + 1,
            xts: vec![inherent],
        })
    }

    fn index(&self, _at: &BlockId, account: &Vec<u8>) -> Result<u64, Error> {
        for (who, n) in &self.nonces {
            if who == account {
                return Ok(*n);
            }
        }
        Ok(0)
    }

    fn inherent_extrinsics(
        &self,
        _at: &BlockId,
        inherent_data: &InherentData,
    ) -> Result<Vec<Vec<u8>>, Error> {
        Ok(vec![encode_inherent(&InherentData {
            timestamp: inherent_data.timestamp,
            offline_indices: inherent_data.offline_indices.clone(),
        })])
    }

    fn evaluate_block(&self, _at: &BlockId, _block: &Block) -> Result<bool, Error> {
        Ok(self.eval)
    }
}

fn mock_api(validators: Vec<Vec<u8>>, nonces: Vec<(Vec<u8>, u64)>) -> ChainApi<MockClient> {
    ChainApi::new(MockClient { seed: vec![7u8; 32], validators, nonces, eval: true })
}

fn big_pool() -> Pool {
    Pool::new(Options { max_count: 1024, max_mem: 64 * 1024 * 1024 })
}

fn parent_header() -> Header {
    Header { parent_hash: vec![0u8; 32], number: 41 }
}

/// Build a proposer over the mock chain at `now`.
fn setup(
    validators: Vec<Vec<u8>>,
    nonces: Vec<(Vec<u8>, u64)>,
    now: u64,
) -> (ChainApi<MockClient>, ProposerFactory, Proposer) {
    let api = mock_api(validators, nonces);
    let mut factory = ProposerFactory::new();
    let header = parent_header();
    let sign_with = vec![9u8; 32];
    let proposer = factory.init(&api, &header, &sign_with, now).unwrap();
    (api, factory, proposer)
}

/// Decode the inherent extrinsic of a produced block through the
/// structural evaluation.
fn view_of(block: &Block, now: u64, parent: &Header) -> (u64, Vec<u32>) {
    let parent_hash = hash_header(parent);
    let view = evaluate_initial(block, now, &parent_hash, parent.number).unwrap();
    (view.timestamp(), view.noted_offline().clone())
}

#[test]
fn submit_returns_blake2_hash_of_bytes() {
    let api = mock_api(vec![acct(1)], vec![]);
    let mut pool = big_pool();
    let xt = signed_xt(1, 0, b"transfer");
    let hash = pool.submit(&api, &BlockId::Number(0), &xt).unwrap();
    assert_eq!(hash, blake2_256_direct(&xt));
    assert_ne!(hash, xt);
    assert_eq!(hash.len(), 32);
    assert_eq!(pool.light_status().transaction_count, 1);
    assert_eq!(pool.light_status().mem_usage, xt.len());
}

#[test]
fn submit_rejects_inherent() {
    let api = mock_api(vec![], vec![]);
    let mut pool = big_pool();
    let xt = encode_inherent(&InherentData { timestamp: 10, offline_indices: vec![] });
    assert_eq!(pool.submit(&api, &BlockId::Number(0), &xt), Err(Error::IsInherent));
    assert_eq!(pool.light_status().transaction_count, 0);
}

#[test]
fn submit_rejects_undecodable_bytes() {
    let api = mock_api(vec![], vec![]);
    let mut pool = big_pool();
    assert_eq!(
        pool.submit(&api, &BlockId::Number(0), &vec![9u8, 9, 9]),
        Err(Error::InvalidExtrinsicFormat)
    );
}

#[test]
fn submit_rejects_oversize_extrinsic() {
    let api = mock_api(vec![], vec![]);
    let mut pool = Pool::new(Options { max_count: 16, max_mem: 16 * 1024 * 1024 });
    let call = vec![0u8; 4 * 1024 * 1024];
    let xt = signed_xt(1, 0, &call);
    let got = xt.len();
    assert_eq!(
        pool.submit(&api, &BlockId::Number(0), &xt),
        Err(Error::TooLarge { got, limit: 4 * 1024 * 1024 })
    );
}

#[test]
fn submit_rejects_bad_signature() {
    let api = mock_api(vec![], vec![]);
    let mut pool = big_pool();
    let mut xt = signed_xt(1, 0, b"transfer");
    let last = xt.len() - 1;
    xt[last] ^= 1; // corrupt the call, which the signature covers
    assert_eq!(pool.submit(&api, &BlockId::Number(0), &xt), Err(Error::InvalidExtrinsicFormat));
}

#[test]
fn submit_rejects_new_when_full() {
    let api = mock_api(vec![], vec![]);
    let mut pool = Pool::new(Options { max_count: 1, max_mem: 1024 * 1024 });
    pool.submit(&api, &BlockId::Number(0), &signed_xt(1, 0, b"a")).unwrap();
    assert_eq!(
        pool.submit(&api, &BlockId::Number(0), &signed_xt(2, 0, b"b")),
        Err(Error::PoolFull)
    );
    assert_eq!(pool.light_status().transaction_count, 1);
}

#[test]
fn replacement_by_sender_index_collision() {
    // Submit (X, 7, bytes_a) then (X, 7, bytes_b): exactly one entry for
    // (X, 7) remains and it holds bytes_b; the first hash is gone.
    let x = acct(1);
    let api = mock_api(vec![], vec![(x.clone(), 7)]);
    let mut pool = big_pool();
    let bytes_a = signed_xt(1, 7, b"first");
    let bytes_b = signed_xt(1, 7, b"second");
    let hash_a = pool.submit(&api, &BlockId::Number(0), &bytes_a).unwrap();
    let hash_b = pool.submit(&api, &BlockId::Number(0), &bytes_b).unwrap();
    assert_ne!(hash_a, hash_b);
    assert_eq!(pool.light_status().transaction_count, 1);
    let pending = pool.cull_and_get_pending(&api, &BlockId::Number(0));
    assert_eq!(pending.len(), 1);
    assert_eq!(pending[0].original, bytes_b);
    assert_eq!(pending[0].verified.hash, hash_b);
}

#[test]
fn idempotent_submission() {
    // The same bytes twice: the same hash both times, pool grows by one.
    let x = acct(1);
    let api = mock_api(vec![], vec![(x.clone(), 7)]);
    let mut pool = big_pool();
    let bytes = signed_xt(1, 7, b"once");
    let h1 = pool.submit(&api, &BlockId::Number(0), &bytes).unwrap();
    let h2 = pool.submit(&api, &BlockId::Number(0), &bytes).unwrap();
    assert_eq!(h1, h2);
    assert_eq!(pool.light_status().transaction_count, 1);
}

#[test]
fn cull_removes_stale() {
    // Sender X's queued transaction lies below its chain nonce and is
    // evicted; sender Y's ready transaction stays and is yielded.
    let x = acct(1);
    let y = acct(2);
    let api = mock_api(vec![], vec![(x.clone(), 7), (y.clone(), 3)]);
    let mut pool = big_pool();
    pool.submit(&api, &BlockId::Number(0), &signed_xt(1, 5, b"old")).unwrap();
    let ready = signed_xt(2, 3, b"new");
    pool.submit(&api, &BlockId::Number(0), &ready).unwrap();
    assert_eq!(pool.light_status().transaction_count, 2);
    let pending = pool.cull_and_get_pending(&api, &BlockId::Number(0));
    assert_eq!(pool.light_status().transaction_count, 1);
    assert_eq!(pending.len(), 1);
    assert_eq!(pending[0].original, ready);
}

#[test]
fn remove_drops_listed_hashes() {
    let x = acct(1);
    let api = mock_api(vec![], vec![(x.clone(), 0)]);
    let mut pool = big_pool();
    let h1 = pool.submit(&api, &BlockId::Number(0), &signed_xt(1, 0, b"a")).unwrap();
    let _h2 = pool.submit(&api, &BlockId::Number(0), &signed_xt(1, 1, b"b")).unwrap();
    pool.remove(&vec![h1], false);
    assert_eq!(pool.light_status().transaction_count, 1);
    assert_eq!(pool.transactions[0].verified.index, 1);
}

#[test]
fn status_counts_ready_and_future() {
    let x = acct(1);
    let api = mock_api(vec![], vec![(x.clone(), 7)]);
    let mut pool = big_pool();
    let a = signed_xt(1, 7, b"ready");
    let b = signed_xt(1, 9, b"future");
    pool.submit(&api, &BlockId::Number(0), &a).unwrap();
    pool.submit(&api, &BlockId::Number(0), &b).unwrap();
    let status = pool.status(&api, &BlockId::Number(0));
    assert_eq!(status.ready_count, 1);
    assert_eq!(status.future_count, 1);
    assert_eq!(status.total_bytes, a.len() + b.len());
}

#[test]
fn is_ready_classifies_and_advances() {
    let x = acct(1);
    let api = mock_api(vec![], vec![(x.clone(), 7)]);
    let xt7 = signed_xt(1, 7, b"a");
    let v7 = api.verify_transaction(&BlockId::Number(0), &xt7).unwrap();
    let xt8 = signed_xt(1, 8, b"b");
    let v8 = api.verify_transaction(&BlockId::Number(0), &xt8).unwrap();
    let xt5 = signed_xt(1, 5, b"c");
    let v5 = api.verify_transaction(&BlockId::Number(0), &xt5).unwrap();
    let mut nonces = NonceTable::new();
    let t7 = Transaction { verified: v7, original: xt7 };
    let t8 = Transaction { verified: v8, original: xt8 };
    let t5 = Transaction { verified: v5, original: xt5 };
    assert_eq!(api.is_ready(&BlockId::Number(0), &mut nonces, &t5), Readiness::Stale);
    assert_eq!(api.is_ready(&BlockId::Number(0), &mut nonces, &t8), Readiness::Ready);
    // after two classifications the expectation advanced past 8
    assert_eq!(api.is_ready(&BlockId::Number(0), &mut nonces, &t7), Readiness::Stale);
}

#[test]
fn empty_pool_proposes_inherent_only_block() {
    // Validators [A, B, C]; parent at number 41; pool empty. The block has
    // number 42, the matching parent hash, and a single inherent carrying
    // the minimum timestamp and no offline reports.
    let validators = vec![acct(1), acct(2), acct(3)];
    let now = 1_000;
    let (api, factory, proposer) = setup(validators, vec![], now);
    let mut pool = big_pool();
    let block = proposer.propose(&api, &mut pool, &factory.offline, now, 0).unwrap();
    assert_eq!(block.header.number, 42);
    let parent = parent_header();
    assert_eq!(block.header.parent_hash, hash_header(&parent));
    assert_eq!(block.extrinsics.len(), 1);
    let (ts, offline) = view_of(&block, now + 5, &parent);
    assert_eq!(ts, now + 5); // minimum_timestamp == now + FORCE_DELAY
    assert_eq!(offline, Vec::<u32>::new());
}

#[test]
fn single_sender_fifo_inclusion() {
    // Sender X submits indices 7, 8, 9 with on-chain nonce 7: all three
    // appear in the block in that order. An index-11 transaction stays
    // future and is not included.
    let x = acct(1);
    let now = 1_000;
    let (api, factory, proposer) = setup(vec![acct(1), acct(2)], vec![(x.clone(), 7)], now);
    let mut pool = big_pool();
    let xt7 = signed_xt(1, 7, b"t7");
    let xt8 = signed_xt(1, 8, b"t8");
    let xt9 = signed_xt(1, 9, b"t9");
    let xt11 = signed_xt(1, 11, b"t11");
    pool.submit(&api, &BlockId::Number(41), &xt9).unwrap();
    pool.submit(&api, &BlockId::Number(41), &xt7).unwrap();
    pool.submit(&api, &BlockId::Number(41), &xt11).unwrap();
    pool.submit(&api, &BlockId::Number(41), &xt8).unwrap();
    let block = proposer.propose(&api, &mut pool, &factory.offline, now, 0).unwrap();
    assert_eq!(block.extrinsics.len(), 4);
    assert_eq!(block.extrinsics[1], xt7);
    assert_eq!(block.extrinsics[2], xt8);
    assert_eq!(block.extrinsics[3], xt9);
}

#[test]
fn gap_keeps_future_held() {
    // next_nonce[X] = 7; only index 9 is queued, so nothing from X is
    // included. After 7 and 8 arrive, the next block carries 7, 8, 9.
    let x = acct(1);
    let now = 1_000;
    let (api, factory, proposer) = setup(vec![acct(1), acct(2)], vec![(x.clone(), 7)], now);
    let mut pool = big_pool();
    let xt7 = signed_xt(1, 7, b"t7");
    let xt8 = signed_xt(1, 8, b"t8");
    let xt9 = signed_xt(1, 9, b"t9");
    pool.submit(&api, &BlockId::Number(41), &xt9).unwrap();
    let block = proposer.propose(&api, &mut pool, &factory.offline, now, 0).unwrap();
    assert_eq!(block.extrinsics.len(), 1);
    assert_eq!(pool.light_status().transaction_count, 1);
    pool.submit(&api, &BlockId::Number(41), &xt7).unwrap();
    pool.submit(&api, &BlockId::Number(41), &xt8).unwrap();
    let block2 = proposer.propose(&api, &mut pool, &factory.offline, now, 0).unwrap();
    assert_eq!(block2.extrinsics.len(), 4);
    assert_eq!(block2.extrinsics[1], xt7);
    assert_eq!(block2.extrinsics[2], xt8);
    assert_eq!(block2.extrinsics[3], xt9);
}

#[test]
fn produced_block_passes_own_evaluation() {
    // Self-consistency: what propose built, evaluate accepts (the mock
    // chain executes it successfully), with the intentional delay.
    let x = acct(1);
    let now = 1_000;
    let (api, factory, proposer) = setup(vec![acct(1), acct(2)], vec![(x.clone(), 7)], now);
    let mut pool = big_pool();
    pool.submit(&api, &BlockId::Number(41), &signed_xt(1, 7, b"t7")).unwrap();
    let block = proposer.propose(&api, &mut pool, &factory.offline, now, 0).unwrap();
    let vote = proposer.evaluate(&api, &factory.offline, &block, now).unwrap();
    // the block's timestamp is now + FORCE_DELAY, so the delay is 5
    assert_eq!(vote, Evaluation::Accept { delay: 5 });
}

#[test]
fn bad_candidate_fast_reject() {
    // A candidate whose parent hash differs from the local parent is
    // rejected outright, whatever its timestamp says.
    let now = 1_000;
    let (api, factory, proposer) = setup(vec![acct(1), acct(2)], vec![], now);
    let candidate = Block {
        header: Header { parent_hash: vec![9u8; 32], number: 42 },
        extrinsics: vec![encode_inherent(&InherentData {
            timestamp: now + 1_000_000,
            offline_indices: vec![],
        })],
    };
    let vote = proposer.evaluate(&api, &factory.offline, &candidate, now).unwrap();
    assert_eq!(vote, Evaluation::Reject);
}

#[test]
fn delayed_good_vote() {
    // A well-formed candidate with timestamp now + 3 (past the minimum
    // timestamp) resolves yes no earlier than 3 seconds from the call.
    let init_now = 1_000;
    let (api, factory, proposer) = setup(vec![acct(1), acct(2)], vec![], init_now);
    let now = init_now + 10; // past minimum_timestamp == init_now + 5
    let candidate = Block {
        header: Header { parent_hash: hash_header(&parent_header()), number: 42 },
        extrinsics: vec![encode_inherent(&InherentData {
            timestamp: now + 3,
            offline_indices: vec![],
        })],
    };
    let vote = proposer.evaluate(&api, &factory.offline, &candidate, now).unwrap();
    assert_eq!(vote, Evaluation::Accept { delay: 3 });
}

#[test]
fn current_candidate_accepted_without_delay() {
    let init_now = 1_000;
    let (api, factory, proposer) = setup(vec![acct(1), acct(2)], vec![], init_now);
    let now = init_now + 10;
    let candidate = Block {
        header: Header { parent_hash: hash_header(&parent_header()), number: 42 },
        extrinsics: vec![encode_inherent(&InherentData { timestamp: now, offline_indices: vec![] })],
    };
    let vote = proposer.evaluate(&api, &factory.offline, &candidate, now).unwrap();
    assert_eq!(vote, Evaluation::Accept { delay: 0 });
}

#[test]
fn abstain_on_unjustified_offline_claim() {
    // The candidate accuses validator 0 of being offline; this node has
    // seen nothing of the kind and abstains.
    let init_now = 1_000;
    let (api, factory, proposer) = setup(vec![acct(1), acct(2)], vec![], init_now);
    let now = init_now + 10;
    let candidate = Block {
        header: Header { parent_hash: hash_header(&parent_header()), number: 42 },
        extrinsics: vec![encode_inherent(&InherentData {
            timestamp: now,
            offline_indices: vec![0],
        })],
    };
    let vote = proposer.evaluate(&api, &factory.offline, &candidate, now).unwrap();
    assert_eq!(vote, Evaluation::Abstain);
}

#[test]
fn offline_report_then_cutoff() {
    // A missed round makes the primary reportable: the next block built
    // within the cutoff names it; a block built after the cutoff does not.
    let now = 1_000;
    let validators = vec![acct(1), acct(2), acct(3)];
    let (api, mut factory, proposer) = setup(validators.clone(), vec![], now);
    let round = 0u64;
    let primary = proposer.round_proposer(round, &proposer.validators.clone());
    let primary_pos = validators.iter().position(|v| *v == primary).unwrap() as u32;
    proposer.on_round_end(round, false, &mut factory.offline);
    let mut pool = big_pool();
    let parent = parent_header();
    let block = proposer.propose(&api, &mut pool, &factory.offline, now, 0).unwrap();
    let (_, offline) = view_of(&block, now + 5, &parent);
    assert_eq!(offline, vec![primary_pos]);
    let late = proposer.propose(&api, &mut pool, &factory.offline, now, 61).unwrap();
    let (_, offline_late) = view_of(&late, now + 5, &parent);
    assert_eq!(offline_late, Vec::<u32>::new());
}

#[test]
fn offline_reset_on_proposed_round() {
    let now = 1_000;
    let validators = vec![acct(1), acct(2), acct(3)];
    let (api, mut factory, proposer) = setup(validators, vec![], now);
    let round = 0u64;
    proposer.on_round_end(round, false, &mut factory.offline);
    proposer.on_round_end(round, true, &mut factory.offline);
    let mut pool = big_pool();
    let block = proposer.propose(&api, &mut pool, &factory.offline, now, 0).unwrap();
    let (_, offline) = view_of(&block, now + 5, &parent_header());
    assert_eq!(offline, Vec::<u32>::new());
}

#[test]
fn leader_determinism_cross_node() {
    // Two proposers built over the same seed agree on the leaders of
    // rounds 0..8, and the sequence is a rotation of the four authorities
    // repeated twice.
    let validators = vec![acct(1), acct(2), acct(3), acct(4)];
    let (_, _, p1) = setup(validators.clone(), vec![], 1_000);
    let (_, _, p2) = setup(validators.clone(), vec![], 2_000);
    let seq1: Vec<Vec<u8>> = (0..8).map(|r| p1.round_proposer(r, &validators)).collect();
    let seq2: Vec<Vec<u8>> = (0..8).map(|r| p2.round_proposer(r, &validators)).collect();
    assert_eq!(seq1, seq2);
    for i in 0..4 {
        assert_eq!(seq1[i], seq1[i + 4]);
    }
    for i in 0..7 {
        assert_ne!(seq1[i], seq1[i + 1]);
    }
    let mut first_four = seq1[0..4].to_vec();
    first_four.sort();
    let mut sorted_validators = validators.clone();
    sorted_validators.sort();
    assert_eq!(first_four, sorted_validators);
}

#[test]
fn import_misbehavior_submits_signed_reports() {
    // Two pieces of punishable evidence become two pool entries from this
    // node's own account at consecutive indices; unpunishable evidence is
    // skipped.
    let now = 1_000;
    let (api, _factory, proposer) = setup(vec![acct(1), acct(2)], vec![], now);
    let mut pool = big_pool();
    let evidence = vec![
        (acct(2), Misbehavior::ProposeOutOfTurn { round: 1 }),
        (
            acct(2),
            Misbehavior::DoublePrepare {
                round: 1,
                hash1: vec![1u8; 32],
                signature1: vec![2u8; 64],
                hash2: vec![3u8; 32],
                signature2: vec![4u8; 64],
            },
        ),
        (
            acct(1),
            Misbehavior::DoubleCommit {
                round: 2,
                hash1: vec![5u8; 32],
                signature1: vec![6u8; 64],
                hash2: vec![7u8; 32],
                signature2: vec![8u8; 64],
            },
        ),
    ];
    proposer.import_misbehavior(&api, &mut pool, &evidence).unwrap();
    assert_eq!(pool.light_status().transaction_count, 2);
    let local_id = key(9).verifying_key().to_bytes().to_vec();
    // the chain's nonce for the local account is 0, and the design takes
    // the successor, so the reports sit at indices 1 and 2
    assert_eq!(pool.transactions[0].verified.sender, local_id);
    assert_eq!(pool.transactions[1].verified.sender, local_id);
    assert_eq!(pool.transactions[0].verified.index, 1);
    assert_eq!(pool.transactions[1].verified.index, 2);
    let status = pool.status(&api, &BlockId::Number(41));
    assert_eq!(status.future_count, 2);
}

#[test]
fn offline_tracker_accuracy_and_consistency() {
    let mut tracker = OfflineTracker::new();
    let validators = vec![acct(1), acct(2), acct(3)];
    tracker.note_new_block(&validators);
    tracker.note_round_end(&acct(2), false);
    let reports = tracker.reports(&validators);
    assert_eq!(reports, vec![1u32]);
    assert!(tracker.check_consistency(&validators, &vec![1]));
    assert!(!tracker.check_consistency(&validators, &vec![0]));
    assert!(!tracker.check_consistency(&validators, &vec![7]));
    tracker.note_round_end(&acct(2), true);
    assert_eq!(tracker.reports(&validators), Vec::<u32>::new());
}

#[test]
fn offline_tracker_resyncs_validator_set() {
    let mut tracker = OfflineTracker::new();
    tracker.note_new_block(&vec![acct(1), acct(2)]);
    tracker.note_round_end(&acct(2), false);
    // validator 2 leaves the set: its count is dropped
    tracker.note_new_block(&vec![acct(1), acct(3)]);
    tracker.note_new_block(&vec![acct(1), acct(2), acct(3)]);
    assert_eq!(tracker.reports(&vec![acct(1), acct(2), acct(3)]), Vec::<u32>::new());
}

#[test]
fn evaluate_initial_names_each_failure() {
    let parent = parent_header();
    let parent_hash = hash_header(&parent);
    let good_inherent = encode_inherent(&InherentData { timestamp: 50, offline_indices: vec![] });
    let wrong_number = Block {
        header: Header { parent_hash: parent_hash.clone(), number: 43 },
        extrinsics: vec![good_inherent.clone()],
    };
    assert_eq!(
        evaluate_initial(&wrong_number, 50, &parent_hash, 41),
        Err(Error::Evaluation(EvaluationError::WrongNumber))
    );
    let missing_inherent = Block {
        header: Header { parent_hash: parent_hash.clone(), number: 42 },
        extrinsics: vec![],
    };
    assert_eq!(
        evaluate_initial(&missing_inherent, 50, &parent_hash, 41),
        Err(Error::Evaluation(EvaluationError::MissingInherent))
    );
    let far_future = Block {
        header: Header { parent_hash: parent_hash.clone(), number: 42 },
        extrinsics: vec![encode_inherent(&InherentData {
            timestamp: 500,
            offline_indices: vec![],
        })],
    };
    assert_eq!(
        evaluate_initial(&far_future, 50, &parent_hash, 41),
        Err(Error::Evaluation(EvaluationError::TimestampInFuture))
    );
    let oversize = Block {
        header: Header { parent_hash: parent_hash.clone(), number: 42 },
        extrinsics: vec![vec![0u8; 6 * 1024 * 1024]],
    };
    assert_eq!(
        evaluate_initial(&oversize, 50, &parent_hash, 41),
        Err(Error::Evaluation(EvaluationError::ProposalTooLarge))
    );
    let wrong_parent = Block {
        header: Header { parent_hash: vec![1u8; 32], number: 42 },
        extrinsics: vec![good_inherent.clone()],
    };
    assert_eq!(
        evaluate_initial(&wrong_parent, 50, &parent_hash, 41),
        Err(Error::Evaluation(EvaluationError::WrongParentHash))
    );
    let good = Block {
        header: Header { parent_hash: parent_hash.clone(), number: 42 },
        extrinsics: vec![good_inherent],
    };
    let view = evaluate_initial(&good, 50, &parent_hash, 41).unwrap();
    assert_eq!(view.timestamp(), 50);
}

#[test]
fn local_id_is_ed25519_public_key() {
    let (_, _, proposer) = setup(vec![acct(1)], vec![], 1_000);
    assert_eq!(proposer.local_id, key(9).verifying_key().to_bytes().to_vec());
}

#[test]
fn header_hash_matches_direct_blake2() {
    let parent = parent_header();
    let mut bytes = parent.parent_hash.clone();
    bytes.extend_from_slice(&le64(parent.number));
    assert_eq!(hash_header(&parent), blake2_256_direct(&bytes));
}

#[test]
fn chain_error_keeps_sender_future() {
    // An unreachable nonce keeps the sender's transactions out of the
    // pending set but in the pool.
    struct FailingNonce {
        inner: MockClient,
    }
    impl Client for FailingNonce {
        type Builder = MockBuilder;
        fn random_seed(&self, at: &BlockId) -> Result<BlockHash, Error> {
            self.inner.random_seed(at)
        }
        fn validators(&self, at: &BlockId) -> Result<Vec<Vec<u8>>, Error> {
            self.inner.validators(at)
        }
        fn build_block(
            &self,
            parent_hash: &BlockHash,
            parent_number: u64,
            inherent_data: &InherentData,
        ) -> Result<MockBuilder, Error> {
            self.inner.build_block(parent_hash, parent_number, inherent_data)
        }
        fn index(&self, _at: &BlockId, _account: &Vec<u8>) -> Result<u64, Error> {
            Err(Error::Api)
        }
        fn inherent_extrinsics(
            &self,
            at: &BlockId,
            inherent_data: &InherentData,
        ) -> Result<Vec<Vec<u8>>, Error> {
            self.inner.inherent_extrinsics(at, inherent_data)
        }
        fn evaluate_block(&self, at: &BlockId, block: &Block) -> Result<bool, Error> {
            self.inner.evaluate_block(at, block)
        }
    }
    let api = ChainApi::new(FailingNonce {
        inner: MockClient { seed: vec![7u8; 32], validators: vec![], nonces: vec![], eval: true },
    });
    let mut pool = big_pool();
    pool.submit(&api, &BlockId::Number(0), &signed_xt(1, 0, b"a")).unwrap();
    let pending = pool.cull_and_get_pending(&api, &BlockId::Number(0));
    assert_eq!(pending.len(), 0);
    assert_eq!(pool.light_status().transaction_count, 1);
}

#[test]
fn scoring_policy_is_flat() {
    let api = mock_api(vec![], vec![]);
    let xt_a = signed_xt(1, 0, b"a");
    let xt_b = signed_xt(1, 1, b"b");
    let va = api.verify_transaction(&BlockId::Number(0), &xt_a).unwrap();
    let vb = api.verify_transaction(&BlockId::Number(0), &xt_b).unwrap();
    let ta = Transaction { verified: va, original: xt_a };
    let tb = Transaction { verified: vb, original: xt_b };
    assert_eq!(
        ChainApi::<MockClient>::compare(&ta, &tb),
        std::cmp::Ordering::Less
    );
    assert_eq!(ChainApi::<MockClient>::choose_policy(&ta, &tb), Choice::InsertNew);
    let xt_a2 = signed_xt(1, 0, b"aa");
    let va2 = api.verify_transaction(&BlockId::Number(0), &xt_a2).unwrap();
    let ta2 = Transaction { verified: va2, original: xt_a2 };
    assert_eq!(ChainApi::<MockClient>::choose_policy(&ta, &ta2), Choice::ReplaceOld);
    assert_eq!(ChainApi::<MockClient>::should_replace(&ta, &tb), Choice::RejectNew);
    // a longer score slice keeps its tail
    let xts = vec![ta, tb];
    let mut scores: Vec<u64> = vec![7, 7, 7, 9];
    ChainApi::<MockClient>::update_scores(&xts, &mut scores);
    assert_eq!(scores, vec![1, 1, 7, 9]);
}

#[test]
fn decide_vote_follows_chain_verdict() {
    assert_eq!(decide_vote(Ok(true), 4), Ok(Evaluation::Accept { delay: 4 }));
    assert_eq!(decide_vote(Ok(false), 4), Ok(Evaluation::Reject));
    assert_eq!(decide_vote(Err(node_consensus::error::Error::Api), 4), Err(node_consensus::error::Error::Api));
}

#[test]
fn rejected_by_chain_votes_no() {
    // the chain's re-execution rejects the candidate: an immediate no.
    let init_now = 1_000;
    let api = ChainApi::new(MockClient {
        seed: vec![7u8; 32],
        validators: vec![acct(1), acct(2)],
        nonces: vec![],
        eval: false,
    });
    let mut factory = ProposerFactory::new();
    let proposer = factory.init(&api, &parent_header(), &vec![9u8; 32], init_now).unwrap();
    let now = init_now + 10;
    let candidate = Block {
        header: Header { parent_hash: hash_header(&parent_header()), number: 42 },
        extrinsics: vec![encode_inherent(&InherentData { timestamp: now, offline_indices: vec![] })],
    };
    let vote = proposer.evaluate(&api, &factory.offline, &candidate, now).unwrap();
    assert_eq!(vote, Evaluation::Reject);
}
