//! The transaction pool: admission, verification, nonce-ordered readiness,
//! scoring policy, and iteration of the currently ready transactions.
//!
//! Within a sender, queued transactions are kept in strictly increasing
//! index order; across senders the order is unspecified. A transaction is
//! `Ready` when its index is the sender's next expected nonce, `Future`
//! when it lies beyond it, and `Stale` when it was already consumed.

use vstd::prelude::*;

use core::cmp::Ordering;

use crate::api::Client;
use crate::codec::bytes_equal;
use crate::codec::clone_bytes;
use crate::codec::is_inherent_encoding;
use crate::codec::is_signed_encoding;
use crate::codec::is_valid_extrinsic;
use crate::codec::push_u64_le;
use crate::codec::u64_le_bytes;
use crate::codec::signed_index;
use crate::codec::signed_payload;
use crate::codec::signed_sender;
use crate::codec::signed_signature;
use crate::codec::decode_extrinsic;
use crate::codec::Extrinsic;
use crate::crypto::blake2_256;
use crate::crypto::blake2_256_of;
use crate::crypto::ed25519_verifies;
use crate::crypto::ed25519_verify;
use crate::error::Error;
use crate::types::AccountId;
use crate::types::BlockId;
use crate::types::MAX_TRANSACTION_SIZE;

verus! {

/// A transaction admitted to the pool carries exactly these facts.
pub struct VerifiedTransaction {
    /// BLAKE2b-256 digest of the encoded bytes.
    pub hash: Vec<u8>,
    /// Account the signature verified against.
    pub sender: AccountId,
    /// Sender-local monotonic nonce.
    pub index: u64,
    /// Byte length of the canonical encoding.
    pub encoded_size: usize,
}

impl VerifiedTransaction {
    /// The 256-bit hash of this transaction.
    pub fn hash(&self) -> (r: &Vec<u8>)
        ensures
            r@ == self.hash@,
    {
        &self.hash
    }

    /// The index of this transaction.
    pub fn index(&self) -> (r: u64)
        ensures
            r == self.index,
    {
        self.index
    }

    /// The encoded size of this transaction.
    pub fn encoded_size(&self) -> (r: usize)
        ensures
            r == self.encoded_size,
    {
        self.encoded_size
    }

    /// The account that sent this transaction.
    pub fn sender(&self) -> (r: &AccountId)
        ensures
            r@ == self.sender@,
    {
        &self.sender
    }

    /// Memory attributed to this transaction: its encoded size.
    pub fn mem_usage(&self) -> (r: usize)
        ensures
            r == self.encoded_size,
    {
        self.encoded_size
    }
}

/// A pool entry: the verified facts and the original encoded bytes.
pub struct Transaction {
    /// The verified facts.
    pub verified: VerifiedTransaction,
    /// The encoded bytes, retained for inclusion in a block.
    pub original: Vec<u8>,
}

/// The mathematical content of a pool entry.
#[verifier::ext_equal]
pub ghost struct TxView {
    /// Digest of `bytes`.
    pub hash: Seq<u8>,
    /// The sender.
    pub sender: Seq<u8>,
    /// The sender-local nonce.
    pub index: u64,
    /// Length of `bytes`.
    pub encoded_size: int,
    /// The encoded bytes.
    pub bytes: Seq<u8>,
}

impl View for Transaction {
    type V = TxView;

    open spec fn view(&self) -> TxView {
        TxView {
            hash: self.verified.hash@,
            sender: self.verified.sender@,
            index: self.verified.index,
            encoded_size: self.verified.encoded_size as int,
            bytes: self.original@,
        }
    }
}

/// A verified transaction exists only for byte strings that decode as a
/// signed extrinsic, fit the admission limit, and whose signature verifies
/// against the sender.
pub open spec fn spec_verify_ok(s: Seq<u8>) -> bool {
    &&& is_signed_encoding(s)
    &&& s.len() <= MAX_TRANSACTION_SIZE
    &&& ed25519_verifies(signed_sender(s), signed_payload(s), signed_signature(s))
}

/// The pool entry a byte string verifies to.
pub open spec fn spec_verified_view(s: Seq<u8>) -> TxView {
    TxView {
        hash: blake2_256_of(s),
        sender: signed_sender(s),
        index: signed_index(s),
        encoded_size: s.len() as int,
        bytes: s,
    }
}

/// A pool entry is internally consistent with its bytes.
pub open spec fn txv_wf(t: TxView) -> bool {
    &&& spec_verify_ok(t.bytes)
    &&& t == spec_verified_view(t.bytes)
}

/// The views of a sequence of pool entries.
pub open spec fn views(txs: Seq<Transaction>) -> Seq<TxView> {
    txs.map_values(|t: Transaction| t@)
}

/// Well-formed pool content: every entry is verified, and entries of one
/// sender appear in strictly increasing index order, which also makes each
/// `(sender, index)` pair unique.
pub open spec fn txs_wf(txs: Seq<TxView>) -> bool {
    &&& forall|k: int| 0 <= k < txs.len() ==> txv_wf(#[trigger] txs[k])
    &&& forall|k1: int, k2: int|
        0 <= k1 < k2 < txs.len() && txs[k1].sender == txs[k2].sender ==> txs[k1].index
            < txs[k2].index
}

/// Whether the pool content holds an entry for `(sender, index)`.
pub open spec fn pool_has(txs: Seq<TxView>, sender: Seq<u8>, index: u64) -> bool {
    exists|k: int| 0 <= k < txs.len() && txs[k].sender == sender && txs[k].index == index
}

/// The position of the entry for `(sender, index)`.
pub open spec fn pool_pos(txs: Seq<TxView>, sender: Seq<u8>, index: u64) -> int {
    choose|k: int| 0 <= k < txs.len() && txs[k].sender == sender && txs[k].index == index
}

/// Aggregate encoded size of the entries.
pub open spec fn spec_mem(txs: Seq<TxView>) -> int
    decreases txs.len(),
{
    if txs.len() == 0 {
        0
    } else {
        spec_mem(txs.drop_last()) + txs.last().encoded_size
    }
}

/// Aggregate size is never negative when every entry is well formed.
pub proof fn lemma_mem_nonneg(txs: Seq<TxView>)
    requires
        forall|k: int| 0 <= k < txs.len() ==> #[trigger] txs[k].encoded_size >= 0,
    ensures
        spec_mem(txs) >= 0,
    decreases txs.len(),
{
    if txs.len() > 0 {
        lemma_mem_nonneg(txs.drop_last());
    }
}

/// Aggregate size adds over concatenation.
pub proof fn lemma_mem_add(a: Seq<TxView>, b: Seq<TxView>)
    ensures
        spec_mem(a + b) == spec_mem(a) + spec_mem(b),
    decreases b.len(),
{
    if b.len() == 0 {
        assert(a + b =~= a);
    } else {
        lemma_mem_add(a, b.drop_last());
        assert((a + b).drop_last() =~= a + b.drop_last());
        assert((a + b).last() == b.last());
    }
}

/// Copy a pool entry.
pub fn clone_tx(t: &Transaction) -> (r: Transaction)
    ensures
        r@ == t@,
{
    Transaction {
        verified: VerifiedTransaction {
            hash: clone_bytes(&t.verified.hash),
            sender: clone_bytes(&t.verified.sender),
            index: t.verified.index,
            encoded_size: t.verified.encoded_size,
        },
        original: clone_bytes(&t.original),
    }
}

/// Readiness of a transaction against a reference state.
#[derive(Debug, Clone, Copy, PartialEq, Eq, Structural)]
pub enum Readiness {
    /// The expected next transaction of its sender: include it.
    Ready,
    /// Beyond the next expected index: keep but do not yield.
    Future,
    /// Already consumed: cull.
    Stale,
}

/// What to do with a new transaction that meets an old one.
#[derive(Debug, Clone, Copy, PartialEq, Eq, Structural)]
pub enum Choice {
    /// Keep both.
    InsertNew,
    /// The new one replaces the old.
    ReplaceOld,
    /// The new one is rejected.
    RejectNew,
}

/// Capacity limits of the pool.
#[derive(Debug, Clone, Copy, PartialEq, Eq, Structural)]
pub struct Options {
    /// Maximal number of entries.
    pub max_count: usize,
    /// Maximal aggregate encoded size in bytes.
    pub max_mem: usize,
}

/// Counts of the pool against a reference state.
#[derive(Debug, Clone, Copy, PartialEq, Eq, Structural)]
pub struct Status {
    /// Entries classified `Ready`.
    pub ready_count: usize,
    /// Entries classified `Future`.
    pub future_count: usize,
    /// Aggregate encoded size of all entries.
    pub total_bytes: usize,
}

/// Counts of the pool that need no reference state.
#[derive(Debug, Clone, Copy, PartialEq, Eq, Structural)]
pub struct LightStatus {
    /// Number of entries.
    pub transaction_count: usize,
    /// Aggregate encoded size of all entries.
    pub mem_usage: usize,
}

/// One sender's next expected nonce.
pub struct NonceEntry {
    /// The sender.
    pub sender: AccountId,
    /// The next expected nonce.
    pub next: u64,
}

/// An ephemeral per-call cache of next expected nonces.
pub struct NonceTable {
    /// The cached entries; each sender appears at most once.
    pub entries: Vec<NonceEntry>,
}

impl NonceTable {
    /// Each sender appears at most once.
    pub open spec fn wf(self) -> bool {
        forall|k1: int, k2: int|
            0 <= k1 < k2 < self.entries@.len() ==> self.entries@[k1].sender@
                != self.entries@[k2].sender@
    }

    /// Whether `sender` is cached.
    pub open spec fn spec_has(self, sender: Seq<u8>) -> bool {
        exists|k: int| 0 <= k < self.entries@.len() && self.entries@[k].sender@ == sender
    }

    /// The cached next nonce of `sender`.
    pub open spec fn spec_next(self, sender: Seq<u8>) -> u64 {
        if self.spec_has(sender) {
            self.entries@[choose|k: int|
                0 <= k < self.entries@.len() && self.entries@[k].sender@ == sender].next
        } else {
            u64::MAX
        }
    }

    /// An empty cache.
    pub fn new() -> (r: NonceTable)
        ensures
            r.wf(),
            forall|s: Seq<u8>| !r.spec_has(s),
    {
        NonceTable { entries: Vec::new() }
    }

    /// Find the cache position of `sender`.
    fn find(&self, sender: &AccountId) -> (r: Option<usize>)
        requires
            self.wf(),
        ensures
            match r {
                Some(k) => k < self.entries@.len() && self.entries@[k as int].sender@ == sender@
                    && self.spec_has(sender@) && self.spec_next(sender@) == self.entries@[
                    k as int
                ].next,
                None => !self.spec_has(sender@),
            },
    {
        let mut k: usize = 0;
        while k < self.entries.len()
            invariant
                self.wf(),
                0 <= k <= self.entries@.len(),
                forall|l: int| 0 <= l < k ==> self.entries@[l].sender@ != sender@,
            decreases self.entries@.len() - k,
        {
            if bytes_equal(&self.entries[k].sender, sender) {
                proof {
                    let c = choose|l: int|
                        0 <= l < self.entries@.len() && self.entries@[l].sender@ == sender@;
                    assert(c == k);
                }
                return Some(k);
            }
            k += 1;
        }
        None
    }

    /// Record `next` for an uncached `sender`.
    fn put(&mut self, sender: &AccountId, next: u64)
        requires
            old(self).wf(),
            !old(self).spec_has(sender@),
        ensures
            final(self).wf(),
            final(self).spec_has(sender@),
            final(self).spec_next(sender@) == next,
            forall|s: Seq<u8>|
                s != sender@ ==> #[trigger] final(self).spec_has(s) == old(self).spec_has(s),
            forall|s: Seq<u8>|
                s != sender@ ==> #[trigger] final(self).spec_next(s) == old(self).spec_next(s),
    {
        let ghost pre = *self;
        self.entries.push(NonceEntry { sender: clone_bytes(sender), next });
        proof {
            let n = self.entries@.len() - 1;
            assert(self.entries@[n].sender@ == sender@);
            let c = choose|k: int|
                0 <= k < self.entries@.len() && self.entries@[k].sender@ == sender@;
            assert(c == n);
            assert forall|s: Seq<u8>| s != sender@ implies #[trigger] self.spec_has(s)
                == pre.spec_has(s) && self.spec_next(s) == pre.spec_next(s) by {
                if pre.spec_has(s) {
                    let l = choose|l: int|
                        0 <= l < pre.entries@.len() && pre.entries@[l].sender@ == s;
                    assert(self.entries@[l].sender@ == s);
                }
                if self.spec_has(s) {
                    let l = choose|l: int|
                        0 <= l < self.entries@.len() && self.entries@[l].sender@ == s;
                    assert(l < n);
                    assert(pre.entries@[l].sender@ == s);
                }
            }
        }
    }

    /// Overwrite the cached nonce at position `k`.
    fn set_at(&mut self, k: usize, next: u64)
        requires
            old(self).wf(),
            k < old(self).entries@.len(),
        ensures
            final(self).wf(),
            final(self).spec_has(old(self).entries@[k as int].sender@),
            final(self).spec_next(old(self).entries@[k as int].sender@) == next,
            forall|s: Seq<u8>|
                s != old(self).entries@[k as int].sender@ ==> #[trigger] final(self).spec_has(s)
                    == old(self).spec_has(s),
            forall|s: Seq<u8>|
                s != old(self).entries@[k as int].sender@ ==> #[trigger] final(self).spec_next(s)
                    == old(self).spec_next(s),
    {
        let ghost pre = *self;
        let ghost who = pre.entries@[k as int].sender@;
        self.entries[k].next = next;
        proof {
            assert(forall|l: int|
                0 <= l < self.entries@.len() ==> self.entries@[l].sender@ == pre.entries@[
                l].sender@);
            assert(self.entries@[k as int].sender@ == who);
            let c = choose|l: int|
                0 <= l < self.entries@.len() && self.entries@[l].sender@ == who;
            assert(c == k);
            assert forall|s: Seq<u8>| s != who implies #[trigger] self.spec_has(s) == pre.spec_has(
                s,
            ) && self.spec_next(s) == pre.spec_next(s) by {
                if pre.spec_has(s) {
                    let l = choose|l: int|
                        0 <= l < pre.entries@.len() && pre.entries@[l].sender@ == s;
                    assert(self.entries@[l].sender@ == s);
                    assert(l != k);
                }
                if self.spec_has(s) {
                    let l = choose|l: int|
                        0 <= l < self.entries@.len() && self.entries@[l].sender@ == s;
                    assert(pre.entries@[l].sender@ == s);
                    assert(l != k);
                }
            }
        }
    }

    /// Copy the cache.
    fn duplicate(&self) -> (r: NonceTable)
        requires
            self.wf(),
        ensures
            r.wf(),
            forall|s: Seq<u8>| #[trigger] r.spec_has(s) == self.spec_has(s),
            forall|s: Seq<u8>| #[trigger] r.spec_next(s) == self.spec_next(s),
    {
        let mut entries: Vec<NonceEntry> = Vec::new();
        let mut k: usize = 0;
        while k < self.entries.len()
            invariant
                self.wf(),
                0 <= k <= self.entries@.len(),
                entries@.len() == k,
                forall|l: int|
                    0 <= l < k ==> #[trigger] entries@[l].sender@ == self.entries@[l].sender@,
                forall|l: int| 0 <= l < k ==> #[trigger] entries@[l].next == self.entries@[l].next,
            decreases self.entries@.len() - k,
        {
            let cloned = clone_bytes(&self.entries[k].sender);
            entries.push(NonceEntry { sender: cloned, next: self.entries[k].next });
            proof {
                assert(entries@[k as int].sender@ == self.entries@[k as int].sender@);
                assert(entries@[k as int].next == self.entries@[k as int].next);
            }
            k += 1;
        }
        let r = NonceTable { entries };
        proof {
            assert forall|s: Seq<u8>| #[trigger] r.spec_has(s) == self.spec_has(s)
                && r.spec_next(s) == self.spec_next(s) by {
                if self.spec_has(s) {
                    let l = choose|l: int|
                        0 <= l < self.entries@.len() && self.entries@[l].sender@ == s;
                    assert(r.entries@[l].sender@ == s);
                    let c = choose|c: int|
                        0 <= c < r.entries@.len() && r.entries@[c].sender@ == s;
                    assert(c == l);
                }
                if r.spec_has(s) {
                    let l = choose|l: int|
                        0 <= l < r.entries@.len() && r.entries@[l].sender@ == s;
                    assert(self.entries@[l].sender@ == s);
                    let c = choose|c: int|
                        0 <= c < self.entries@.len() && self.entries@[c].sender@ == s;
                    assert(c == l);
                }
            }
        }
        r
    }
}

/// Readiness of a transaction with index `index` against the expected next
/// nonce `base`. The unreachable nonce stands for a sender whose chain
/// nonce could not be read: everything of that sender stays `Future`, so
/// the entries remain in the pool and are not yielded.
pub open spec fn spec_classify(index: u64, base: u64) -> Readiness {
    if base == u64::MAX {
        Readiness::Future
    } else if index > base {
        Readiness::Future
    } else if index == base {
        Readiness::Ready
    } else {
        Readiness::Stale
    }
}

/// Advance an expected nonce by one. The unreachable nonce `u64::MAX`
/// marks a sender whose chain nonce could not be read and is preserved;
/// real nonces saturate just below it.
pub open spec fn sat1(base: u64) -> u64 {
    if base >= u64::MAX - 1 {
        base
    } else {
        (base + 1) as u64
    }
}

/// Advance an expected nonce by a non-negative count, as `sat1` does.
pub open spec fn sat_add64(base: u64, n: int) -> u64 {
    if base == u64::MAX {
        u64::MAX
    } else if base + n > u64::MAX - 1 {
        (u64::MAX - 1) as u64
    } else {
        (base + n) as u64
    }
}

/// Incrementing commutes with saturating addition.
pub proof fn lemma_sat1_add(base: u64, n: int)
    requires
        n >= 0,
    ensures
        sat1(sat_add64(base, n)) == sat_add64(base, n + 1),
{
}

/// Saturating addition is monotone in the count.
pub proof fn lemma_sat_monotone(base: u64, m: int, n: int)
    requires
        0 <= m <= n,
    ensures
        sat_add64(base, m) <= sat_add64(base, n),
{
}

/// What `is_ready` did: `r` classifies the transaction against `base`,
/// which is the cached nonce where one was cached, and the cache advanced
/// the sender's expectation by one.
pub open spec fn is_ready_post(
    pre: NonceTable,
    post: NonceTable,
    t: TxView,
    base: u64,
    r: Readiness,
) -> bool {
    &&& r == spec_classify(t.index, base)
    &&& post.spec_has(t.sender)
    &&& post.spec_next(t.sender) == sat1(base)
    &&& forall|s: Seq<u8>|
        s != t.sender ==> #[trigger] post.spec_has(s) == pre.spec_has(s) && post.spec_next(s)
            == pre.spec_next(s)
    &&& pre.spec_has(t.sender) ==> base == pre.spec_next(t.sender)
}

/// Number of entries of `sender` in `txs`.
pub open spec fn count_sender(txs: Seq<TxView>, sender: Seq<u8>) -> int
    decreases txs.len(),
{
    if txs.len() == 0 {
        0
    } else {
        count_sender(txs.drop_last(), sender) + if txs.last().sender == sender {
            1int
        } else {
            0int
        }
    }
}

/// Sender counts are non-negative and bounded by the length.
pub proof fn lemma_count_sender_bounds(txs: Seq<TxView>, sender: Seq<u8>)
    ensures
        0 <= count_sender(txs, sender) <= txs.len(),
    decreases txs.len(),
{
    if txs.len() > 0 {
        lemma_count_sender_bounds(txs.drop_last(), sender);
    }
}

/// Classification of the entry at `k`: its index against the sender's base
/// nonce advanced once for every earlier entry of the same sender, however
/// that entry classified.
pub open spec fn class_at(t: NonceTable, txs: Seq<TxView>, k: int) -> Readiness {
    spec_classify(
        txs[k].index,
        sat_add64(t.spec_next(txs[k].sender), count_sender(txs.take(k), txs[k].sender)),
    )
}

/// Classification only looks at a prefix, so it is stable under extension.
pub proof fn lemma_class_prefix(t: NonceTable, txs: Seq<TxView>, m: int, k: int)
    requires
        0 <= k < m <= txs.len(),
    ensures
        class_at(t, txs.take(m), k) == class_at(t, txs, k),
{
    assert(txs.take(m).take(k) =~= txs.take(k));
    assert(txs.take(m)[k] == txs[k]);
}

/// What survives the cull: the entries that do not classify `Stale`.
pub open spec fn cull_result(t: NonceTable, txs: Seq<TxView>) -> Seq<TxView>
    decreases txs.len(),
{
    if txs.len() == 0 {
        Seq::empty()
    } else {
        let pre = cull_result(t, txs.drop_last());
        if class_at(t, txs, txs.len() - 1) != Readiness::Stale {
            pre.push(txs.last())
        } else {
            pre
        }
    }
}

/// What the pending iteration yields: the entries that classify `Ready`,
/// in pool order.
pub open spec fn pending_result(t: NonceTable, txs: Seq<TxView>) -> Seq<TxView>
    decreases txs.len(),
{
    if txs.len() == 0 {
        Seq::empty()
    } else {
        let pre = pending_result(t, txs.drop_last());
        if class_at(t, txs, txs.len() - 1) == Readiness::Ready {
            pre.push(txs.last())
        } else {
            pre
        }
    }
}

/// What survives `remove`: the entries whose hash is not listed.
pub open spec fn remove_result(txs: Seq<TxView>, hashes: Seq<Seq<u8>>) -> Seq<TxView>
    decreases txs.len(),
{
    if txs.len() == 0 {
        Seq::empty()
    } else {
        let pre = remove_result(txs.drop_last(), hashes);
        if hashes.contains(txs.last().hash) {
            pre
        } else {
            pre.push(txs.last())
        }
    }
}

/// The bytes of the entries marked accepted, in order. Meaningful when
/// one mark stands for each entry.
pub open spec fn selected_bytes(txs: Seq<TxView>, accepted: Seq<bool>) -> Seq<Seq<u8>>
    decreases txs.len(),
{
    if txs.len() == 0 || accepted.len() != txs.len() {
        Seq::empty()
    } else {
        selected_bytes(txs.drop_last(), accepted.drop_last()) + if accepted.last() {
            seq![txs.last().bytes]
        } else {
            Seq::empty()
        }
    }
}

/// The hashes of the entries marked rejected, in order.
pub open spec fn rejected_hashes(txs: Seq<TxView>, accepted: Seq<bool>) -> Seq<Seq<u8>>
    decreases txs.len(),
{
    if txs.len() == 0 || accepted.len() != txs.len() {
        Seq::empty()
    } else {
        rejected_hashes(txs.drop_last(), accepted.drop_last()) + if accepted.last() {
            Seq::empty()
        } else {
            seq![txs.last().hash]
        }
    }
}

/// Whether some entry belongs to `sender`.
pub open spec fn has_sender(txs: Seq<TxView>, sender: Seq<u8>) -> bool {
    exists|k: int| 0 <= k < txs.len() && txs[k].sender == sender
}

/// The index of the last entry of `sender`; in a well-formed list this is
/// the sender's highest queued index.
pub open spec fn last_index_of(txs: Seq<TxView>, sender: Seq<u8>) -> u64
    decreases txs.len(),
{
    if txs.len() == 0 {
        0u64
    } else if txs.last().sender == sender {
        txs.last().index
    } else {
        last_index_of(txs.drop_last(), sender)
    }
}

/// Every culled-result entry comes from the pool, at a position no earlier
/// than its own.
pub proof fn lemma_cull_sub(t: NonceTable, txs: Seq<TxView>, j: int)
    requires
        0 <= j < cull_result(t, txs).len(),
    ensures
        cull_result(t, txs).len() <= txs.len(),
        exists|k: int| j <= k < txs.len() && txs[k] == cull_result(t, txs)[j],
    decreases txs.len(),
{
    if txs.len() > 0 {
        let pre = cull_result(t, txs.drop_last());
        if j < pre.len() {
            lemma_cull_sub(t, txs.drop_last(), j);
            let k = choose|k: int| j <= k < txs.drop_last().len() && txs.drop_last()[k] == pre[j];
            assert(txs[k] == cull_result(t, txs)[j]);
        } else {
            if pre.len() < cull_result(t, txs).len() {
                assert(txs[txs.len() - 1] == cull_result(t, txs)[j]);
            } else {
                lemma_cull_len(t, txs.drop_last());
            }
        }
        lemma_cull_len(t, txs);
    }
}

/// The cull result is no longer than the pool.
pub proof fn lemma_cull_len(t: NonceTable, txs: Seq<TxView>)
    ensures
        cull_result(t, txs).len() <= txs.len(),
    decreases txs.len(),
{
    if txs.len() > 0 {
        lemma_cull_len(t, txs.drop_last());
    }
}

/// The pending result is no longer than the pool, and every entry comes
/// from the pool.
pub proof fn lemma_pending_sub(t: NonceTable, txs: Seq<TxView>, j: int)
    requires
        0 <= j < pending_result(t, txs).len(),
    ensures
        exists|k: int| 0 <= k < txs.len() && txs[k] == pending_result(t, txs)[j],
    decreases txs.len(),
{
    if txs.len() > 0 {
        let pre = pending_result(t, txs.drop_last());
        if j < pre.len() {
            lemma_pending_sub(t, txs.drop_last(), j);
            let k = choose|k: int|
                0 <= k < txs.drop_last().len() && txs.drop_last()[k] == pre[j];
            assert(txs[k] == pending_result(t, txs)[j]);
        } else {
            assert(txs[txs.len() - 1] == pending_result(t, txs)[j]);
        }
    }
}

/// The remove result is no longer than the pool, and every entry comes
/// from the pool.
pub proof fn lemma_remove_sub(txs: Seq<TxView>, hashes: Seq<Seq<u8>>, j: int)
    requires
        0 <= j < remove_result(txs, hashes).len(),
    ensures
        remove_result(txs, hashes).len() <= txs.len(),
        exists|k: int| j <= k < txs.len() && txs[k] == remove_result(txs, hashes)[j],
    decreases txs.len(),
{
    if txs.len() > 0 {
        let pre = remove_result(txs.drop_last(), hashes);
        if j < pre.len() {
            lemma_remove_sub(txs.drop_last(), hashes, j);
            let k = choose|k: int| j <= k < txs.drop_last().len() && txs.drop_last()[k] == pre[j];
            assert(txs[k] == remove_result(txs, hashes)[j]);
        } else {
            lemma_remove_len(txs.drop_last(), hashes);
            assert(txs[txs.len() - 1] == remove_result(txs, hashes)[j]);
        }
        lemma_remove_len(txs, hashes);
    }
}

/// The remove result is no longer than the pool.
pub proof fn lemma_remove_len(txs: Seq<TxView>, hashes: Seq<Seq<u8>>)
    ensures
        remove_result(txs, hashes).len() <= txs.len(),
    decreases txs.len(),
{
    if txs.len() > 0 {
        lemma_remove_len(txs.drop_last(), hashes);
    }
}

/// A subsequence selected by any of the positional keep functions stays
/// well formed; stated for the three of them.
pub proof fn lemma_cull_wf(t: NonceTable, txs: Seq<TxView>)
    requires
        txs_wf(txs),
    ensures
        txs_wf(cull_result(t, txs)),
    decreases txs.len(),
{
    if txs.len() > 0 {
        assert(txs_wf(txs.drop_last()));
        lemma_cull_wf(t, txs.drop_last());
        let pre = cull_result(t, txs.drop_last());
        if class_at(t, txs, txs.len() - 1) != Readiness::Stale {
            let out = pre.push(txs.last());
            assert forall|k1: int, k2: int|
                0 <= k1 < k2 < out.len() && out[k1].sender == out[k2].sender implies out[k1].index
                < out[k2].index by {
                if k2 == out.len() - 1 {
                    lemma_cull_sub(t, txs.drop_last(), k1);
                    let k = choose|k: int|
                        k1 <= k < txs.drop_last().len() && txs.drop_last()[k] == pre[k1];
                    assert(txs[k] == out[k1]);
                    assert(txs[k].sender == txs[txs.len() - 1].sender);
                }
            }
            assert forall|k: int| 0 <= k < out.len() implies txv_wf(#[trigger] out[k]) by {
                if k < pre.len() {
                } else {
                    assert(out[k] == txs[txs.len() - 1]);
                }
            }
        }
    }
}

/// The pending result stays well formed: within a sender its entries
/// keep their strictly increasing index order, so the last entry of a
/// sender in the pending set is that sender's highest ready index.
pub proof fn lemma_pending_wf(t: NonceTable, txs: Seq<TxView>)
    requires
        txs_wf(txs),
    ensures
        txs_wf(pending_result(t, txs)),
    decreases txs.len(),
{
    if txs.len() > 0 {
        assert(txs_wf(txs.drop_last()));
        lemma_pending_wf(t, txs.drop_last());
        let pre = pending_result(t, txs.drop_last());
        if class_at(t, txs, txs.len() - 1) == Readiness::Ready {
            let out = pre.push(txs.last());
            assert forall|k1: int, k2: int|
                0 <= k1 < k2 < out.len() && out[k1].sender == out[k2].sender implies out[k1].index
                < out[k2].index by {
                if k2 == out.len() - 1 {
                    lemma_pending_sub(t, txs.drop_last(), k1);
                    let k = choose|k: int|
                        0 <= k < txs.drop_last().len() && txs.drop_last()[k] == pre[k1];
                    assert(txs[k] == out[k1]);
                    assert(txs[k].sender == txs[txs.len() - 1].sender);
                }
            }
            assert forall|k: int| 0 <= k < out.len() implies txv_wf(#[trigger] out[k]) by {
                if k < pre.len() {
                } else {
                    assert(out[k] == txs[txs.len() - 1]);
                }
            }
        }
    }
}

/// The remove result stays well formed.
pub proof fn lemma_remove_wf(txs: Seq<TxView>, hashes: Seq<Seq<u8>>)
    requires
        txs_wf(txs),
    ensures
        txs_wf(remove_result(txs, hashes)),
    decreases txs.len(),
{
    if txs.len() > 0 {
        assert(txs_wf(txs.drop_last()));
        lemma_remove_wf(txs.drop_last(), hashes);
        let pre = remove_result(txs.drop_last(), hashes);
        if !hashes.contains(txs.last().hash) {
            let out = pre.push(txs.last());
            assert forall|k1: int, k2: int|
                0 <= k1 < k2 < out.len() && out[k1].sender == out[k2].sender implies out[k1].index
                < out[k2].index by {
                if k2 == out.len() - 1 {
                    lemma_remove_sub(txs.drop_last(), hashes, k1);
                    let k = choose|k: int|
                        k1 <= k < txs.drop_last().len() && txs.drop_last()[k] == pre[k1];
                    assert(txs[k] == out[k1]);
                    assert(txs[k].sender == txs[txs.len() - 1].sender);
                }
            }
            assert forall|k: int| 0 <= k < out.len() implies txv_wf(#[trigger] out[k]) by {
                if k < pre.len() {
                } else {
                    assert(out[k] == txs[txs.len() - 1]);
                }
            }
        }
    }
}

/// Aggregate size of the cull result is at most that of the pool.
pub proof fn lemma_cull_mem(t: NonceTable, txs: Seq<TxView>)
    requires
        forall|k: int| 0 <= k < txs.len() ==> #[trigger] txs[k].encoded_size >= 0,
    ensures
        spec_mem(cull_result(t, txs)) <= spec_mem(txs),
        spec_mem(cull_result(t, txs)) >= 0,
    decreases txs.len(),
{
    if txs.len() > 0 {
        assert(forall|k: int|
            0 <= k < txs.drop_last().len() ==> #[trigger] txs.drop_last()[k].encoded_size >= 0);
        lemma_cull_mem(t, txs.drop_last());
        let pre = cull_result(t, txs.drop_last());
        if class_at(t, txs, txs.len() - 1) != Readiness::Stale {
            assert(pre.push(txs.last()).drop_last() =~= pre);
            assert(pre.push(txs.last()).last() == txs.last());
        }
    }
}

/// Aggregate size of the remove result is at most that of the pool.
pub proof fn lemma_remove_mem(txs: Seq<TxView>, hashes: Seq<Seq<u8>>)
    requires
        forall|k: int| 0 <= k < txs.len() ==> #[trigger] txs[k].encoded_size >= 0,
    ensures
        spec_mem(remove_result(txs, hashes)) <= spec_mem(txs),
        spec_mem(remove_result(txs, hashes)) >= 0,
    decreases txs.len(),
{
    if txs.len() > 0 {
        assert(forall|k: int|
            0 <= k < txs.drop_last().len() ==> #[trigger] txs.drop_last()[k].encoded_size >= 0);
        lemma_remove_mem(txs.drop_last(), hashes);
        let pre = remove_result(txs.drop_last(), hashes);
        if !hashes.contains(txs.last().hash) {
            assert(pre.push(txs.last()).drop_last() =~= pre);
            assert(pre.push(txs.last()).last() == txs.last());
        }
    }
}

/// A prefix weighs at most the whole.
pub proof fn lemma_mem_take(txs: Seq<TxView>, i: int)
    requires
        0 <= i <= txs.len(),
        forall|k: int| 0 <= k < txs.len() ==> #[trigger] txs[k].encoded_size >= 0,
    ensures
        spec_mem(txs.take(i)) <= spec_mem(txs),
{
    assert(txs =~= txs.take(i) + txs.skip(i));
    lemma_mem_add(txs.take(i), txs.skip(i));
    assert(forall|k: int|
        0 <= k < txs.skip(i).len() ==> #[trigger] txs.skip(i)[k].encoded_size >= 0);
    lemma_mem_nonneg(txs.skip(i));
}

/// One entry weighs at most the whole.
pub proof fn lemma_mem_entry(txs: Seq<TxView>, k: int)
    requires
        0 <= k < txs.len(),
        forall|l: int| 0 <= l < txs.len() ==> #[trigger] txs[l].encoded_size >= 0,
    ensures
        txs[k].encoded_size <= spec_mem(txs),
{
    assert(txs =~= txs.take(k) + seq![txs[k]] + txs.skip(k + 1));
    lemma_mem_add(txs.take(k) + seq![txs[k]], txs.skip(k + 1));
    lemma_mem_add(txs.take(k), seq![txs[k]]);
    assert(seq![txs[k]].drop_last() =~= Seq::<TxView>::empty());
    assert(spec_mem(Seq::<TxView>::empty()) == 0);
    assert(seq![txs[k]].last() == txs[k]);
    assert(spec_mem(seq![txs[k]]) == txs[k].encoded_size);
    assert(forall|l: int|
        0 <= l < txs.take(k).len() ==> #[trigger] txs.take(k)[l].encoded_size >= 0);
    lemma_mem_nonneg(txs.take(k));
    assert(forall|l: int|
        0 <= l < txs.skip(k + 1).len() ==> #[trigger] txs.skip(k + 1)[l].encoded_size >= 0);
    lemma_mem_nonneg(txs.skip(k + 1));
}

/// A culled pool holds no more of any sender than the pool did.
pub proof fn lemma_cull_count(t: NonceTable, txs: Seq<TxView>, sender: Seq<u8>)
    ensures
        count_sender(cull_result(t, txs), sender) <= count_sender(txs, sender),
    decreases txs.len(),
{
    if txs.len() > 0 {
        lemma_cull_count(t, txs.drop_last(), sender);
        lemma_count_sender_bounds(cull_result(t, txs.drop_last()), sender);
        let pre = cull_result(t, txs.drop_last());
        if class_at(t, txs, txs.len() - 1) != Readiness::Stale {
            assert(pre.push(txs.last()).drop_last() =~= pre);
        }
    }
}

/// After the cull, nothing classifies `Stale` against the same reference
/// state: the pass removed every stale entry.
pub proof fn lemma_cull_no_stale(t: NonceTable, txs: Seq<TxView>)
    ensures
        forall|j: int|
            0 <= j < cull_result(t, txs).len() ==> #[trigger] class_at(t, cull_result(t, txs), j)
                != Readiness::Stale,
    decreases txs.len(),
{
    if txs.len() > 0 {
        lemma_cull_no_stale(t, txs.drop_last());
        let pre = cull_result(t, txs.drop_last());
        let out = cull_result(t, txs);
        assert forall|j: int| 0 <= j < out.len() implies #[trigger] class_at(t, out, j)
            != Readiness::Stale by {
            if j < pre.len() {
                assert(out.take(j) =~= pre.take(j));
                assert(out[j] == pre[j]);
                assert(class_at(t, out, j) == class_at(t, pre, j));
            } else {
                let last = txs[txs.len() - 1];
                assert(out[j] == last);
                assert(out.take(j) =~= pre);
                lemma_cull_count(t, txs.drop_last(), last.sender);
                lemma_count_sender_bounds(txs.drop_last(), last.sender);
                lemma_count_sender_bounds(pre, last.sender);
                assert(txs.take(txs.len() - 1) =~= txs.drop_last());
                lemma_sat_monotone(
                    t.spec_next(last.sender),
                    count_sender(pre, last.sender),
                    count_sender(txs.drop_last(), last.sender),
                );
            }
        }
    }
}

/// The transaction pool logic bound to a chain database.
pub struct ChainApi<A> {
    api: A,
}

impl<A: Client> ChainApi<A> {
    /// The chain database this instance was built over.
    pub closed spec fn spec_client(self) -> A {
        self.api
    }

    /// Create a new instance. Construction stores the handle and does
    /// nothing else.
    pub fn new(api: A) -> (r: ChainApi<A>)
        ensures
            r.spec_client() == api,
    {
        ChainApi { api }
    }

    /// The underlying chain database, exactly as given to `new`.
    pub fn client(&self) -> (r: &A)
        ensures
            *r == self.spec_client(),
    {
        &self.api
    }

    /// Verify a submitted extrinsic. Exactly the byte strings a verified
    /// transaction may exist for are accepted, and each rejection names its
    /// reason: no decode, an inherent, too large, or a bad signature.
    pub fn verify_transaction(&self, at: &BlockId, xt: &Vec<u8>) -> (r: Result<
        VerifiedTransaction,
        Error,
    >)
        ensures
            spec_verify_ok(xt@) ==> (r matches Ok(v) && v.hash@ == blake2_256_of(xt@) && v.sender@
                == signed_sender(xt@) && v.index == signed_index(xt@) && v.encoded_size == xt@.len()),
            !is_valid_extrinsic(xt@) ==> r == Err::<VerifiedTransaction, Error>(
                Error::InvalidExtrinsicFormat,
            ),
            is_inherent_encoding(xt@) ==> r == Err::<VerifiedTransaction, Error>(Error::IsInherent),
            is_signed_encoding(xt@) && xt@.len() > MAX_TRANSACTION_SIZE ==> r == Err::<
                VerifiedTransaction,
                Error,
            >(Error::TooLarge { got: xt@.len() as usize, limit: MAX_TRANSACTION_SIZE }),
            is_signed_encoding(xt@) && xt@.len() <= MAX_TRANSACTION_SIZE && !ed25519_verifies(
                signed_sender(xt@),
                signed_payload(xt@),
                signed_signature(xt@),
            ) ==> r == Err::<VerifiedTransaction, Error>(Error::InvalidExtrinsicFormat),
    {
        let decoded = decode_extrinsic(xt);
        match decoded {
            Err(e) => Err(e),
            Ok(Extrinsic::Inherent { .. }) => Err(Error::IsInherent),
            Ok(Extrinsic::Signed { sender, index, signature, call }) => {
                if xt.len() > MAX_TRANSACTION_SIZE {
                    return Err(Error::TooLarge { got: xt.len(), limit: MAX_TRANSACTION_SIZE });
                }
                let mut payload: Vec<u8> = Vec::new();
                push_u64_le(&mut payload, index);
                let mut k: usize = 0;
                while k < call.len()
                    invariant
                        0 <= k <= call@.len(),
                        payload@ == u64_le_bytes(index) + call@.subrange(0, k as int),
                    decreases call@.len() - k,
                {
                    payload.push(call[k]);
                    proof {
                        assert(payload@ =~= u64_le_bytes(index) + call@.subrange(
                            0,
                            k + 1 as int,
                        ));
                    }
                    k += 1;
                }
                proof {
                    assert(call@.subrange(0, call@.len() as int) =~= call@);
                    assert(payload@ == signed_payload(xt@));
                }
                if !ed25519_verify(&sender, &payload, &signature) {
                    return Err(Error::InvalidExtrinsicFormat);
                }
                let hash = blake2_256(xt);
                let encoded_size = xt.len();
                Ok(VerifiedTransaction { hash, sender, index, encoded_size })
            },
        }
    }

    /// A fresh, empty nonce cache.
    pub fn ready(&self) -> (r: NonceTable)
        ensures
            r.wf(),
            forall|s: Seq<u8>| !r.spec_has(s),
    {
        NonceTable::new()
    }

    /// Classify one pool entry against the reference state `at`, seeding
    /// the cache from the chain on a miss (a chain error counts as an
    /// unreachable nonce, so the sender's entries stay `Future`), and
    /// advancing the sender's expectation by one.
    pub fn is_ready(&self, at: &BlockId, known_nonces: &mut NonceTable, xt: &Transaction) -> (r:
        Readiness)
        requires
            old(known_nonces).wf(),
        ensures
            final(known_nonces).wf(),
            exists|base: u64| #[trigger] is_ready_post(
                *old(known_nonces),
                *final(known_nonces),
                xt@,
                base,
                r,
            ),
    {
        let base = match known_nonces.find(&xt.verified.sender) {
            Some(k) => known_nonces.entries[k].next,
            None => {
                let fetched = match self.api.index(at, &xt.verified.sender) {
                    Ok(n) => n,
                    Err(_) => u64::MAX,
                };
                known_nonces.put(&xt.verified.sender, fetched);
                fetched
            },
        };
        let r = if base == u64::MAX {
            Readiness::Future
        } else if xt.verified.index > base {
            Readiness::Future
        } else if xt.verified.index == base {
            Readiness::Ready
        } else {
            Readiness::Stale
        };
        let bumped = if base >= u64::MAX - 1 {
            base
        } else {
            base + 1
        };
        match known_nonces.find(&xt.verified.sender) {
            Some(k) => {
                known_nonces.set_at(k, bumped);
            },
            None => {
                proof {
                    assert(false);
                }
            },
        }
        proof {
            assert(is_ready_post(*old(known_nonces), *known_nonces, xt@, base, r));
        }
        r
    }

    /// Order two pool entries: strictly by index.
    pub fn compare(old_tx: &Transaction, other: &Transaction) -> (r: Ordering)
        ensures
            r == (if old_tx.verified.index < other.verified.index {
                Ordering::Less
            } else if old_tx.verified.index == other.verified.index {
                Ordering::Equal
            } else {
                Ordering::Greater
            }),
    {
        if old_tx.verified.index < other.verified.index {
            Ordering::Less
        } else if old_tx.verified.index == other.verified.index {
            Ordering::Equal
        } else {
            Ordering::Greater
        }
    }

    /// Policy on an index collision: the new transaction replaces the old.
    pub fn choose_policy(old_tx: &Transaction, new_tx: &Transaction) -> (r: Choice)
        ensures
            r == (if old_tx.verified.index == new_tx.verified.index {
                Choice::ReplaceOld
            } else {
                Choice::InsertNew
            }),
    {
        if old_tx.verified.index == new_tx.verified.index {
            Choice::ReplaceOld
        } else {
            Choice::InsertNew
        }
    }

    /// Every transaction scores one: there are no fees in this design.
    /// Scores beyond the transactions are left as they were.
    pub fn update_scores(xts: &Vec<Transaction>, scores: &mut Vec<u64>)
        requires
            old(scores)@.len() >= xts@.len(),
        ensures
            final(scores)@.len() == old(scores)@.len(),
            forall|i: int| 0 <= i < xts@.len() ==> final(scores)@[i] == 1u64,
            forall|i: int|
                xts@.len() <= i < final(scores)@.len() ==> final(scores)@[i] == old(scores)@[i],
    {
        let mut i: usize = 0;
        while i < xts.len()
            invariant
                scores@.len() == old(scores)@.len() >= xts@.len(),
                0 <= i <= xts@.len(),
                forall|k: int| 0 <= k < i ==> scores@[k] == 1u64,
                forall|k: int| i <= k < scores@.len() ==> scores@[k] == old(scores)@[k],
            decreases xts@.len() - i,
        {
            scores[i] = 1;
            i += 1;
        }
    }

    /// Policy when the pool is full: reject the new transaction.
    pub fn should_replace(old_tx: &Transaction, new_tx: &Transaction) -> (r: Choice)
        ensures
            r == Choice::RejectNew,
    {
        Choice::RejectNew
    }
}


/// Number of entries of `txs` classifying as `want` against `t`.
pub open spec fn count_class(t: NonceTable, txs: Seq<TxView>, want: Readiness) -> int
    decreases txs.len(),
{
    if txs.len() == 0 {
        0
    } else {
        count_class(t, txs.drop_last(), want) + if class_at(t, txs, txs.len() - 1) == want {
            1int
        } else {
            0int
        }
    }
}

/// Whether `h` is one of the listed hashes.
pub open spec fn hash_views(hs: Seq<Vec<u8>>) -> Seq<Seq<u8>> {
    hs.map_values(|v: Vec<u8>| v@)
}

/// Whether `h` is listed in `hashes`.
pub fn hash_listed(hashes: &Vec<Vec<u8>>, h: &Vec<u8>) -> (r: bool)
    ensures
        r == hash_views(hashes@).contains(h@),
{
    let mut j: usize = 0;
    while j < hashes.len()
        invariant
            0 <= j <= hashes@.len(),
            forall|l: int| 0 <= l < j ==> hash_views(hashes@)[l] != h@,
        decreases hashes@.len() - j,
    {
        if bytes_equal(&hashes[j], h) {
            proof {
                assert(hash_views(hashes@)[j as int] == h@);
            }
            return true;
        }
        j += 1;
    }
    proof {
        if hash_views(hashes@).contains(h@) {
            let l = choose|l: int|
                0 <= l < hash_views(hashes@).len() && hash_views(hashes@)[l] == h@;
            assert(false);
        }
    }
    false
}

/// How a successful submission changes the pool content: on a
/// `(sender, index)` collision the new transaction replaces the old in
/// place; otherwise it is inserted at the position that keeps the sender's
/// entries in index order.
pub open spec fn submit_effect(pre: Seq<TxView>, post: Seq<TxView>, s: Seq<u8>) -> bool {
    if pool_has(pre, signed_sender(s), signed_index(s)) {
        post == pre.update(pool_pos(pre, signed_sender(s), signed_index(s)), spec_verified_view(s))
    } else {
        exists|p: int| 0 <= p <= pre.len() && post == pre.insert(p, spec_verified_view(s))
    }
}

/// What `cull_and_get_pending` did, for the nonce snapshot `t` it drew:
/// the pool kept exactly the entries not classifying `Stale`, and the
/// yielded set is the `Ready` entries of the culled pool in order.
pub open spec fn cull_pending_post(pre: Pool, post: Pool, out: Seq<TxView>, t: NonceTable) -> bool {
    &&& t.wf()
    &&& post.pool_txs() == cull_result(t, pre.pool_txs())
    &&& out == pending_result(t, post.pool_txs())
}

/// Replacing one entry changes the aggregate size by the difference.
pub proof fn lemma_mem_update(pre: Seq<TxView>, k: int, v: TxView)
    requires
        0 <= k < pre.len(),
    ensures
        spec_mem(pre.update(k, v)) == spec_mem(pre) - pre[k].encoded_size + v.encoded_size,
{
    let post = pre.update(k, v);
    assert(pre =~= pre.take(k) + seq![pre[k]] + pre.skip(k + 1));
    assert(post =~= pre.take(k) + seq![v] + pre.skip(k + 1));
    lemma_mem_add(pre.take(k) + seq![pre[k]], pre.skip(k + 1));
    lemma_mem_add(pre.take(k), seq![pre[k]]);
    lemma_mem_add(pre.take(k) + seq![v], pre.skip(k + 1));
    lemma_mem_add(pre.take(k), seq![v]);
    lemma_mem_single(pre[k]);
    lemma_mem_single(v);
}

/// Inserting one entry adds its size.
pub proof fn lemma_mem_insert(pre: Seq<TxView>, k: int, v: TxView)
    requires
        0 <= k <= pre.len(),
    ensures
        spec_mem(pre.insert(k, v)) == spec_mem(pre) + v.encoded_size,
{
    let post = pre.insert(k, v);
    assert(pre =~= pre.take(k) + pre.skip(k));
    assert(post =~= pre.take(k) + seq![v] + pre.skip(k));
    lemma_mem_add(pre.take(k) + seq![v], pre.skip(k));
    lemma_mem_add(pre.take(k), seq![v]);
    lemma_mem_add(pre.take(k), pre.skip(k));
    lemma_mem_single(v);
}

/// The aggregate size of one entry is its size.
pub proof fn lemma_mem_single(v: TxView)
    ensures
        spec_mem(seq![v]) == v.encoded_size,
{
    assert(seq![v].drop_last() =~= Seq::<TxView>::empty());
    assert(spec_mem(Seq::<TxView>::empty()) == 0);
    assert(seq![v].last() == v);
}

/// The transaction pool.
pub struct Pool {
    /// The entries; within one sender, in strictly increasing index order.
    pub transactions: Vec<Transaction>,
    /// Aggregate encoded size of the entries.
    pub mem_usage: usize,
    /// The capacity limits.
    pub options: Options,
}

impl Pool {
    /// The mathematical content of the pool.
    pub open spec fn pool_txs(self) -> Seq<TxView> {
        views(self.transactions@)
    }

    /// Well-formed pool: verified content in order, an exact size account,
    /// and both capacity limits respected.
    pub open spec fn wf(self) -> bool {
        &&& txs_wf(self.pool_txs())
        &&& self.mem_usage == spec_mem(self.pool_txs())
        &&& self.mem_usage <= self.options.max_mem
        &&& self.transactions@.len() <= self.options.max_count
    }

    /// Whether a successful submission of `s` fits the capacity limits.
    pub open spec fn submit_fits(self, s: Seq<u8>) -> bool {
        if pool_has(self.pool_txs(), signed_sender(s), signed_index(s)) {
            self.mem_usage - self.pool_txs()[pool_pos(
                self.pool_txs(),
                signed_sender(s),
                signed_index(s),
            )].encoded_size + s.len() <= self.options.max_mem
        } else {
            &&& self.mem_usage + s.len() <= self.options.max_mem
            &&& self.transactions@.len() + 1 <= self.options.max_count
        }
    }

    /// An empty pool with the given limits.
    pub fn new(options: Options) -> (r: Pool)
        ensures
            r.wf(),
            r.pool_txs() == Seq::<TxView>::empty(),
            r.options == options,
    {
        let r = Pool { transactions: Vec::new(), mem_usage: 0, options };
        proof {
            assert(r.pool_txs() =~= Seq::<TxView>::empty());
        }
        r
    }

    /// Entry count and aggregate size.
    pub fn light_status(&self) -> (r: LightStatus)
        ensures
            r.transaction_count == self.transactions@.len(),
            r.mem_usage == self.mem_usage,
    {
        LightStatus { transaction_count: self.transactions.len(), mem_usage: self.mem_usage }
    }

    /// Position where `(sender, index)` either sits or belongs.
    fn find_slot(&self, sender: &Vec<u8>, index: u64) -> (r: usize)
        requires
            self.wf(),
        ensures
            r <= self.transactions@.len(),
            forall|l: int|
                0 <= l < r && #[trigger] self.pool_txs()[l].sender == sender@
                    ==> self.pool_txs()[l].index < index,
            r < self.transactions@.len() ==> self.pool_txs()[r as int].sender == sender@
                && self.pool_txs()[r as int].index >= index,
    {
        let n = self.transactions.len();
        let mut k: usize = 0;
        while k < n
            invariant
                self.wf(),
                n == self.transactions@.len(),
                0 <= k <= n,
                forall|l: int|
                    0 <= l < k && #[trigger] self.pool_txs()[l].sender == sender@
                        ==> self.pool_txs()[l].index < index,
            decreases n - k,
        {
            if bytes_equal(&self.transactions[k].verified.sender, sender) {
                if self.transactions[k].verified.index >= index {
                    return k;
                }
            }
            k += 1;
        }
        n
    }

    /// Submit an encoded extrinsic: verify it, then admit it, replacing any
    /// queued transaction of the same sender and index. Returns the
    /// transaction hash.
    pub fn submit<A: Client>(&mut self, api: &ChainApi<A>, at: &BlockId, xt: &Vec<u8>) -> (r:
        Result<Vec<u8>, Error>)
        requires
            old(self).wf(),
        ensures
            final(self).wf(),
            final(self).options == old(self).options,
            r is Err ==> *final(self) == *old(self),
            !is_valid_extrinsic(xt@) ==> r == Err::<Vec<u8>, Error>(Error::InvalidExtrinsicFormat),
            is_inherent_encoding(xt@) ==> r == Err::<Vec<u8>, Error>(Error::IsInherent),
            is_signed_encoding(xt@) && xt@.len() > MAX_TRANSACTION_SIZE ==> r == Err::<
                Vec<u8>,
                Error,
            >(Error::TooLarge { got: xt@.len() as usize, limit: MAX_TRANSACTION_SIZE }),
            is_signed_encoding(xt@) && xt@.len() <= MAX_TRANSACTION_SIZE && !ed25519_verifies(
                signed_sender(xt@),
                signed_payload(xt@),
                signed_signature(xt@),
            ) ==> r == Err::<Vec<u8>, Error>(Error::InvalidExtrinsicFormat),
            spec_verify_ok(xt@) && !old(self).submit_fits(xt@) ==> r == Err::<Vec<u8>, Error>(
                Error::PoolFull,
            ),
            spec_verify_ok(xt@) && old(self).submit_fits(xt@) ==> (r matches Ok(h) && h@
                == blake2_256_of(xt@) && submit_effect(
                old(self).pool_txs(),
                final(self).pool_txs(),
                xt@,
            )),
    {
        let v = match api.verify_transaction(at, xt) {
            Ok(v) => v,
            Err(e) => {
                return Err(e);
            },
        };
        let hash_out = clone_bytes(&v.hash);
        let tx = Transaction { verified: v, original: clone_bytes(xt) };
        proof {
            assert(tx@ =~= spec_verified_view(xt@));
        }
        let ghost pre = self.pool_txs();
        proof {
            assert(forall|l: int| 0 <= l < pre.len() ==> #[trigger] pre[l].encoded_size >= 0);
        }
        let n = self.transactions.len();
        let slot = self.find_slot(&tx.verified.sender, tx.verified.index);
        if slot < n && self.transactions[slot].verified.index == tx.verified.index {
            // replacement: same sender, same index
            proof {
                assert(pool_has(pre, signed_sender(xt@), signed_index(xt@)));
                let p = pool_pos(pre, signed_sender(xt@), signed_index(xt@));
                if p < slot {
                    assert(pre[p].index < pre[slot as int].index);
                }
                if slot < p {
                    assert(pre[slot as int].index < pre[p].index);
                }
                assert(p == slot);
                lemma_mem_entry(pre, slot as int);
            }
            let old_size = self.transactions[slot].verified.encoded_size;
            let base = self.mem_usage - old_size;
            if xt.len() > self.options.max_mem - base {
                return Err(Error::PoolFull);
            }
            self.transactions[slot] = tx;
            self.mem_usage = base + xt.len();
            proof {
                assert(self.pool_txs() =~= pre.update(slot as int, spec_verified_view(xt@)));
                lemma_mem_update(pre, slot as int, spec_verified_view(xt@));
                let post = self.pool_txs();
                assert forall|k1: int, k2: int|
                    0 <= k1 < k2 < post.len() && post[k1].sender == post[k2].sender implies post[
                k1].index < post[k2].index by {
                    assert(post[k1].sender == pre[k1].sender && post[k1].index == pre[k1].index);
                    assert(post[k2].sender == pre[k2].sender && post[k2].index == pre[k2].index);
                }
            }
            return Ok(hash_out);
        }
        // insertion keeping the sender's entries in index order
        proof {
            if pool_has(pre, signed_sender(xt@), signed_index(xt@)) {
                let p = pool_pos(pre, signed_sender(xt@), signed_index(xt@));
                if p < slot {
                    assert(pre[p].index < signed_index(xt@));
                }
                if slot < n {
                    if p == slot {
                        assert(false);
                    }
                    if slot < p {
                        assert(pre[slot as int].index < pre[p].index);
                        assert(false);
                    }
                } else {
                    assert(p < n);
                    assert(false);
                }
            }
        }
        if self.transactions.len() >= self.options.max_count {
            return Err(Error::PoolFull);
        }
        if xt.len() > self.options.max_mem - self.mem_usage {
            return Err(Error::PoolFull);
        }
        let ghost vv = spec_verified_view(xt@);
        self.transactions.insert(slot, tx);
        self.mem_usage = self.mem_usage + xt.len();
        proof {
            assert(self.pool_txs() =~= pre.insert(slot as int, vv));
            lemma_mem_insert(pre, slot as int, vv);
            let post = self.pool_txs();
            assert forall|k1: int, k2: int|
                0 <= k1 < k2 < post.len() && post[k1].sender == post[k2].sender implies post[
            k1].index < post[k2].index by {
                if k1 == slot {
                    assert(post[k2] == pre[k2 - 1]);
                    if post[k2].sender == vv.sender {
                        if slot < n {
                            if k2 - 1 == slot {
                                assert(pre[slot as int].index > vv.index);
                            } else {
                                assert(pre[slot as int].index < pre[k2 - 1].index);
                                assert(pre[slot as int].index > vv.index);
                            }
                        } else {
                            assert(false);
                        }
                    }
                } else if k2 == slot {
                    assert(post[k1] == pre[k1]);
                } else {
                    let j1: int = if k1 < slot {
                        k1
                    } else {
                        k1 - 1
                    };
                    let j2: int = if k2 < slot {
                        k2
                    } else {
                        k2 - 1
                    };
                    assert(post[k1] == pre[j1]);
                    assert(post[k2] == pre[j2]);
                }
            }
            assert(submit_effect(pre, post, xt@));
        }
        Ok(hash_out)
    }

    /// Drop the listed hashes from the pool. The flag only records whether
    /// the caller considered them invalid; it does not change what happens.
    pub fn remove(&mut self, hashes: &Vec<Vec<u8>>, is_invalid: bool)
        requires
            old(self).wf(),
        ensures
            final(self).wf(),
            final(self).options == old(self).options,
            final(self).pool_txs() == remove_result(old(self).pool_txs(), hash_views(hashes@)),
    {
        let ghost pre = self.pool_txs();
        let ghost listed = hash_views(hashes@);
        proof {
            assert(forall|l: int| 0 <= l < pre.len() ==> #[trigger] pre[l].encoded_size >= 0);
        }
        let mut kept: Vec<Transaction> = Vec::new();
        let mut kept_mem: usize = 0;
        let mut i: usize = 0;
        while i < self.transactions.len()
            invariant
                self.wf(),
                self == old(self),
                pre == self.pool_txs(),
                listed == hash_views(hashes@),
                0 <= i <= self.transactions@.len(),
                views(kept@) == remove_result(pre.take(i as int), listed),
                kept_mem == spec_mem(views(kept@)),
            decreases self.transactions@.len() - i,
        {
            let ghost kv = views(kept@);
            proof {
                assert(pre.take(i + 1).drop_last() =~= pre.take(i as int));
                assert(pre.take(i + 1).last() == pre[i as int]);
                assert(forall|l: int|
                    0 <= l < pre.take(i + 1).len() ==> #[trigger] pre.take(i + 1)[l].encoded_size
                        >= 0);
                lemma_remove_mem(pre.take(i + 1), listed);
                lemma_mem_take(pre, i + 1);
            }
            if !hash_listed(hashes, &self.transactions[i].verified.hash) {
                let c = clone_tx(&self.transactions[i]);
                kept.push(c);
                proof {
                    assert(views(kept@) =~= kv.push(pre[i as int]));
                    assert(views(kept@).drop_last() =~= kv);
                    assert(views(kept@) == remove_result(pre.take(i + 1), listed));
                    assert(spec_mem(views(kept@)) == kept_mem + pre[i as int].encoded_size);
                }
                kept_mem = kept_mem + self.transactions[i].verified.encoded_size;
            }
            i += 1;
        }
        proof {
            assert(pre.take(self.transactions@.len() as int) =~= pre);
        }
        self.transactions = kept;
        self.mem_usage = kept_mem;
        proof {
            lemma_remove_wf(pre, listed);
            lemma_remove_len(pre, listed);
            lemma_remove_mem(pre, listed);
        }
    }


    /// Fetch a nonce snapshot covering every sender in the pool: the
    /// chain's answer per sender, or an unreachable nonce on a chain
    /// error, so that such a sender's entries stay `Future`.
    fn fetch_nonces<A: Client>(&self, api: &ChainApi<A>, at: &BlockId) -> (r: NonceTable)
        ensures
            r.wf(),
            forall|k: int|
                0 <= k < self.pool_txs().len() ==> r.spec_has(#[trigger] self.pool_txs()[k].sender),
    {
        let mut table = NonceTable::new();
        let mut i: usize = 0;
        while i < self.transactions.len()
            invariant
                table.wf(),
                0 <= i <= self.transactions@.len(),
                forall|k: int|
                    0 <= k < i ==> table.spec_has(#[trigger] self.pool_txs()[k].sender),
            decreases self.transactions@.len() - i,
        {
            match table.find(&self.transactions[i].verified.sender) {
                Some(_) => {},
                None => {
                    let fetched = match api.api.index(at, &self.transactions[i].verified.sender) {
                        Ok(n) => n,
                        Err(_) => u64::MAX,
                    };
                    table.put(&self.transactions[i].verified.sender, fetched);
                },
            }
            i += 1;
        }
        table
    }

    /// Evict every transaction classified `Stale` against `at`, then
    /// return the `Ready` set, within each sender in ascending index
    /// order.
    pub fn cull_and_get_pending<A: Client>(&mut self, api: &ChainApi<A>, at: &BlockId) -> (r: Vec<
        Transaction,
    >)
        requires
            old(self).wf(),
        ensures
            final(self).wf(),
            final(self).options == old(self).options,
            final(self).transactions@.len() <= old(self).transactions@.len(),
            exists|t: NonceTable| #[trigger] cull_pending_post(
                *old(self),
                *final(self),
                views(r@),
                t,
            ),
    {
        let table = self.fetch_nonces(api, at);
        let ghost t = table;
        let ghost pre = self.pool_txs();
        proof {
            assert(forall|l: int| 0 <= l < pre.len() ==> #[trigger] pre[l].encoded_size >= 0);
        }
        // cull pass
        let mut counters = table.duplicate();
        let mut kept: Vec<Transaction> = Vec::new();
        let mut kept_mem: usize = 0;
        let mut i: usize = 0;
        while i < self.transactions.len()
            invariant
                self.wf(),
                self == old(self),
                pre == self.pool_txs(),
                t == table,
                table.wf(),
                counters.wf(),
                0 <= i <= self.transactions@.len(),
                kept@.len() <= i,
                forall|s: Seq<u8>| #[trigger] counters.spec_has(s) == t.spec_has(s),
                forall|s: Seq<u8>| #[trigger] counters.spec_next(s) == sat_add64(
                    t.spec_next(s),
                    count_sender(pre.take(i as int), s),
                ),
                forall|k: int|
                    0 <= k < pre.len() ==> t.spec_has(#[trigger] pre[k].sender),
                views(kept@) == cull_result(t, pre.take(i as int)),
                kept_mem == spec_mem(views(kept@)),
            decreases self.transactions@.len() - i,
        {
            let ghost kv = views(kept@);
            let ghost s_i = pre[i as int].sender;
            proof {
                assert(pre.take(i + 1).drop_last() =~= pre.take(i as int));
                assert(pre.take(i + 1).last() == pre[i as int]);
                lemma_count_sender_bounds(pre.take(i as int), s_i);
                assert(forall|l: int|
                    0 <= l < pre.take(i + 1).len() ==> #[trigger] pre.take(i + 1)[l].encoded_size
                        >= 0);
                lemma_cull_mem(t, pre.take(i + 1));
                lemma_mem_take(pre, i + 1);
            }
            let base = match counters.find(&self.transactions[i].verified.sender) {
                Some(k) => counters.entries[k].next,
                None => {
                    proof {
                        assert(false);
                    }
                    u64::MAX
                },
            };
            let idx = self.transactions[i].verified.index;
            let stale = base != u64::MAX && idx < base;
            proof {
                assert(class_at(t, pre.take(i + 1), i as int) == spec_classify(
                    pre[i as int].index,
                    base,
                ));
            }
            if !stale {
                let c = clone_tx(&self.transactions[i]);
                kept.push(c);
                proof {
                    assert(views(kept@) =~= kv.push(pre[i as int]));
                    assert(views(kept@).drop_last() =~= kv);
                    assert(views(kept@) == cull_result(t, pre.take(i + 1)));
                    assert(spec_mem(views(kept@)) == kept_mem + pre[i as int].encoded_size);
                }
                kept_mem = kept_mem + self.transactions[i].verified.encoded_size;
            }
            let bumped = if base >= u64::MAX - 1 {
                base
            } else {
                base + 1
            };
            match counters.find(&self.transactions[i].verified.sender) {
                Some(k) => {
                    counters.set_at(k, bumped);
                },
                None => {
                    proof {
                        assert(false);
                    }
                },
            }
            proof {
                lemma_sat1_add(t.spec_next(s_i), count_sender(pre.take(i as int), s_i));
                assert forall|s: Seq<u8>| #[trigger] counters.spec_next(s) == sat_add64(
                    t.spec_next(s),
                    count_sender(pre.take(i + 1), s),
                ) by {
                    if s == s_i {
                        assert(count_sender(pre.take(i + 1), s) == count_sender(
                            pre.take(i as int),
                            s,
                        ) + 1);
                    } else {
                        assert(count_sender(pre.take(i + 1), s) == count_sender(
                            pre.take(i as int),
                            s,
                        ));
                    }
                }
            }
            i += 1;
        }
        proof {
            assert(pre.take(self.transactions@.len() as int) =~= pre);
            lemma_cull_wf(t, pre);
            lemma_cull_len(t, pre);
            lemma_cull_mem(t, pre);
        }
        self.transactions = kept;
        self.mem_usage = kept_mem;
        // pending pass over the culled pool
        let ghost culled = self.pool_txs();
        proof {
            assert forall|k: int| 0 <= k < culled.len() implies t.spec_has(
                #[trigger] culled[k].sender,
            ) by {
                lemma_cull_sub(t, pre, k);
                let k0 = choose|k0: int| k <= k0 < pre.len() && pre[k0] == culled[k];
                assert(t.spec_has(pre[k0].sender));
            }
        }
        let mut counters2 = table.duplicate();
        let mut out: Vec<Transaction> = Vec::new();
        let mut j: usize = 0;
        while j < self.transactions.len()
            invariant
                self.wf(),
                culled == self.pool_txs(),
                t == table,
                table.wf(),
                counters2.wf(),
                0 <= j <= self.transactions@.len(),
                forall|s: Seq<u8>| #[trigger] counters2.spec_has(s) == t.spec_has(s),
                forall|s: Seq<u8>| #[trigger] counters2.spec_next(s) == sat_add64(
                    t.spec_next(s),
                    count_sender(culled.take(j as int), s),
                ),
                forall|k: int|
                    0 <= k < culled.len() ==> t.spec_has(#[trigger] culled[k].sender),
                views(out@) == pending_result(t, culled.take(j as int)),
            decreases self.transactions@.len() - j,
        {
            let ghost ov = views(out@);
            let ghost s_j = culled[j as int].sender;
            proof {
                assert(culled.take(j + 1).drop_last() =~= culled.take(j as int));
                assert(culled.take(j + 1).last() == culled[j as int]);
                lemma_count_sender_bounds(culled.take(j as int), s_j);
            }
            let base = match counters2.find(&self.transactions[j].verified.sender) {
                Some(k) => counters2.entries[k].next,
                None => {
                    proof {
                        assert(false);
                    }
                    u64::MAX
                },
            };
            let idx = self.transactions[j].verified.index;
            proof {
                assert(class_at(t, culled.take(j + 1), j as int) == spec_classify(
                    culled[j as int].index,
                    base,
                ));
            }
            if base != u64::MAX && idx == base {
                let c = clone_tx(&self.transactions[j]);
                out.push(c);
                proof {
                    assert(views(out@) =~= ov.push(culled[j as int]));
                    assert(views(out@) == pending_result(t, culled.take(j + 1)));
                }
            }
            let bumped = if base >= u64::MAX - 1 {
                base
            } else {
                base + 1
            };
            match counters2.find(&self.transactions[j].verified.sender) {
                Some(k) => {
                    counters2.set_at(k, bumped);
                },
                None => {
                    proof {
                        assert(false);
                    }
                },
            }
            proof {
                lemma_sat1_add(t.spec_next(s_j), count_sender(culled.take(j as int), s_j));
                assert forall|s: Seq<u8>| #[trigger] counters2.spec_next(s) == sat_add64(
                    t.spec_next(s),
                    count_sender(culled.take(j + 1), s),
                ) by {
                    if s == s_j {
                        assert(count_sender(culled.take(j + 1), s) == count_sender(
                            culled.take(j as int),
                            s,
                        ) + 1);
                    } else {
                        assert(count_sender(culled.take(j + 1), s) == count_sender(
                            culled.take(j as int),
                            s,
                        ));
                    }
                }
            }
            j += 1;
        }
        proof {
            assert(culled.take(self.transactions@.len() as int) =~= culled);
            assert(cull_pending_post(*old(self), *self, views(out@), t));
        }
        out
    }

    /// Counts of the pool against the reference state `at`.
    pub fn status<A: Client>(&self, api: &ChainApi<A>, at: &BlockId) -> (r: Status)
        requires
            self.wf(),
        ensures
            r.total_bytes == self.mem_usage,
            exists|t: NonceTable|
                #![all_triggers]
                t.wf() && r.ready_count == count_class(t, self.pool_txs(), Readiness::Ready)
                    && r.future_count == count_class(t, self.pool_txs(), Readiness::Future),
    {
        let table = self.fetch_nonces(api, at);
        let ghost t = table;
        let ghost txs = self.pool_txs();
        let mut counters = table.duplicate();
        let mut ready_count: usize = 0;
        let mut future_count: usize = 0;
        let mut i: usize = 0;
        while i < self.transactions.len()
            invariant
                self.wf(),
                txs == self.pool_txs(),
                t == table,
                table.wf(),
                counters.wf(),
                0 <= i <= self.transactions@.len(),
                ready_count + future_count <= i,
                forall|s: Seq<u8>| #[trigger] counters.spec_has(s) == t.spec_has(s),
                forall|s: Seq<u8>| #[trigger] counters.spec_next(s) == sat_add64(
                    t.spec_next(s),
                    count_sender(txs.take(i as int), s),
                ),
                forall|k: int| 0 <= k < txs.len() ==> t.spec_has(#[trigger] txs[k].sender),
                ready_count == count_class(t, txs.take(i as int), Readiness::Ready),
                future_count == count_class(t, txs.take(i as int), Readiness::Future),
            decreases self.transactions@.len() - i,
        {
            let ghost s_i = txs[i as int].sender;
            proof {
                assert(txs.take(i + 1).drop_last() =~= txs.take(i as int));
                assert(txs.take(i + 1).last() == txs[i as int]);
                lemma_count_sender_bounds(txs.take(i as int), s_i);
            }
            let base = match counters.find(&self.transactions[i].verified.sender) {
                Some(k) => counters.entries[k].next,
                None => {
                    proof {
                        assert(false);
                    }
                    u64::MAX
                },
            };
            let idx = self.transactions[i].verified.index;
            proof {
                assert(class_at(t, txs.take(i + 1), i as int) == spec_classify(
                    txs[i as int].index,
                    base,
                ));
            }
            if base == u64::MAX {
                future_count = future_count + 1;
            } else if idx == base {
                ready_count = ready_count + 1;
            } else if idx > base {
                future_count = future_count + 1;
            }
            let bumped = if base >= u64::MAX - 1 {
                base
            } else {
                base + 1
            };
            match counters.find(&self.transactions[i].verified.sender) {
                Some(k) => {
                    counters.set_at(k, bumped);
                },
                None => {
                    proof {
                        assert(false);
                    }
                },
            }
            proof {
                lemma_sat1_add(t.spec_next(s_i), count_sender(txs.take(i as int), s_i));
                assert forall|s: Seq<u8>| #[trigger] counters.spec_next(s) == sat_add64(
                    t.spec_next(s),
                    count_sender(txs.take(i + 1), s),
                ) by {
                    if s == s_i {
                        assert(count_sender(txs.take(i + 1), s) == count_sender(
                            txs.take(i as int),
                            s,
                        ) + 1);
                    } else {
                        assert(count_sender(txs.take(i + 1), s) == count_sender(
                            txs.take(i as int),
                            s,
                        ));
                    }
                }
            }
            i += 1;
        }
        proof {
            assert(txs.take(self.transactions@.len() as int) =~= txs);
        }
        Status { ready_count, future_count, total_bytes: self.mem_usage }
    }
}

/// Every admitted transaction re-verifies to itself: its fields are the
/// pure functions of its bytes that verification computes, its bytes fit
/// the admission limit, and its signature is valid under its sender.
pub proof fn lemma_admitted_transaction(txs: Seq<TxView>, k: int)
    requires
        txs_wf(txs),
        0 <= k < txs.len(),
    ensures
        txs[k] == spec_verified_view(txs[k].bytes),
        txs[k].bytes.len() <= MAX_TRANSACTION_SIZE,
        ed25519_verifies(
            signed_sender(txs[k].bytes),
            signed_payload(txs[k].bytes),
            signed_signature(txs[k].bytes),
        ),
        txs[k].sender == signed_sender(txs[k].bytes),
{
}

/// For any sender, the indices of that sender's entries are strictly
/// increasing along the pool.
pub proof fn lemma_sender_indices_increase(txs: Seq<TxView>, k1: int, k2: int)
    requires
        txs_wf(txs),
        0 <= k1 < k2 < txs.len(),
        txs[k1].sender == txs[k2].sender,
    ensures
        txs[k1].index < txs[k2].index,
{
}

/// Idempotent submission: submitting the same bytes twice yields the same
/// hash both times, and the pool grows only by the first submission — the
/// second replaces at the `(sender, index)` slot.
pub proof fn lemma_idempotent_submission(
    e0: Seq<TxView>,
    e1: Seq<TxView>,
    e2: Seq<TxView>,
    s: Seq<u8>,
)
    requires
        spec_verify_ok(s),
        !pool_has(e0, signed_sender(s), signed_index(s)),
        submit_effect(e0, e1, s),
        submit_effect(e1, e2, s),
    ensures
        e1.len() == e0.len() + 1,
        e2.len() == e1.len(),
{
    let p = choose|p: int| 0 <= p <= e0.len() && e1 == e0.insert(p, spec_verified_view(s));
    assert(e1[p] == spec_verified_view(s));
    assert(pool_has(e1, signed_sender(s), signed_index(s)));
}

} // verus!
