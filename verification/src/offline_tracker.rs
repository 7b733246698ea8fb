//! Tracks, per validator, how many assigned rounds in a row the validator
//! failed to propose, and turns that into offline reports.
//!
//! One shared tracker serves all heights; the proposer and the factory
//! borrow it for the duration of each call, which models the original
//! reader-writer-locked shared instance.

use vstd::prelude::*;

use crate::codec::bytes_equal;
use crate::codec::clone_bytes;
use crate::types::AccountId;
use crate::types::OFFLINE_THRESHOLD;

verus! {

/// Whether some entry of `vs` holds the bytes `who`.
pub open spec fn account_list_contains(vs: Seq<AccountId>, who: Seq<u8>) -> bool {
    exists|i: int| 0 <= i < vs.len() && vs[i]@ == who
}

/// One tracked validator and its consecutive missed-round count.
pub struct Observed {
    /// The validator.
    pub who: AccountId,
    /// Assigned rounds missed in a row within the current window.
    pub count: u32,
}

/// The offline tracker.
pub struct OfflineTracker {
    /// The tracked validators; each appears at most once.
    pub observed: Vec<Observed>,
}

impl OfflineTracker {
    /// Well-formed: each validator is tracked at most once.
    pub open spec fn wf(self) -> bool {
        forall|k1: int, k2: int|
            0 <= k1 < k2 < self.observed@.len() ==> self.observed@[k1].who@
                != self.observed@[k2].who@
    }

    /// Whether `who` is currently tracked.
    pub open spec fn spec_tracked(self, who: Seq<u8>) -> bool {
        exists|k: int| 0 <= k < self.observed@.len() && self.observed@[k].who@ == who
    }

    /// The missed-round count of `who`; zero when untracked.
    pub open spec fn spec_count(self, who: Seq<u8>) -> u32 {
        if self.spec_tracked(who) {
            self.observed@[choose|k: int|
                0 <= k < self.observed@.len() && self.observed@[k].who@ == who].count
        } else {
            0u32
        }
    }

    /// Whether this node would itself report the validator at position `i`
    /// of `vs` as offline.
    pub open spec fn spec_would_report(self, vs: Seq<AccountId>, i: int) -> bool {
        0 <= i < vs.len() && self.spec_count(vs[i]@) >= OFFLINE_THRESHOLD
    }

    /// An empty tracker.
    pub fn new() -> (r: OfflineTracker)
        ensures
            r.wf(),
            forall|who: Seq<u8>| !r.spec_tracked(who),
    {
        OfflineTracker { observed: Vec::new() }
    }

    /// The tracked count of `who`, or `None` when untracked.
    fn get_count(&self, who: &AccountId) -> (r: Option<u32>)
        requires
            self.wf(),
        ensures
            match r {
                Some(c) => self.spec_tracked(who@) && c == self.spec_count(who@),
                None => !self.spec_tracked(who@),
            },
    {
        let mut k: usize = 0;
        while k < self.observed.len()
            invariant
                self.wf(),
                0 <= k <= self.observed@.len(),
                forall|l: int| 0 <= l < k ==> self.observed@[l].who@ != who@,
            decreases self.observed@.len() - k,
        {
            if bytes_equal(&self.observed[k].who, who) {
                return Some(self.observed[k].count);
            }
            k += 1;
        }
        None
    }

    /// Relation between the tracker before and after `note_new_block` with
    /// the validator set `vs`: exactly the members of `vs` are tracked,
    /// already-tracked members keep their count, newcomers start at zero.
    pub open spec fn note_new_block_rel(pre: OfflineTracker, post: OfflineTracker, vs: Seq<AccountId>) -> bool {
        &&& post.wf()
        &&& forall|who: Seq<u8>|
            #[trigger] post.spec_tracked(who) ==> account_list_contains(vs, who)
        &&& forall|i: int| 0 <= i < vs.len() ==> post.spec_tracked(#[trigger] vs[i]@)
        &&& forall|who: Seq<u8>|
            #[trigger] post.spec_count(who) == if post.spec_tracked(who) {
                pre.spec_count(who)
            } else {
                0u32
            }
    }

    /// Re-sync the tracked set to the validator set of a new block:
    /// validators absent from the new set are dropped, newcomers start at
    /// zero, the rest keep their counts.
    pub fn note_new_block(&mut self, validators: &Vec<AccountId>)
        requires
            old(self).wf(),
        ensures
            OfflineTracker::note_new_block_rel(*old(self), *final(self), validators@),
    {
        let mut fresh: Vec<Observed> = Vec::new();
        let mut i: usize = 0;
        while i < validators.len()
            invariant
                self.wf(),
                self == old(self),
                0 <= i <= validators@.len(),
                forall|k1: int, k2: int|
                    0 <= k1 < k2 < fresh@.len() ==> fresh@[k1].who@ != fresh@[k2].who@,
                forall|k: int|
                    0 <= k < fresh@.len() ==> account_list_contains(
                        validators@,
                        #[trigger] fresh@[k].who@,
                    ),
                forall|k: int|
                    0 <= k < fresh@.len() ==> #[trigger] fresh@[k].count == (
                    if self.spec_tracked(fresh@[k].who@) {
                        self.spec_count(fresh@[k].who@)
                    } else {
                        0u32
                    }),
                forall|j: int|
                    0 <= j < i ==> exists|k: int|
                        0 <= k < fresh@.len() && fresh@[k].who@ == #[trigger] validators@[j]@,
            decreases validators@.len() - i,
        {
            let mut seen = false;
            let mut k: usize = 0;
            while k < fresh.len()
                invariant
                    0 <= k <= fresh@.len(),
                    seen == exists|l: int|
                        0 <= l < k && fresh@[l].who@ == validators@[i as int]@,
                    i < validators@.len(),
                decreases fresh@.len() - k,
            {
                if bytes_equal(&fresh[k].who, &validators[i]) {
                    seen = true;
                }
                k += 1;
            }
            let ghost fresh_before = fresh@;
            if !seen {
                let c = match self.get_count(&validators[i]) {
                    Some(c) => c,
                    None => 0,
                };
                fresh.push(Observed { who: clone_bytes(&validators[i]), count: c });
            }
            proof {
                assert(forall|k: int|
                    0 <= k < fresh_before.len() ==> fresh@[k] == fresh_before[k]);
                assert forall|j: int| 0 <= j <= i implies exists|k: int|
                    0 <= k < fresh@.len() && fresh@[k].who@ == #[trigger] validators@[j]@ by {
                    if j < i {
                        let k = choose|k: int|
                            0 <= k < fresh_before.len() && fresh_before[k].who@
                                == validators@[j]@;
                        assert(fresh@[k].who@ == validators@[j]@);
                    } else if seen {
                        let l = choose|l: int|
                            0 <= l < fresh_before.len() && fresh_before[l].who@
                                == validators@[i as int]@;
                        assert(fresh@[l].who@ == validators@[j]@);
                    } else {
                        assert(fresh@[fresh@.len() - 1].who@ == validators@[j]@);
                    }
                }
            }
            i += 1;
        }
        self.observed = fresh;
        proof {
            assert forall|who: Seq<u8>| #[trigger]
                self.spec_count(who) == if self.spec_tracked(who) {
                    old(self).spec_count(who)
                } else {
                    0u32
                } by {
                if self.spec_tracked(who) {
                    let k = choose|k: int|
                        0 <= k < self.observed@.len() && self.observed@[k].who@ == who;
                    assert(self.observed@[k].count == if old(self).spec_tracked(who) {
                        old(self).spec_count(who)
                    } else {
                        0u32
                    });
                }
            }
        }
    }

    /// Relation between the tracker before and after `note_round_end` for
    /// `primary`: a proposed round zeroes the primary's count, a missed
    /// round increments it (saturating); nobody else changes.
    pub open spec fn note_round_end_rel(
        pre: OfflineTracker,
        post: OfflineTracker,
        primary: Seq<u8>,
        was_proposed: bool,
    ) -> bool {
        &&& post.wf()
        &&& post.spec_tracked(primary)
        &&& post.spec_count(primary) == if was_proposed {
            0u32
        } else if pre.spec_count(primary) == u32::MAX {
            u32::MAX
        } else {
            (pre.spec_count(primary) + 1) as u32
        }
        &&& forall|who: Seq<u8>|
            who != primary ==> #[trigger] post.spec_tracked(who) == pre.spec_tracked(who)
        &&& forall|who: Seq<u8>|
            who != primary ==> #[trigger] post.spec_count(who) == pre.spec_count(who)
    }

    /// Note the end of a round: the primary either proposed, which resets
    /// its count, or missed, which increments it.
    pub fn note_round_end(&mut self, primary: &AccountId, was_proposed: bool)
        requires
            old(self).wf(),
        ensures
            OfflineTracker::note_round_end_rel(
                *old(self),
                *final(self),
                primary@,
                was_proposed,
            ),
    {
        let mut k: usize = 0;
        while k < self.observed.len()
            invariant
                self.wf(),
                self == old(self),
                0 <= k <= self.observed@.len(),
                forall|l: int| 0 <= l < k ==> self.observed@[l].who@ != primary@,
            decreases self.observed@.len() - k,
        {
            if bytes_equal(&self.observed[k].who, primary) {
                let c = self.observed[k].count;
                let fresh = if was_proposed {
                    0
                } else if c == u32::MAX {
                    u32::MAX
                } else {
                    c + 1
                };
                proof {
                    assert(self.spec_tracked(primary@));
                    assert(self.spec_count(primary@) == c);
                }
                let ghost pre = *self;
                self.observed[k].count = fresh;
                proof {
                    assert forall|who: Seq<u8>| who != primary@ implies #[trigger] self
                        .spec_tracked(who) == pre.spec_tracked(who) && self.spec_count(who)
                        == pre.spec_count(who) by {
                        assert(forall|l: int|
                            0 <= l < self.observed@.len() && l != k ==> self.observed@[l]
                                == pre.observed@[l]);
                        if pre.spec_tracked(who) {
                            let l = choose|l: int|
                                0 <= l < pre.observed@.len() && pre.observed@[l].who@ == who;
                            assert(self.observed@[l].who@ == who);
                        }
                        if self.spec_tracked(who) {
                            let l = choose|l: int|
                                0 <= l < self.observed@.len() && self.observed@[l].who@ == who;
                            assert(pre.observed@[l].who@ == who);
                        }
                    }
                    assert(self.spec_tracked(primary@));
                    let l = choose|l: int|
                        0 <= l < self.observed@.len() && self.observed@[l].who@ == primary@;
                    assert(l == k);
                }
                return ;
            }
            k += 1;
        }
        let fresh = if was_proposed {
            0
        } else {
            1
        };
        let ghost pre = *self;
        self.observed.push(Observed { who: clone_bytes(primary), count: fresh });
        proof {
            let n = self.observed@.len() - 1;
            assert(self.observed@[n].who@ == primary@);
            assert forall|who: Seq<u8>| who != primary@ implies #[trigger] self.spec_tracked(who)
                == pre.spec_tracked(who) && self.spec_count(who) == pre.spec_count(who) by {
                if pre.spec_tracked(who) {
                    let l = choose|l: int|
                        0 <= l < pre.observed@.len() && pre.observed@[l].who@ == who;
                    assert(self.observed@[l].who@ == who);
                }
                if self.spec_tracked(who) {
                    let l = choose|l: int|
                        0 <= l < self.observed@.len() && self.observed@[l].who@ == who;
                    assert(l < n);
                    assert(pre.observed@[l].who@ == who);
                }
            }
            let l = choose|l: int|
                0 <= l < self.observed@.len() && self.observed@[l].who@ == primary@;
            assert(l == n);
            assert(!pre.spec_tracked(primary@));
        }
    }

    /// Indices into `validators` of the members this node would report as
    /// offline, strictly ascending.
    pub fn reports(&self, validators: &Vec<AccountId>) -> (r: Vec<u32>)
        requires
            self.wf(),
            validators@.len() <= 0xffff_ffff,
        ensures
            r@.len() <= validators@.len(),
            forall|a: int, b: int| 0 <= a < b < r@.len() ==> r@[a] < r@[b],
            forall|j: int|
                0 <= j < r@.len() ==> self.spec_would_report(validators@, #[trigger] r@[j] as int),
            forall|i: int|
                0 <= i < validators@.len() && self.spec_would_report(validators@, i) ==> r@
                    .contains(i as u32),
    {
        let mut r: Vec<u32> = Vec::new();
        let mut i: usize = 0;
        while i < validators.len()
            invariant
                self.wf(),
                validators@.len() <= 0xffff_ffff,
                0 <= i <= validators@.len(),
                r@.len() <= i,
                forall|j: int| 0 <= j < r@.len() ==> 0 <= #[trigger] r@[j] < i,
                forall|a: int, b: int| 0 <= a < b < r@.len() ==> r@[a] < r@[b],
                forall|j: int|
                    0 <= j < r@.len() ==> self.spec_would_report(
                        validators@,
                        #[trigger] r@[j] as int,
                    ),
                forall|k: int|
                    0 <= k < i && self.spec_would_report(validators@, k) ==> r@.contains(k as u32),
            decreases validators@.len() - i,
        {
            let c = match self.get_count(&validators[i]) {
                Some(c) => c,
                None => 0,
            };
            if c >= OFFLINE_THRESHOLD {
                let ghost r_before = r@;
                r.push(i as u32);
                proof {
                    assert(r@[r@.len() - 1] == i as u32);
                    assert(r@.subrange(0, r@.len() - 1) =~= r_before);
                    assert forall|k: int|
                        0 <= k <= i && self.spec_would_report(validators@, k) implies r@.contains(
                        k as u32,
                    ) by {
                        if k < i {
                            let j = choose|j: int|
                                0 <= j < r@.len() - 1 && #[trigger] r@.subrange(
                                    0,
                                    r@.len() - 1,
                                )[j] == k as u32;
                            assert(r@[j] == k as u32);
                        }
                    }
                }
            }
            i += 1;
        }
        r
    }

    /// Whether every index in `claimed` names a validator this node would
    /// itself report as offline.
    pub fn check_consistency(&self, validators: &Vec<AccountId>, claimed: &Vec<u32>) -> (r: bool)
        requires
            self.wf(),
        ensures
            r == forall|j: int|
                0 <= j < claimed@.len() ==> self.spec_would_report(
                    validators@,
                    #[trigger] claimed@[j] as int,
                ),
    {
        let mut j: usize = 0;
        while j < claimed.len()
            invariant
                self.wf(),
                0 <= j <= claimed@.len(),
                forall|l: int|
                    0 <= l < j ==> self.spec_would_report(validators@, #[trigger] claimed@[l] as int),
            decreases claimed@.len() - j,
        {
            let idx = claimed[j];
            if (idx as usize) >= validators.len() {
                return false;
            }
            let c = match self.get_count(&validators[idx as usize]) {
                Some(c) => c,
                None => 0,
            };
            if c < OFFLINE_THRESHOLD {
                return false;
            }
            j += 1;
        }
        true
    }
}

/// Offline accuracy: when the primary of a round fails to propose and the
/// threshold is reached, this node itself would report that validator.
pub proof fn lemma_offline_accuracy(
    pre: OfflineTracker,
    post: OfflineTracker,
    vs: Seq<AccountId>,
    i: int,
)
    requires
        0 <= i < vs.len(),
        OfflineTracker::note_round_end_rel(pre, post, vs[i]@, false),
    ensures
        post.spec_would_report(vs, i),
{
}

/// Offline reset: a proposed round zeroes the primary's counter, so the
/// primary is no longer reportable.
pub proof fn lemma_offline_reset(
    pre: OfflineTracker,
    post: OfflineTracker,
    vs: Seq<AccountId>,
    i: int,
)
    requires
        0 <= i < vs.len(),
        OfflineTracker::note_round_end_rel(pre, post, vs[i]@, true),
    ensures
        !post.spec_would_report(vs, i),
        post.spec_count(vs[i]@) == 0,
{
}

} // verus!
