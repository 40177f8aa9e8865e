//! Support for a step request.
//!
//! A step request executes auction code at an era's end: it slashes
//! validators, evicts validators and distributes rewards.  The library only
//! carries the request's data; the engine that runs it lives elsewhere.

use vstd::prelude::*;

use crate::ids::TrieHash;
use crate::sets::unique_seq;

verus! {

broadcast use vstd::seq_lib::group_seq_properties;

/// A validator's 256-bit public key, as four 64-bit words.
#[derive(Clone, Copy, PartialEq, Eq, Structural, Hash, Debug)]
pub struct PublicKey {
    pub w0: u64,
    pub w1: u64,
    pub w2: u64,
    pub w3: u64,
}

/// A protocol version triple.
#[derive(Clone, Copy, PartialEq, Eq, Structural, Debug)]
pub struct ProtocolVersion {
    pub major: u32,
    pub minor: u32,
    pub patch: u32,
}

/// A definition of a slash item.
#[derive(Clone, Copy, PartialEq, Eq, Structural, Debug)]
pub struct SlashItem {
    /// Validator's public key that will be slashed.
    pub validator_id: PublicKey,
}

impl SlashItem {
    /// Creates a new slash item.
    pub fn new(validator_id: PublicKey) -> (r: Self)
        ensures
            r == (SlashItem { validator_id }),
    {
        SlashItem { validator_id }
    }
}

/// A definition of a reward item.
#[derive(Clone, Copy, PartialEq, Eq, Structural, Debug)]
pub struct RewardItem {
    /// Validator's public key that will be rewarded.
    pub validator_id: PublicKey,
    /// Amount of motes that will be rewarded.
    pub value: u64,
}

impl RewardItem {
    /// Creates a new reward item.
    pub fn new(validator_id: PublicKey, value: u64) -> (r: Self)
        ensures
            r == (RewardItem { validator_id, value }),
    {
        RewardItem { validator_id, value }
    }
}

/// A definition of an evict item.
#[derive(Clone, Copy, PartialEq, Eq, Structural, Debug)]
pub struct EvictItem {
    /// Validator's public key that will be evicted.
    pub validator_id: PublicKey,
}

impl EvictItem {
    /// Creates a new evict item.
    pub fn new(validator_id: PublicKey) -> (r: Self)
        ensures
            r == (EvictItem { validator_id }),
    {
        EvictItem { validator_id }
    }
}

/// Representation of a step request.
#[derive(PartialEq, Eq, Debug, Clone)]
pub struct StepRequest {
    /// State root hash.
    pub pre_state_hash: TrieHash,
    /// Protocol version for this request.
    pub protocol_version: ProtocolVersion,
    /// List of validators to be slashed.
    pub slash_items: Vec<SlashItem>,
    /// List of validators that will be rewarded.
    pub reward_items: Vec<RewardItem>,
    /// List of validators to be evicted.
    pub evict_items: Vec<EvictItem>,
    /// If true an auction contract will be executed to compute new era
    /// validators.
    pub run_auction: bool,
    /// Specifies which era validators will be returned based on
    /// `next_era_id`.
    pub next_era_id: u64,
    /// Timestamp in milliseconds representing end of the current era.
    pub era_end_timestamp_millis: u64,
}

/// The reward factors of `items` folded in order: a later item for the same
/// validator overwrites the earlier one, and first occurrences keep their
/// order.
pub open spec fn reward_factors_spec(items: Seq<RewardItem>) -> Seq<(PublicKey, u64)>
    decreases items.len(),
{
    if items.len() == 0 {
        Seq::empty()
    } else {
        let prev = reward_factors_spec(items.drop_last());
        let item = items.last();
        if exists|i: int| 0 <= i < prev.len() && (#[trigger] prev[i]).0 == item.validator_id {
            let i = choose|i: int|
                0 <= i < prev.len() && (#[trigger] prev[i]).0 == item.validator_id;
            prev.update(i, (item.validator_id, item.value))
        } else {
            prev.push((item.validator_id, item.value))
        }
    }
}

impl StepRequest {
    /// Creates a new step request.
    pub fn new(
        pre_state_hash: TrieHash,
        protocol_version: ProtocolVersion,
        slash_items: Vec<SlashItem>,
        reward_items: Vec<RewardItem>,
        evict_items: Vec<EvictItem>,
        run_auction: bool,
        next_era_id: u64,
        era_end_timestamp_millis: u64,
    ) -> (r: Self)
        ensures
            r.pre_state_hash == pre_state_hash,
            r.protocol_version == protocol_version,
            r.slash_items == slash_items,
            r.reward_items == reward_items,
            r.evict_items == evict_items,
            r.run_auction == run_auction,
            r.next_era_id == next_era_id,
            r.era_end_timestamp_millis == era_end_timestamp_millis,
    {
        StepRequest {
            pre_state_hash,
            protocol_version,
            slash_items,
            reward_items,
            evict_items,
            run_auction,
            next_era_id,
            era_end_timestamp_millis,
        }
    }

    /// Returns the list of slashed validators, in request order.
    pub fn slashed_validators(&self) -> (r: Vec<PublicKey>)
        ensures
            r@.len() == self.slash_items@.len(),
            forall|i: int|
                0 <= i < r@.len() ==> r@[i] == (#[trigger] self.slash_items@[i]).validator_id,
    {
        let mut r: Vec<PublicKey> = Vec::new();
        let mut i: usize = 0;
        while i < self.slash_items.len()
            invariant
                i <= self.slash_items@.len(),
                r@.len() == i,
                forall|k: int|
                    0 <= k < i ==> r@[k] == (#[trigger] self.slash_items@[k]).validator_id,
            decreases self.slash_items@.len() - i,
        {
            r.push(self.slash_items[i].validator_id);
            i += 1;
        }
        r
    }

    /// Returns all reward factors, keyed by validator: a later item for the
    /// same validator overwrites the earlier one.
    pub fn reward_factors(&self) -> (r: Vec<(PublicKey, u64)>)
        ensures
            r@ == reward_factors_spec(self.reward_items@),
            unique_seq(r@.map_values(|p: (PublicKey, u64)| p.0)),
    {
        proof {
            lemma_reward_factors_unique(self.reward_items@);
        }
        let mut r: Vec<(PublicKey, u64)> = Vec::new();
        let mut i: usize = 0;
        while i < self.reward_items.len()
            invariant
                i <= self.reward_items@.len(),
                r@ == reward_factors_spec(self.reward_items@.take(i as int)),
            decreases self.reward_items@.len() - i,
        {
            let ghost prev = r@;
            let item = self.reward_items[i];
            proof {
                assert(self.reward_items@.take(i as int + 1).drop_last()
                    =~= self.reward_items@.take(i as int));
                assert(self.reward_items@.take(i as int + 1).last() == item);
            }
            let mut k: usize = 0;
            let mut found = false;
            while k < r.len() && !found
                invariant
                    k <= r@.len(),
                    r@ == prev,
                    !found ==> forall|p: int| 0 <= p < k ==> (#[trigger] r@[p]).0 != item.validator_id,
                    found ==> k < r@.len() && r@[k as int].0 == item.validator_id,
                decreases r@.len() - k + (if found {
                    0int
                } else {
                    1int
                }),
            {
                if r[k].0 == item.validator_id {
                    found = true;
                } else {
                    k += 1;
                }
            }
            if found {
                r[k] = (item.validator_id, item.value);
                proof {
                    let j = choose|j: int|
                        0 <= j < prev.len() && (#[trigger] prev[j]).0 == item.validator_id;
                    assert(exists|j: int|
                        0 <= j < prev.len() && (#[trigger] prev[j]).0 == item.validator_id);
                    lemma_reward_factors_unique(self.reward_items@.take(i as int));
                    assert(j == k as int) by {
                        let keys = prev.map_values(|p: (PublicKey, u64)| p.0);
                        assert(keys[j] == item.validator_id && keys[k as int]
                            == item.validator_id);
                        if j < k as int {
                            assert(keys[j] != keys[k as int]);
                        } else if j > k as int {
                            assert(keys[k as int] != keys[j]);
                        }
                    }
                }
            } else {
                r.push((item.validator_id, item.value));
                proof {
                    assert(!exists|j: int|
                        0 <= j < prev.len() && (#[trigger] prev[j]).0 == item.validator_id) by {
                        if exists|j: int|
                            0 <= j < prev.len() && (#[trigger] prev[j]).0 == item.validator_id {
                            let j = choose|j: int|
                                0 <= j < prev.len() && (#[trigger] prev[j]).0
                                    == item.validator_id;
                        }
                    }
                }
            }
            i += 1;
        }
        proof {
            assert(self.reward_items@.take(self.reward_items@.len() as int)
                =~= self.reward_items@);
        }
        r
    }
}

/// The folded reward factors never hold one validator twice.
pub proof fn lemma_reward_factors_unique(items: Seq<RewardItem>)
    ensures
        unique_seq(reward_factors_spec(items).map_values(|p: (PublicKey, u64)| p.0)),
    decreases items.len(),
{
    if items.len() > 0 {
        lemma_reward_factors_unique(items.drop_last());
        let prev = reward_factors_spec(items.drop_last());
        let item = items.last();
        let cur = reward_factors_spec(items);
        let prev_keys = prev.map_values(|p: (PublicKey, u64)| p.0);
        let cur_keys = cur.map_values(|p: (PublicKey, u64)| p.0);
        if exists|i: int| 0 <= i < prev.len() && (#[trigger] prev[i]).0 == item.validator_id {
            let i = choose|i: int|
                0 <= i < prev.len() && (#[trigger] prev[i]).0 == item.validator_id;
            assert forall|p: int, q: int|
                0 <= p < q < cur_keys.len() implies cur_keys[p] != cur_keys[q] by {
                if p == i {
                    assert(cur_keys[q] == prev_keys[q]);
                    assert(prev_keys[i] == item.validator_id);
                    assert(prev_keys[q] != prev_keys[i]);
                } else if q == i {
                    assert(cur_keys[p] == prev_keys[p]);
                    assert(prev_keys[i] == item.validator_id);
                    assert(prev_keys[p] != prev_keys[i]);
                } else {
                    assert(cur_keys[p] == prev_keys[p] && cur_keys[q] == prev_keys[q]);
                }
            }
        } else {
            assert forall|p: int, q: int|
                0 <= p < q < cur_keys.len() implies cur_keys[p] != cur_keys[q] by {
                if q == prev.len() {
                    assert(cur_keys[p] == prev_keys[p]);
                    assert(cur_keys[q] == item.validator_id);
                } else {
                    assert(cur_keys[p] == prev_keys[p] && cur_keys[q] == prev_keys[q]);
                }
            }
        }
    }
}

} // verus!
