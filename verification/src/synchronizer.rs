//! The global state synchronizer.
//!
//! Per caller request the synchronizer keeps the frontier of known-missing
//! descendant hashes, schedules accumulator fetches within a global
//! parallelism bound, feeds fetched nodes to the store, ingests the
//! missing-descendant set each insertion exposes, and resolves the request
//! when the frontier empties.  It is a pure state machine: every handler
//! returns the effects the surrounding runtime must carry out, and each
//! handler's contract equates it with a specification-level transition
//! function on the state's view.
//!
//! Completion is addressed by [`BlockKey`]: a `Complete` effect stands for
//! firing the one-shot callback registered for that key.  Submitting a second
//! request under an already-active key merges the new peers into the existing
//! request and registers no second callback; the single completion per key
//! serves the caller.
//!
//! The scheduler enforces the parallelism bound globally: the headroom of a
//! pass is the bound minus everything in flight across all requests.
//! Dispatch walks the requests in registration order and lets each take
//! whatever headroom remains when its turn comes, so earlier requests are
//! served first while headroom is scarce; a request wanting a hash that is
//! already being fetched needs no headroom of its own — the one fetch
//! serves every request that references the hash when it lands.

use vstd::prelude::*;

use crate::accumulator::{TrieAccumulator, TrieAccumulatorEffect, TrieAccumulatorEvent};
use crate::errors::{StoreError, SyncError, TrieAccumulatorError};
use crate::ids::{BlockKey, PeerId, TrieBytes, TrieHash};
use crate::sets::{dedup_append, seq_remove, unique_seq, DigestSet, PeerSet};

verus! {

broadcast use vstd::seq_lib::group_seq_properties;

// ---------------------------------------------------------------------------
// Events and effects
// ---------------------------------------------------------------------------

/// One inbound sync request: bring the trie rooted at `state_root_hash`
/// local, pulling from `peers`, and report completion under `block_key`.
pub struct SyncRequest {
    pub block_key: BlockKey,
    pub state_root_hash: TrieHash,
    pub peers: Vec<PeerId>,
}

/// The events the synchronizer reacts to.
pub enum Event {
    /// A new (or repeated) caller request.
    Request(SyncRequest),
    /// The accumulator delivered the outcome of one fetch.
    FetchedTrie { trie_hash: TrieHash, trie_accumulator_result: Result<
        TrieBytes,
        TrieAccumulatorError,
    > },
    /// The store reported the outcome of one insertion.
    PutTrieResult { trie_hash: TrieHash, put_trie_result: Result<Vec<TrieHash>, StoreError> },
    /// An event addressed to the embedded accumulator; forwarded unchanged.
    TrieAccumulatorEvent(TrieAccumulatorEvent),
}

/// The effects a handler asks the runtime to carry out.
#[derive(PartialEq, Eq, Debug)]
pub enum SyncEffect {
    /// Ask the accumulator for the node named by `trie_hash`.
    FetchTrie { trie_hash: TrieHash, peers: Vec<PeerId> },
    /// Hand fetched node bytes to the store adapter.
    PutTrie { trie_hash: TrieHash, trie_bytes: TrieBytes },
    /// Fire the completion callback registered under `block_key`.
    Complete { block_key: BlockKey, result: Result<(), SyncError> },
    /// An effect of the embedded accumulator (network requests, deliveries,
    /// peer blame announcements).
    TrieAccumulator(TrieAccumulatorEffect),
}

/// Specification-level form of one effect.
#[verifier::ext_equal]
pub enum EffectView {
    FetchTrie { trie_hash: TrieHash, peers: Seq<PeerId> },
    PutTrie { trie_hash: TrieHash, trie_bytes: Seq<u8> },
    Complete { block_key: BlockKey, result: Result<(), SyncError> },
    TrieAccumulator(TrieAccumulatorEffect),
}

impl View for SyncEffect {
    type V = EffectView;

    open spec fn view(&self) -> EffectView {
        match self {
            SyncEffect::FetchTrie { trie_hash, peers } => EffectView::FetchTrie {
                trie_hash: *trie_hash,
                peers: peers@,
            },
            SyncEffect::PutTrie { trie_hash, trie_bytes } => EffectView::PutTrie {
                trie_hash: *trie_hash,
                trie_bytes: trie_bytes@,
            },
            SyncEffect::Complete { block_key, result } => EffectView::Complete {
                block_key: *block_key,
                result: *result,
            },
            SyncEffect::TrieAccumulator(e) => EffectView::TrieAccumulator(*e),
        }
    }
}

/// The views of a vector of effects, in order.
pub open spec fn effects_view(effects: Seq<SyncEffect>) -> Seq<EffectView> {
    effects.map_values(|e: SyncEffect| e@)
}

/// The accumulator effect inside a wrapped synchronizer effect.  On the
/// forwarding path every effect is wrapped, so the fallback arm never names
/// a value anyone relies on.
pub open spec fn unwrap_acc_effect(e: SyncEffect) -> TrieAccumulatorEffect {
    match e {
        SyncEffect::TrieAccumulator(inner) => inner,
        _ => TrieAccumulatorEffect::RequestNode {
            trie_hash: TrieHash { w0: 0, w1: 0, w2: 0, w3: 0 },
            peer: PeerId { id: 0 },
        },
    }
}

/// The accumulator effects inside a batch of wrapped effects, in order.
pub open spec fn unwrap_acc_effects(effs: Seq<SyncEffect>) -> Seq<TrieAccumulatorEffect> {
    effs.map_values(|e: SyncEffect| unwrap_acc_effect(e))
}

// ---------------------------------------------------------------------------
// Request state
// ---------------------------------------------------------------------------

/// Specification-level form of one request's state.
#[verifier::ext_equal]
pub struct ReqView {
    pub missing: Seq<TrieHash>,
    pub in_flight: Seq<TrieHash>,
    pub peers: Seq<PeerId>,
}

/// The bookkeeping for one outstanding request.
pub struct RequestState {
    missing_descendants: DigestSet,
    in_flight: DigestSet,
    peers: PeerSet,
}

impl View for RequestState {
    type V = ReqView;

    closed spec fn view(&self) -> ReqView {
        ReqView {
            missing: self.missing_descendants@,
            in_flight: self.in_flight@,
            peers: self.peers@,
        }
    }
}

/// Well-formedness of one request: duplicate-free sets, and a frontier
/// disjoint from the fetches in flight.
pub open spec fn req_wf(r: ReqView) -> bool {
    &&& unique_seq(r.missing)
    &&& unique_seq(r.in_flight)
    &&& unique_seq(r.peers)
    &&& forall|h: TrieHash| r.missing.contains(h) ==> !r.in_flight.contains(h)
}

/// `true` when the request is settled: nothing missing, nothing in flight.
pub open spec fn spec_settled(r: ReqView) -> bool {
    r.missing.len() == 0 && r.in_flight.len() == 0
}

/// `true` when `h` is a missing descendant of, or in flight for, `r`.
pub open spec fn spec_is_relevant(r: ReqView, h: TrieHash) -> bool {
    r.in_flight.contains(h) || r.missing.contains(h)
}

impl RequestState {
    /// A fresh request: the frontier is exactly the root, nothing in flight.
    pub fn new(request: SyncRequest) -> (r: Self)
        ensures
            r@.missing == seq![request.state_root_hash],
            r@.in_flight == Seq::<TrieHash>::empty(),
            r@.peers == dedup_append(Seq::<PeerId>::empty(), request.peers@),
            req_wf(r@),
    {
        let mut missing_descendants_for_current_block = DigestSet::new();
        missing_descendants_for_current_block.insert(request.state_root_hash);
        let mut peers = PeerSet::new();
        peers.insert_all(&request.peers);
        proof {
            crate::sets::lemma_dedup_append_unique(Seq::<PeerId>::empty(), request.peers@);
            assert(Seq::<TrieHash>::empty().push(request.state_root_hash) =~= seq![
                request.state_root_hash,
            ]);
        }
        RequestState { missing_descendants: missing_descendants_for_current_block, in_flight: DigestSet::new(), peers }
    }

    /// Enqueues every descendant not already in flight for this request.
    pub fn add_missing_descendants(&mut self, missing_descendants: &Vec<TrieHash>)
        requires
            req_wf(old(self)@),
        ensures
            req_wf(final(self)@),
            final(self)@.missing == dedup_append(
                old(self)@.missing,
                keep_not_in(missing_descendants@, old(self)@.in_flight),
            ),
            final(self)@.in_flight == old(self)@.in_flight,
            final(self)@.peers == old(self)@.peers,
    {
        let ghost m0 = self.missing_descendants@;
        let ghost infl = self.in_flight@;
        let mut k: usize = 0;
        while k < missing_descendants.len()
            invariant
                k <= missing_descendants.len(),
                self.in_flight@ == infl,
                self.peers@ == old(self).peers@,
                self.missing_descendants.wf(),
                self.missing_descendants@ == dedup_append(
                    m0,
                    keep_not_in(missing_descendants@.take(k as int), infl),
                ),
            decreases missing_descendants.len() - k,
        {
            let c = missing_descendants[k];
            proof {
                let kept = keep_not_in(missing_descendants@.take(k as int), infl);
                assert(missing_descendants@.take(k as int + 1).drop_last() =~= missing_descendants@
                    .take(k as int));
                assert(missing_descendants@.take(k as int + 1).last() == c);
                if infl.contains(c) {
                    assert(keep_not_in(missing_descendants@.take(k as int + 1), infl) == kept);
                } else {
                    assert((kept.push(c)).drop_last() =~= kept);
                    assert(keep_not_in(missing_descendants@.take(k as int + 1), infl) == kept.push(
                        c,
                    ));
                    assert(dedup_append(m0, kept.push(c)) == (if dedup_append(m0, kept).contains(c) {
                        dedup_append(m0, kept)
                    } else {
                        dedup_append(m0, kept).push(c)
                    }));
                }
            }
            if !self.in_flight.contains(&c) {
                self.missing_descendants.insert(c);
            }
            k += 1;
        }
        proof {
            assert(missing_descendants@.take(missing_descendants@.len() as int)
                =~= missing_descendants@);
            lemma_keep_not_in_membership(missing_descendants@, infl);
            crate::sets::lemma_dedup_append_membership(
                m0,
                keep_not_in(missing_descendants@, infl),
            );
            crate::sets::lemma_dedup_append_unique(m0, keep_not_in(missing_descendants@, infl));
        }
    }

    /// Returns `true` if the given hash is known to be a missing descendant or
    /// an in-flight fetch for this state.
    pub fn is_relevant(&self, trie_hash: &TrieHash) -> (b: bool)
        ensures
            b == spec_is_relevant(self@, *trie_hash),
    {
        self.in_flight.contains(trie_hash) || self.missing_descendants.contains(trie_hash)
    }
}

/// The elements of `cs`, in order, that do not occur in `excl`.
pub open spec fn keep_not_in(cs: Seq<TrieHash>, excl: Seq<TrieHash>) -> Seq<TrieHash>
    decreases cs.len(),
{
    if cs.len() == 0 {
        Seq::empty()
    } else {
        let prev = keep_not_in(cs.drop_last(), excl);
        if excl.contains(cs.last()) {
            prev
        } else {
            prev.push(cs.last())
        }
    }
}

// ---------------------------------------------------------------------------
// Specification model
// ---------------------------------------------------------------------------

/// Specification-level form of the synchronizer state.
#[verifier::ext_equal]
pub struct SyncView {
    pub max_parallel: int,
    pub requests: Seq<(BlockKey, ReqView)>,
}

/// The block keys of the outstanding requests, in registration order.
pub open spec fn req_keys(reqs: Seq<(BlockKey, ReqView)>) -> Seq<BlockKey> {
    reqs.map_values(|p: (BlockKey, ReqView)| p.0)
}

/// `true` when a request is registered under `k`.
pub open spec fn has_key(reqs: Seq<(BlockKey, ReqView)>, k: BlockKey) -> bool {
    req_keys(reqs).contains(k)
}

/// The position of the request registered under `k`.
pub open spec fn key_index(reqs: Seq<(BlockKey, ReqView)>, k: BlockKey) -> int {
    req_keys(reqs).index_of(k)
}

/// The number of fetches in flight, summed from request `i` on.  A hash never
/// sits in two requests' in-flight sets at once, so this sum is the count of
/// distinct hashes being fetched.
pub open spec fn total_in_flight_from(reqs: Seq<(BlockKey, ReqView)>, i: int) -> int
    decreases reqs.len() - i,
{
    if i < 0 || i >= reqs.len() {
        0
    } else {
        reqs[i].1.in_flight.len() + total_in_flight_from(reqs, i + 1)
    }
}

/// The number of fetches in flight across all requests.
pub open spec fn total_in_flight(reqs: Seq<(BlockKey, ReqView)>) -> int {
    total_in_flight_from(reqs, 0)
}

/// `true` when some request already has `h` in flight.
pub open spec fn spec_globally_in_flight(reqs: Seq<(BlockKey, ReqView)>, h: TrieHash) -> bool {
    exists|i: int| 0 <= i < reqs.len() && (#[trigger] reqs[i].1).in_flight.contains(h)
}

/// The union, from request `i` on, of the peers of every request whose
/// frontier wants `h`, appended to `acc` without duplicates.
pub open spec fn spec_peers_for_from(
    reqs: Seq<(BlockKey, ReqView)>,
    h: TrieHash,
    i: int,
    acc: Seq<PeerId>,
) -> Seq<PeerId>
    decreases reqs.len() - i,
{
    if i < 0 || i >= reqs.len() {
        acc
    } else {
        let acc2 = if reqs[i].1.missing.contains(h) {
            dedup_append(acc, reqs[i].1.peers)
        } else {
            acc
        };
        spec_peers_for_from(reqs, h, i + 1, acc2)
    }
}

/// The keys, from request `i` on, of the requests that reference `h`.
pub open spec fn spec_affected_from(reqs: Seq<(BlockKey, ReqView)>, h: TrieHash, i: int) -> Seq<
    BlockKey,
>
    decreases reqs.len() - i,
{
    if i < 0 || i >= reqs.len() {
        Seq::empty()
    } else {
        let rest = spec_affected_from(reqs, h, i + 1);
        if spec_is_relevant(reqs[i].1, h) {
            seq![reqs[i].0] + rest
        } else {
            rest
        }
    }
}

/// The keys, from request `i` on, of the settled requests.
pub open spec fn spec_finished_from(reqs: Seq<(BlockKey, ReqView)>, i: int) -> Seq<BlockKey>
    decreases reqs.len() - i,
{
    if i < 0 || i >= reqs.len() {
        Seq::empty()
    } else {
        let rest = spec_finished_from(reqs, i + 1);
        if spec_settled(reqs[i].1) {
            seq![reqs[i].0] + rest
        } else {
            rest
        }
    }
}

/// Registering a request: a new key opens a fresh request whose frontier is
/// exactly the root; a known key only widens the existing request's peers.
pub open spec fn spec_submit(
    reqs: Seq<(BlockKey, ReqView)>,
    k: BlockKey,
    root: TrieHash,
    new_peers: Seq<PeerId>,
) -> Seq<(BlockKey, ReqView)> {
    if has_key(reqs, k) {
        let i = key_index(reqs, k);
        let r = reqs[i].1;
        reqs.update(
            i,
            (
                k,
                ReqView {
                    missing: r.missing,
                    in_flight: r.in_flight,
                    peers: dedup_append(r.peers, new_peers),
                },
            ),
        )
    } else {
        reqs.push(
            (
                k,
                ReqView {
                    missing: seq![root],
                    in_flight: Seq::empty(),
                    peers: dedup_append(Seq::empty(), new_peers),
                },
            ),
        )
    }
}

/// Dropping the request registered under `k`, if any.
pub open spec fn spec_remove_key(reqs: Seq<(BlockKey, ReqView)>, k: BlockKey) -> Seq<
    (BlockKey, ReqView),
> {
    if has_key(reqs, k) {
        reqs.remove(key_index(reqs, k))
    } else {
        reqs
    }
}

/// The scheduler's picks for one request: walk its frontier from position
/// `j`, and, while budget remains, move each hash that no request is already
/// fetching into the in-flight set, with a fetch effect carrying the peer
/// union of every request that wants the hash.  `reqs` is the whole state
/// with entry `i` replaced by the evolving `r`.
pub open spec fn spec_dispatch_req(
    reqs: Seq<(BlockKey, ReqView)>,
    i: int,
    r: ReqView,
    j: int,
    budget: int,
) -> (ReqView, Seq<EffectView>, int)
    decreases r.missing.len() - j,
{
    if budget <= 0 || j < 0 || j >= r.missing.len() || i < 0 || i >= reqs.len() {
        (r, Seq::empty(), budget)
    } else {
        let h = r.missing[j];
        let cur = reqs.update(i, (reqs[i].0, r));
        if spec_globally_in_flight(cur, h) {
            spec_dispatch_req(reqs, i, r, j + 1, budget)
        } else {
            let peers = spec_peers_for_from(cur, h, 0, Seq::empty());
            let r2 = ReqView {
                missing: r.missing.remove(j),
                in_flight: r.in_flight.push(h),
                peers: r.peers,
            };
            let rec = spec_dispatch_req(reqs, i, r2, j, budget - 1);
            (rec.0, seq![EffectView::FetchTrie { trie_hash: h, peers }] + rec.1, rec.2)
        }
    }
}

/// The scheduler's dispatch pass over every request from position `i` on.
pub open spec fn spec_dispatch_all(reqs: Seq<(BlockKey, ReqView)>, i: int, budget: int) -> (
    Seq<(BlockKey, ReqView)>,
    Seq<EffectView>,
    int,
)
    decreases reqs.len() - i,
{
    if i < 0 || i >= reqs.len() {
        (reqs, Seq::empty(), budget)
    } else {
        let one = spec_dispatch_req(reqs, i, reqs[i].1, 0, budget);
        let reqs2 = reqs.update(i, (reqs[i].0, one.0));
        let rest = spec_dispatch_all(reqs2, i + 1, one.2);
        (rest.0, one.1 + rest.1, rest.2)
    }
}

/// Completing the requests named by `keys`, from position `i` on: each
/// registered key is dropped and its callback fired with `outcome`.
pub open spec fn spec_complete_list(
    reqs: Seq<(BlockKey, ReqView)>,
    keys: Seq<BlockKey>,
    i: int,
    outcome: Result<(), SyncError>,
) -> (Seq<(BlockKey, ReqView)>, Seq<EffectView>)
    decreases keys.len() - i,
{
    if i < 0 || i >= keys.len() {
        (reqs, Seq::empty())
    } else {
        let k = keys[i];
        let step: (Seq<(BlockKey, ReqView)>, Seq<EffectView>) = if has_key(reqs, k) {
            (
                spec_remove_key(reqs, k),
                seq![EffectView::Complete { block_key: k, result: outcome }],
            )
        } else {
            (reqs, Seq::empty())
        };
        let rest = spec_complete_list(step.0, keys, i + 1, outcome);
        (rest.0, step.1 + rest.1)
    }
}

/// The scheduler: settled requests are collected, the dispatch pass issues
/// new fetches within the global headroom, and the settled requests complete
/// successfully and leave.
pub open spec fn spec_parallel_fetch(s: SyncView) -> (SyncView, Seq<EffectView>) {
    let budget = if total_in_flight(s.requests) <= s.max_parallel {
        s.max_parallel - total_in_flight(s.requests)
    } else {
        0
    };
    let fin = spec_finished_from(s.requests, 0);
    let dispatched = spec_dispatch_all(s.requests, 0, budget);
    let completed = spec_complete_list(dispatched.0, fin, 0, Ok(()));
    (SyncView { max_parallel: s.max_parallel, requests: completed.0 }, dispatched.1 + completed.1)
}

/// One request's view after the store ingested the node named `h` and
/// reported `children` missing: the new children join the frontier unless
/// already in flight, and `h` leaves both sets.
pub open spec fn spec_apply_insert(r: ReqView, h: TrieHash, children: Seq<TrieHash>) -> ReqView {
    ReqView {
        missing: seq_remove(dedup_append(r.missing, keep_not_in(children, r.in_flight)), h),
        in_flight: seq_remove(r.in_flight, h),
        peers: r.peers,
    }
}

/// Applies [`spec_apply_insert`] to every request named by `keys`.
pub open spec fn spec_apply_list(
    reqs: Seq<(BlockKey, ReqView)>,
    keys: Seq<BlockKey>,
    i: int,
    h: TrieHash,
    children: Seq<TrieHash>,
) -> Seq<(BlockKey, ReqView)>
    decreases keys.len() - i,
{
    if i < 0 || i >= keys.len() {
        reqs
    } else {
        let k = keys[i];
        let reqs1 = if has_key(reqs, k) {
            let ix = key_index(reqs, k);
            reqs.update(ix, (k, spec_apply_insert(reqs[ix].1, h, children)))
        } else {
            reqs
        };
        spec_apply_list(reqs1, keys, i + 1, h, children)
    }
}

/// Handling a caller request: register it, then run the scheduler.
pub open spec fn spec_handle_request(
    s: SyncView,
    k: BlockKey,
    root: TrieHash,
    new_peers: Seq<PeerId>,
) -> (SyncView, Seq<EffectView>) {
    spec_parallel_fetch(
        SyncView { max_parallel: s.max_parallel, requests: spec_submit(s.requests, k, root, new_peers) },
    )
}

/// Handling a fetched node: sound bytes go to the store; a fetch error fails
/// exactly the requests that reference the hash, and no others, and the
/// scheduler then runs for the survivors, whose headroom the failed
/// requests' fetches may have been holding.
pub open spec fn spec_handle_fetched(
    s: SyncView,
    h: TrieHash,
    result: Result<TrieBytes, TrieAccumulatorError>,
) -> (SyncView, Seq<EffectView>) {
    match result {
        Ok(bytes) => (s, seq![EffectView::PutTrie { trie_hash: h, trie_bytes: bytes@ }]),
        Err(e) => {
            let aff = spec_affected_from(s.requests, h, 0);
            let cancelled = spec_complete_list(
                s.requests,
                aff,
                0,
                Err(SyncError::TrieAccumulator(e)),
            );
            let scheduled = spec_parallel_fetch(
                SyncView { max_parallel: s.max_parallel, requests: cancelled.0 },
            );
            (scheduled.0, cancelled.1 + scheduled.1)
        },
    }
}

/// Handling a store result: success updates every request that references
/// the hash and runs the scheduler; a store error fails exactly those
/// requests, and the scheduler still runs for the others.
pub open spec fn spec_handle_put_trie(
    s: SyncView,
    h: TrieHash,
    result: Result<Vec<TrieHash>, StoreError>,
) -> (SyncView, Seq<EffectView>) {
    let aff = spec_affected_from(s.requests, h, 0);
    match result {
        Ok(children) => {
            let reqs1 = spec_apply_list(s.requests, aff, 0, h, children@);
            spec_parallel_fetch(SyncView { max_parallel: s.max_parallel, requests: reqs1 })
        },
        Err(e) => {
            let cancelled = spec_complete_list(s.requests, aff, 0, Err(SyncError::PutTrie(e)));
            let scheduled = spec_parallel_fetch(
                SyncView { max_parallel: s.max_parallel, requests: cancelled.0 },
            );
            (scheduled.0, cancelled.1 + scheduled.1)
        },
    }
}

/// Well-formedness of the whole synchronizer state: one request per key,
/// every request well formed, no hash in flight for two requests at once,
/// and the global parallelism bound respected.
pub open spec fn sync_wf(s: SyncView) -> bool {
    &&& s.max_parallel >= 1
    &&& unique_seq(req_keys(s.requests))
    &&& forall|i: int| 0 <= i < s.requests.len() ==> req_wf((#[trigger] s.requests[i]).1)
    &&& forall|i: int, j: int, h: TrieHash|
        0 <= i < s.requests.len() && 0 <= j < s.requests.len() && i != j && (#[trigger] s.requests[i].1.in_flight.contains(
            h,
        )) ==> !(#[trigger] s.requests[j].1.in_flight.contains(h))
    &&& total_in_flight(s.requests) <= s.max_parallel
}

// ---------------------------------------------------------------------------
// Lemmas about the specification model
// ---------------------------------------------------------------------------

/// The in-flight total is a sum of lengths, hence never negative.
pub proof fn lemma_total_nonneg(reqs: Seq<(BlockKey, ReqView)>, i: int)
    ensures
        total_in_flight_from(reqs, i) >= 0,
    decreases reqs.len() - i,
{
    if 0 <= i && i < reqs.len() {
        lemma_total_nonneg(reqs, i + 1);
    }
}

/// Replacing entry `i` shifts the in-flight total by that entry's change.
pub proof fn lemma_total_update(
    reqs: Seq<(BlockKey, ReqView)>,
    j: int,
    i: int,
    e: (BlockKey, ReqView),
)
    requires
        0 <= i < reqs.len(),
        0 <= j,
    ensures
        total_in_flight_from(reqs.update(i, e), j) == total_in_flight_from(reqs, j) + (if j <= i {
            e.1.in_flight.len() - reqs[i].1.in_flight.len()
        } else {
            0
        }),
    decreases reqs.len() - j,
{
    if j < reqs.len() {
        lemma_total_update(reqs, j + 1, i, e);
    }
}

/// Dropping entry `i` lowers the in-flight total by that entry's share.
pub proof fn lemma_total_remove(reqs: Seq<(BlockKey, ReqView)>, j: int, i: int)
    requires
        0 <= i < reqs.len(),
        0 <= j,
    ensures
        total_in_flight_from(reqs.remove(i), j) == (if j <= i {
            total_in_flight_from(reqs, j) - reqs[i].1.in_flight.len()
        } else {
            total_in_flight_from(reqs, j + 1)
        }),
    decreases reqs.len() - j,
{
    let small = reqs.remove(i);
    if j >= reqs.len() - 1 {
        assert(total_in_flight_from(small, j) == 0);
        if j <= i {
            assert(j == i && i == reqs.len() - 1);
            assert(total_in_flight_from(reqs, j) == reqs[j].1.in_flight.len()
                + total_in_flight_from(reqs, j + 1));
            assert(total_in_flight_from(reqs, j + 1) == 0);
        } else {
            assert(total_in_flight_from(reqs, j + 1) == 0);
        }
    } else {
        lemma_total_remove(reqs, j + 1, i);
        if j < i {
            assert(small[j] == reqs[j]);
        } else if j == i {
            assert(small[j] == reqs[j + 1]);
            assert(total_in_flight_from(reqs, j) == reqs[j].1.in_flight.len()
                + total_in_flight_from(reqs, j + 1));
            assert(total_in_flight_from(reqs, j + 1) == reqs[j + 1].1.in_flight.len()
                + total_in_flight_from(reqs, j + 2));
        } else {
            assert(small[j] == reqs[j + 1]);
            assert(total_in_flight_from(reqs, j + 1) == reqs[j + 1].1.in_flight.len()
                + total_in_flight_from(reqs, j + 2));
        }
    }
}

/// Appending an entry with nothing in flight keeps the total.
pub proof fn lemma_total_push_empty(reqs: Seq<(BlockKey, ReqView)>, j: int, e: (BlockKey, ReqView))
    requires
        e.1.in_flight.len() == 0,
        0 <= j,
    ensures
        total_in_flight_from(reqs.push(e), j) == total_in_flight_from(reqs, j),
    decreases reqs.len() - j,
{
    if j < reqs.len() {
        assert(reqs.push(e)[j] == reqs[j]);
        lemma_total_push_empty(reqs, j + 1, e);
    } else if j == reqs.len() {
        assert(reqs.push(e)[j] == e);
        assert(total_in_flight_from(reqs.push(e), j + 1) == 0);
        assert(total_in_flight_from(reqs, j) == 0);
    } else {
        assert(total_in_flight_from(reqs.push(e), j) == 0);
        assert(total_in_flight_from(reqs, j) == 0);
    }
}

/// What one dispatch pass over a single request does: the frontier only
/// shrinks into the in-flight set, each pick consumes one unit of budget and
/// emits one fetch for a hash nobody was fetching, and the picked hashes sit
/// at the end of the new in-flight set in emission order.
pub proof fn lemma_dispatch_req(
    reqs: Seq<(BlockKey, ReqView)>,
    i: int,
    r: ReqView,
    j: int,
    budget: int,
)
    requires
        0 <= i < reqs.len(),
        0 <= j,
        budget >= 0,
        req_wf(r),
    ensures
        ({
            let (r2, effs, b2) = spec_dispatch_req(reqs, i, r, j, budget);
            &&& req_wf(r2)
            &&& r2.peers == r.peers
            &&& 0 <= b2 <= budget
            &&& r2.in_flight.len() == r.in_flight.len() + (budget - b2)
            &&& r.in_flight.len() <= r2.in_flight.len()
            &&& (forall|k: int|
                0 <= k < r.in_flight.len() ==> r2.in_flight[k] == r.in_flight[k])
            &&& (forall|h: TrieHash|
                #[trigger] r2.in_flight.contains(h) ==> r.in_flight.contains(h)
                    || r.missing.contains(h))
            &&& (forall|h: TrieHash|
                #[trigger] r2.missing.contains(h) <==> r.missing.contains(h)
                    && !r2.in_flight.contains(h))
            &&& (forall|h: TrieHash|
                r2.in_flight.contains(h) && !r.in_flight.contains(h)
                    ==> !spec_globally_in_flight(reqs.update(i, (reqs[i].0, r)), h))
            &&& effs.len() == budget - b2
            &&& (forall|k: int|
                0 <= k < effs.len() ==> match #[trigger] effs[k] {
                    EffectView::FetchTrie { trie_hash, .. } => trie_hash == r2.in_flight[
                        r.in_flight.len() + k
                    ],
                    _ => false,
                })
        }),
    decreases r.missing.len() - j,
{
    let (r2, effs, b2) = spec_dispatch_req(reqs, i, r, j, budget);
    if budget <= 0 || j >= r.missing.len() {
        // base case: nothing changes
    } else {
        let h = r.missing[j];
        let cur = reqs.update(i, (reqs[i].0, r));
        assert(r.missing.contains(h));
        if spec_globally_in_flight(cur, h) {
            lemma_dispatch_req(reqs, i, r, j + 1, budget);
        } else {
            let rm = ReqView {
                missing: r.missing.remove(j),
                in_flight: r.in_flight.push(h),
                peers: r.peers,
            };
            // the evolved request is well formed
            assert(!r.in_flight.contains(h));
            assert(unique_seq(rm.in_flight)) by {
                assert forall|p: int, q: int|
                    0 <= p < q < rm.in_flight.len() implies rm.in_flight[p] != rm.in_flight[q] by {
                    if q == r.in_flight.len() {
                        assert(r.in_flight.contains(r.in_flight[p]));
                    }
                }
            }
            assert(unique_seq(rm.missing)) by {
                assert forall|p: int, q: int|
                    0 <= p < q < rm.missing.len() implies rm.missing[p] != rm.missing[q] by {
                    if p < j && q < j {
                    } else if p < j {
                        assert(r.missing[p] == rm.missing[p]);
                        assert(r.missing[q + 1] == rm.missing[q]);
                    } else {
                        assert(r.missing[p + 1] == rm.missing[p]);
                        assert(r.missing[q + 1] == rm.missing[q]);
                    }
                }
            }
            assert forall|x: TrieHash| #[trigger] rm.missing.contains(x) implies r.missing.contains(
                x,
            ) && x != h by {
                let p = choose|p: int| 0 <= p < rm.missing.len() && rm.missing[p] == x;
                if p < j {
                    assert(r.missing[p] == x);
                    if x == h {
                        assert(r.missing[p] == r.missing[j]);
                    }
                } else {
                    assert(r.missing[p + 1] == x);
                    if x == h {
                        assert(r.missing[p + 1] == r.missing[j]);
                    }
                }
            }
            assert forall|x: TrieHash|
                r.missing.contains(x) && x != h implies #[trigger] rm.missing.contains(x) by {
                let p = choose|p: int| 0 <= p < r.missing.len() && r.missing[p] == x;
                assert(p != j);
                if p < j {
                    assert(rm.missing[p] == x);
                } else {
                    assert(rm.missing[p - 1] == x);
                }
            }
            assert forall|x: TrieHash| #[trigger] rm.in_flight.contains(x) implies r.in_flight.contains(
                x,
            ) || x == h by {
                let p = choose|p: int| 0 <= p < rm.in_flight.len() && rm.in_flight[p] == x;
                if p < r.in_flight.len() {
                    assert(r.in_flight[p] == x);
                }
            }
            assert(rm.in_flight[r.in_flight.len() as int] == h);
            assert(rm.in_flight.contains(h));
            assert(req_wf(rm));
            lemma_dispatch_req(reqs, i, rm, j, budget - 1);
            let rec = spec_dispatch_req(reqs, i, rm, j, budget - 1);
            assert(r2 == rec.0 && b2 == rec.2);
            assert(effs == seq![
                EffectView::FetchTrie {
                    trie_hash: h,
                    peers: spec_peers_for_from(cur, h, 0, Seq::empty()),
                },
            ] + rec.1);
            // effect positions: the head names h, the tail follows the
            // recursive correspondence shifted by one
            assert(effs[0] matches EffectView::FetchTrie { trie_hash, .. } && trie_hash == h
                && r2.in_flight[r.in_flight.len() as int] == h) by {
                assert(rec.0.in_flight[r.in_flight.len() as int] == rm.in_flight[
                    r.in_flight.len() as int
                ]);
            }
            assert forall|k: int| 0 <= k < effs.len() implies match #[trigger] effs[k] {
                EffectView::FetchTrie { trie_hash, .. } => trie_hash == r2.in_flight[
                    r.in_flight.len() + k
                ],
                _ => false,
            } by {
                if k > 0 {
                    assert(effs[k] == rec.1[k - 1]);
                    assert(rm.in_flight.len() == r.in_flight.len() + 1);
                }
            }
            // membership clauses transfer through the middle state
            assert forall|x: TrieHash|
                r2.in_flight.contains(x) && !r.in_flight.contains(x)
                    implies !spec_globally_in_flight(cur, x) by {
                if x == h {
                } else {
                    assert(rm.in_flight.contains(x) ==> r.in_flight.contains(x) || x == h);
                    assert(!rm.in_flight.contains(x));
                    let mid = reqs.update(i, (reqs[i].0, rm));
                    assert(!spec_globally_in_flight(mid, x));
                    if spec_globally_in_flight(cur, x) {
                        let p = choose|p: int|
                            0 <= p < cur.len() && (#[trigger] cur[p].1).in_flight.contains(x);
                        if p == i {
                            assert(r.in_flight.contains(x));
                        } else {
                            assert(mid[p].1.in_flight.contains(x));
                        }
                    }
                }
            }
        }
    }
}

/// The hashes named by the fetch effects of a batch, in order.
pub open spec fn fetch_targets(effs: Seq<EffectView>) -> Seq<TrieHash>
    decreases effs.len(),
{
    if effs.len() == 0 {
        Seq::empty()
    } else {
        let rest = fetch_targets(effs.drop_last());
        match effs.last() {
            EffectView::FetchTrie { trie_hash, .. } => rest.push(trie_hash),
            _ => rest,
        }
    }
}

/// In a batch of fetch effects only, targets correspond to positions.
pub proof fn lemma_fetch_targets_all_fetch(effs: Seq<EffectView>)
    requires
        forall|k: int| 0 <= k < effs.len() ==> (#[trigger] effs[k]) matches EffectView::FetchTrie { .. },
    ensures
        fetch_targets(effs).len() == effs.len(),
        forall|k: int|
            0 <= k < effs.len() ==> match #[trigger] effs[k] {
                EffectView::FetchTrie { trie_hash, .. } => fetch_targets(effs)[k] == trie_hash,
                _ => true,
            },
    decreases effs.len(),
{
    if effs.len() > 0 {
        let dl = effs.drop_last();
        assert(forall|k: int| 0 <= k < dl.len() ==> dl[k] == effs[k]);
        lemma_fetch_targets_all_fetch(dl);
        assert(effs[effs.len() - 1] == effs.last());
    }
}

/// Fetch targets distribute over concatenation of effect batches.
pub proof fn lemma_fetch_targets_add(a: Seq<EffectView>, b: Seq<EffectView>)
    ensures
        fetch_targets(a + b) == fetch_targets(a) + fetch_targets(b),
    decreases b.len(),
{
    if b.len() == 0 {
        assert(a + b =~= a);
        assert(fetch_targets(a) + fetch_targets(b) =~= fetch_targets(a));
    } else {
        lemma_fetch_targets_add(a, b.drop_last());
        assert((a + b).drop_last() =~= a + b.drop_last());
        assert((a + b).last() == b.last());
        match b.last() {
            EffectView::FetchTrie { trie_hash, .. } => {
                assert(fetch_targets(a) + fetch_targets(b) =~= (fetch_targets(a) + fetch_targets(
                    b.drop_last(),
                )).push(trie_hash));
            },
            _ => {
                assert(fetch_targets(b) == fetch_targets(b.drop_last()));
            },
        }
    }
}

/// What the dispatch pass over requests `i..` does: every request keeps its
/// key and peers, its frontier only moves into its in-flight set, the global
/// disjointness of in-flight sets survives, budget is consumed one unit per
/// fetch, and the fetched hashes are pairwise distinct, wanted by some
/// frontier, and fetched by nobody beforehand.
pub proof fn lemma_dispatch_all(reqs: Seq<(BlockKey, ReqView)>, i: int, budget: int)
    requires
        0 <= i,
        budget >= 0,
        unique_seq(req_keys(reqs)),
        forall|k: int| 0 <= k < reqs.len() ==> req_wf((#[trigger] reqs[k]).1),
        forall|p: int, q: int, h: TrieHash|
            0 <= p < reqs.len() && 0 <= q < reqs.len() && p != q && (#[trigger] reqs[p].1.in_flight.contains(
                h,
            )) ==> !(#[trigger] reqs[q].1.in_flight.contains(h)),
    ensures
        ({
            let (reqs2, effs, b2) = spec_dispatch_all(reqs, i, budget);
            &&& reqs2.len() == reqs.len()
            &&& req_keys(reqs2) == req_keys(reqs)
            &&& (forall|k: int| 0 <= k < i && k < reqs.len() ==> reqs2[k] == reqs[k])
            &&& (forall|k: int|
                0 <= k < reqs.len() ==> req_wf((#[trigger] reqs2[k]).1) && reqs2[k].1.peers
                    == reqs[k].1.peers && reqs2[k].0 == reqs[k].0)
            &&& (forall|k: int, h: TrieHash|
                0 <= k < reqs.len() && (#[trigger] reqs[k].1.in_flight.contains(h))
                    ==> reqs2[k].1.in_flight.contains(h))
            &&& (forall|k: int, h: TrieHash|
                0 <= k < reqs.len() && (#[trigger] reqs2[k].1.in_flight.contains(h))
                    ==> reqs[k].1.in_flight.contains(h) || reqs[k].1.missing.contains(h))
            &&& (forall|k: int, h: TrieHash|
                0 <= k < reqs.len() ==> ((#[trigger] reqs2[k].1.missing.contains(h))
                    <==> reqs[k].1.missing.contains(h) && !reqs2[k].1.in_flight.contains(h)))
            &&& (forall|k: int|
                0 <= k < reqs.len() ==> spec_settled((#[trigger] reqs2[k]).1) == spec_settled(
                    reqs[k].1,
                ))
            &&& (forall|p: int, q: int, h: TrieHash|
                0 <= p < reqs2.len() && 0 <= q < reqs2.len() && p != q && (
                #[trigger] reqs2[p].1.in_flight.contains(h)) ==> !(
                #[trigger] reqs2[q].1.in_flight.contains(h)))
            &&& 0 <= b2 <= budget
            &&& total_in_flight(reqs2) == total_in_flight(reqs) + (budget - b2)
            &&& (forall|k: int|
                0 <= k < effs.len() ==> (#[trigger] effs[k]) matches EffectView::FetchTrie { .. })
            &&& unique_seq(fetch_targets(effs))
            &&& (forall|h: TrieHash|
                #[trigger] fetch_targets(effs).contains(h) ==> !spec_globally_in_flight(reqs, h)
                    && exists|k: int|
                    0 <= k < reqs.len() && (#[trigger] reqs[k].1).missing.contains(h))
            &&& (forall|h: TrieHash|
                #[trigger] fetch_targets(effs).contains(h) ==> spec_globally_in_flight(reqs2, h))
        }),
    decreases reqs.len() - i,
{
    let (reqs2, effs, b2) = spec_dispatch_all(reqs, i, budget);
    if i >= reqs.len() {
        assert(fetch_targets(effs).len() == 0);
        assert(req_keys(reqs2) == req_keys(reqs));
    } else {
        let one = spec_dispatch_req(reqs, i, reqs[i].1, 0, budget);
        lemma_dispatch_req(reqs, i, reqs[i].1, 0, budget);
        let r2 = one.0;
        let mid = reqs.update(i, (reqs[i].0, r2));
        assert(reqs.update(i, (reqs[i].0, reqs[i].1)) =~= reqs);
        // the picked hashes of request `i`
        let len0 = reqs[i].1.in_flight.len() as int;
        assert forall|h: TrieHash|
            r2.in_flight.contains(h) && !reqs[i].1.in_flight.contains(h)
                implies !spec_globally_in_flight(reqs, h) by {}
        // `mid` satisfies the preconditions of the recursive call
        assert(req_keys(mid) =~= req_keys(reqs));
        assert forall|k: int| 0 <= k < mid.len() implies req_wf((#[trigger] mid[k]).1) by {
            if k != i {
                assert(mid[k] == reqs[k]);
            }
        }
        assert forall|p: int, q: int, h: TrieHash|
            0 <= p < mid.len() && 0 <= q < mid.len() && p != q && (#[trigger] mid[p].1.in_flight.contains(
                h,
            )) implies !(#[trigger] mid[q].1.in_flight.contains(h)) by {
            if p == i {
                if reqs[i].1.in_flight.contains(h) {
                    assert(reqs[p].1.in_flight.contains(h));
                    assert(!reqs[q].1.in_flight.contains(h));
                } else {
                    assert(!spec_globally_in_flight(reqs, h));
                    assert(!reqs[q].1.in_flight.contains(h));
                }
                assert(mid[q] == reqs[q]);
            } else if q == i {
                assert(mid[p] == reqs[p]);
                if mid[q].1.in_flight.contains(h) {
                    if reqs[i].1.in_flight.contains(h) {
                        assert(!reqs[p].1.in_flight.contains(h));
                    } else {
                        assert(!spec_globally_in_flight(reqs, h));
                        assert(!reqs[p].1.in_flight.contains(h));
                    }
                }
                if reqs[i].1.in_flight.contains(h) {
                    assert(!reqs[p].1.in_flight.contains(h));
                } else {
                }
            } else {
                assert(mid[p] == reqs[p]);
                assert(mid[q] == reqs[q]);
            }
        }
        lemma_dispatch_all(mid, i + 1, one.2);
        let rest = spec_dispatch_all(mid, i + 1, one.2);
        lemma_total_update(reqs, 0, i, (reqs[i].0, r2));
        // fetch-target bookkeeping
        assert(forall|k: int|
            0 <= k < one.1.len() ==> (#[trigger] one.1[k]) matches EffectView::FetchTrie { .. });
        lemma_fetch_targets_all_fetch(one.1);
        lemma_fetch_targets_add(one.1, rest.1);
        let t1 = fetch_targets(one.1);
        let t2 = fetch_targets(rest.1);
        assert(effs =~= one.1 + rest.1);
        assert(fetch_targets(effs) == t1 + t2);
        // targets of request `i` are its newly picked in-flight hashes
        assert forall|h: TrieHash| #[trigger] t1.contains(h) implies r2.in_flight.contains(h)
            && !reqs[i].1.in_flight.contains(h) by {
            let k = choose|k: int| 0 <= k < t1.len() && t1[k] == h;
            assert(one.1[k] matches EffectView::FetchTrie { trie_hash, .. } && t1[k] == trie_hash
                && trie_hash == r2.in_flight[len0 + k]);
            assert(r2.in_flight[len0 + k] == h);
            assert(r2.in_flight.contains(h));
            if reqs[i].1.in_flight.contains(h) {
                let p = choose|p: int| 0 <= p < len0 && reqs[i].1.in_flight[p] == h;
                assert(r2.in_flight[p] == h);
                assert(unique_seq(r2.in_flight));
            }
        }
        assert(unique_seq(t1)) by {
            assert forall|p: int, q: int| 0 <= p < q < t1.len() implies t1[p] != t1[q] by {
                assert(one.1[p] matches EffectView::FetchTrie { trie_hash, .. } && t1[p]
                    == trie_hash && trie_hash == r2.in_flight[len0 + p]);
                assert(one.1[q] matches EffectView::FetchTrie { trie_hash, .. } && t1[q]
                    == trie_hash && trie_hash == r2.in_flight[len0 + q]);
                assert(r2.in_flight[len0 + p] == t1[p]);
                assert(r2.in_flight[len0 + q] == t1[q]);
            }
        }
        // later targets are fetched by nobody in `mid`, so they differ from
        // request `i`'s picks, which are in flight in `mid`
        assert forall|p: int, q: int|
            0 <= p < q < fetch_targets(effs).len() implies fetch_targets(effs)[p] != fetch_targets(
            effs,
        )[q] by {
            if q < t1.len() {
            } else if p >= t1.len() {
                assert(t2[p - t1.len()] == fetch_targets(effs)[p]);
                assert(t2[q - t1.len()] == fetch_targets(effs)[q]);
            } else {
                let hp = fetch_targets(effs)[p];
                let hq = fetch_targets(effs)[q];
                assert(t1[p] == hp);
                assert(t2[q - t1.len()] == hq);
                assert(t1.contains(hp));
                assert(t2.contains(hq));
                assert(!spec_globally_in_flight(mid, hq));
                assert(r2.in_flight.contains(hp));
                assert(mid[i].1.in_flight.contains(hp));
                if hp == hq {
                    assert(spec_globally_in_flight(mid, hq));
                }
            }
        }
        // membership facts about all targets
        assert forall|h: TrieHash| #[trigger] fetch_targets(effs).contains(h) implies
            !spec_globally_in_flight(reqs, h) && exists|k: int|
                0 <= k < reqs.len() && (#[trigger] reqs[k].1).missing.contains(h) by {
            let n = choose|n: int| 0 <= n < fetch_targets(effs).len() && fetch_targets(effs)[n]
                == h;
            if n < t1.len() {
                assert(t1.contains(h));
                assert(reqs[i].1.missing.contains(h));
                assert(!spec_globally_in_flight(reqs, h));
            } else {
                assert(t2[n - t1.len()] == h);
                assert(t2.contains(h));
                assert(!spec_globally_in_flight(mid, h));
                let k = choose|k: int|
                    0 <= k < mid.len() && (#[trigger] mid[k].1).missing.contains(h);
                if k == i {
                    assert(r2.missing.contains(h));
                    assert(reqs[i].1.missing.contains(h));
                } else {
                    assert(reqs[k].1.missing.contains(h));
                }
                if spec_globally_in_flight(reqs, h) {
                    let p = choose|p: int|
                        0 <= p < reqs.len() && (#[trigger] reqs[p].1).in_flight.contains(h);
                    if p == i {
                        assert(r2.in_flight.contains(h));
                        assert(mid[p].1.in_flight.contains(h));
                    } else {
                        assert(mid[p].1.in_flight.contains(h));
                    }
                    assert(spec_globally_in_flight(mid, h));
                }
            }
        }
        assert forall|h: TrieHash| #[trigger] fetch_targets(effs).contains(h) implies
            spec_globally_in_flight(reqs2, h) by {
            let n = choose|n: int| 0 <= n < fetch_targets(effs).len() && fetch_targets(effs)[n]
                == h;
            if n < t1.len() {
                assert(t1.contains(h));
                assert(mid[i].1.in_flight.contains(h));
                assert(rest.0[i].1.in_flight.contains(h));
                assert(spec_globally_in_flight(rest.0, h));
            } else {
                assert(t2[n - t1.len()] == h);
                assert(t2.contains(h));
            }
        }
        // element-wise facts flow from `reqs` through `mid` to the result
        assert forall|k: int|
            0 <= k < reqs.len() implies req_wf((#[trigger] reqs2[k]).1) && reqs2[k].1.peers
                == reqs[k].1.peers && reqs2[k].0 == reqs[k].0 by {
            if k != i {
                assert(mid[k] == reqs[k]);
            }
        }
        assert forall|k: int, h: TrieHash|
            0 <= k < reqs.len() && (#[trigger] reqs[k].1.in_flight.contains(h))
                implies reqs2[k].1.in_flight.contains(h) by {
            if k == i {
                assert(mid[k].1.in_flight.contains(h));
            } else {
                assert(mid[k] == reqs[k]);
            }
        }
        assert forall|k: int, h: TrieHash|
            0 <= k < reqs.len() && (#[trigger] reqs2[k].1.in_flight.contains(h))
                implies reqs[k].1.in_flight.contains(h) || reqs[k].1.missing.contains(h) by {
            if mid[k].1.in_flight.contains(h) || mid[k].1.missing.contains(h) {
                if k == i {
                } else {
                    assert(mid[k] == reqs[k]);
                }
            }
        }
        assert forall|k: int, h: TrieHash|
            0 <= k < reqs.len() implies ((#[trigger] reqs2[k].1.missing.contains(h))
                <==> reqs[k].1.missing.contains(h) && !reqs2[k].1.in_flight.contains(h)) by {
            if k == i {
                assert(mid[k].1 == r2);
            } else {
                assert(mid[k] == reqs[k]);
            }
        }
        assert forall|k: int|
            0 <= k < reqs.len() implies spec_settled((#[trigger] reqs2[k]).1) == spec_settled(
                reqs[k].1,
            ) by {
            if k == i {
                assert(spec_settled(mid[k].1) == spec_settled(reqs[k].1)) by {
                    if spec_settled(reqs[k].1) {
                        assert(r2.in_flight.len() == len0 + (budget - one.2));
                        if r2.in_flight.len() > len0 {
                            assert(r2.in_flight.contains(r2.in_flight[len0]));
                        }
                        assert(r2.missing.len() == 0) by {
                            if r2.missing.len() > 0 {
                                assert(r2.missing.contains(r2.missing[0]));
                                assert(reqs[k].1.missing.contains(r2.missing[0]));
                            }
                        }
                    } else {
                        if reqs[k].1.missing.len() > 0 {
                            let x = reqs[k].1.missing[0];
                            assert(reqs[k].1.missing.contains(x));
                            assert(r2.missing.contains(x) || r2.in_flight.contains(x));
                            if r2.missing.len() == 0 && r2.in_flight.len() == 0 {
                                assert(!r2.missing.contains(x) && !r2.in_flight.contains(x));
                            }
                        } else {
                            assert(reqs[k].1.in_flight.len() > 0);
                            let x = reqs[k].1.in_flight[0];
                            assert(reqs[k].1.in_flight.contains(x));
                            assert(r2.in_flight.contains(x));
                            if r2.in_flight.len() == 0 {
                                assert(!r2.in_flight.contains(x));
                            }
                        }
                    }
                }
            } else {
                assert(mid[k] == reqs[k]);
            }
        }
    }
}


/// With unique keys, `key_index` is the one position holding `k`.
pub proof fn lemma_key_index(reqs: Seq<(BlockKey, ReqView)>, k: BlockKey)
    requires
        unique_seq(req_keys(reqs)),
        has_key(reqs, k),
    ensures
        0 <= key_index(reqs, k) < reqs.len(),
        reqs[key_index(reqs, k)].0 == k,
        forall|p: int| 0 <= p < reqs.len() && (#[trigger] reqs[p]).0 == k ==> p == key_index(reqs, k),
{
    let ks = req_keys(reqs);
    let j = key_index(reqs, k);
    assert(ks.contains(k));
    assert(0 <= j < ks.len() && ks[j] == k);
    assert(reqs[j].0 == k);
    assert forall|p: int| 0 <= p < reqs.len() && (#[trigger] reqs[p]).0 == k implies p == j by {
        assert(ks[p] == k);
        if p < j {
            assert(ks[p] != ks[j]);
        } else if p > j {
            assert(ks[j] != ks[p]);
        }
    }
}

/// In a duplicate-free sequence, removing `x` removes exactly `x`.
pub proof fn lemma_seq_remove_unique(s: Seq<TrieHash>, x: TrieHash)
    requires
        unique_seq(s),
    ensures
        unique_seq(seq_remove(s, x)),
        !seq_remove(s, x).contains(x),
        forall|y: TrieHash| y != x ==> #[trigger] seq_remove(s, x).contains(y) == s.contains(y),
        seq_remove(s, x).len() == (if s.contains(x) {
            s.len() - 1
        } else {
            s.len() as int
        }),
        forall|p: int|
            0 <= p < seq_remove(s, x).len() ==> s.contains(#[trigger] seq_remove(s, x)[p]),
{
    if s.contains(x) {
        let ix = s.index_of(x);
        assert(0 <= ix < s.len() && s[ix] == x);
        let r = s.remove(ix);
        assert forall|p: int, q: int| 0 <= p < q < r.len() implies r[p] != r[q] by {
            if p < ix && q < ix {
            } else if p < ix {
                assert(s[p] == r[p]);
                assert(s[q + 1] == r[q]);
            } else {
                assert(s[p + 1] == r[p]);
                assert(s[q + 1] == r[q]);
            }
        }
        assert forall|p: int| 0 <= p < r.len() implies s.contains(#[trigger] r[p]) by {
            if p < ix {
                assert(s[p] == r[p]);
            } else {
                assert(s[p + 1] == r[p]);
            }
        }
        assert(!r.contains(x)) by {
            if r.contains(x) {
                let p = choose|p: int| 0 <= p < r.len() && r[p] == x;
                if p < ix {
                    assert(s[p] == x && s[ix] == x);
                } else {
                    assert(s[p + 1] == x && s[ix] == x);
                }
            }
        }
        assert forall|y: TrieHash| y != x implies #[trigger] r.contains(y) == s.contains(y) by {
            if s.contains(y) {
                let p = choose|p: int| 0 <= p < s.len() && s[p] == y;
                assert(p != ix);
                if p < ix {
                    assert(r[p] == y);
                } else {
                    assert(r[p - 1] == y);
                }
            }
            if r.contains(y) {
                let p = choose|p: int| 0 <= p < r.len() && r[p] == y;
                if p < ix {
                    assert(s[p] == y);
                } else {
                    assert(s[p + 1] == y);
                }
            }
        }
    }
}

/// One request after a successful insertion: well formed, the frontier and
/// in-flight sets lose `h`, and the frontier gains exactly the children that
/// were neither known nor in flight.
pub proof fn lemma_apply_insert(r: ReqView, h: TrieHash, children: Seq<TrieHash>)
    requires
        req_wf(r),
    ensures
        ({
            let r2 = spec_apply_insert(r, h, children);
            &&& req_wf(r2)
            &&& r2.peers == r.peers
            &&& (forall|y: TrieHash|
                #[trigger] r2.in_flight.contains(y) <==> r.in_flight.contains(y) && y != h)
            &&& (forall|y: TrieHash|
                #[trigger] r2.missing.contains(y) <==> (r.missing.contains(y) || (
                children.contains(y) && !r.in_flight.contains(y))) && y != h)
            &&& r2.in_flight.len() <= r.in_flight.len()
        }),
{
    let grown = dedup_append(r.missing, keep_not_in(children, r.in_flight));
    lemma_keep_not_in_membership(children, r.in_flight);
    crate::sets::lemma_dedup_append_membership(r.missing, keep_not_in(children, r.in_flight));
    crate::sets::lemma_dedup_append_unique(r.missing, keep_not_in(children, r.in_flight));
    lemma_seq_remove_unique(grown, h);
    lemma_seq_remove_unique(r.in_flight, h);
    let r2 = spec_apply_insert(r, h, children);
    assert forall|y: TrieHash| #[trigger] r2.missing.contains(y) implies !r2.in_flight.contains(
        y,
    ) by {
        if y != h {
            assert(grown.contains(y));
        }
    }
}

/// Applying an insertion to every affected request: keys and peers are kept,
/// well-formedness and disjointness survive, the named requests are updated
/// and the others untouched.
pub proof fn lemma_apply_list(
    reqs: Seq<(BlockKey, ReqView)>,
    keys: Seq<BlockKey>,
    i: int,
    h: TrieHash,
    children: Seq<TrieHash>,
)
    requires
        0 <= i <= keys.len(),
        unique_seq(req_keys(reqs)),
        forall|p: int| 0 <= p < reqs.len() ==> req_wf((#[trigger] reqs[p]).1),
        forall|p: int, q: int, y: TrieHash|
            0 <= p < reqs.len() && 0 <= q < reqs.len() && p != q && (#[trigger] reqs[p].1.in_flight.contains(
                y,
            )) ==> !(#[trigger] reqs[q].1.in_flight.contains(y)),
    ensures
        ({
            let reqs2 = spec_apply_list(reqs, keys, i, h, children);
            &&& reqs2.len() == reqs.len()
            &&& req_keys(reqs2) == req_keys(reqs)
            &&& (forall|p: int| 0 <= p < reqs.len() ==> req_wf((#[trigger] reqs2[p]).1))
            &&& (forall|p: int|
                0 <= p < reqs.len() ==> (#[trigger] reqs2[p]).0 == reqs[p].0 && reqs2[p].1.peers
                    == reqs[p].1.peers)
            &&& (forall|p: int|
                0 <= p < reqs.len() && !keys.skip(i).contains((#[trigger] reqs[p]).0)
                    ==> reqs2[p] == reqs[p])
            &&& (forall|p: int|
                0 <= p < reqs.len() && keys.skip(i).contains((#[trigger] reqs[p]).0)
                    ==> reqs2[p].1 == spec_apply_insert(reqs[p].1, h, children))
            &&& (forall|p: int, y: TrieHash|
                0 <= p < reqs.len() && (#[trigger] reqs2[p].1.in_flight.contains(y))
                    ==> reqs[p].1.in_flight.contains(y))
            &&& (forall|p: int, q: int, y: TrieHash|
                0 <= p < reqs2.len() && 0 <= q < reqs2.len() && p != q && (
                #[trigger] reqs2[p].1.in_flight.contains(y)) ==> !(
                #[trigger] reqs2[q].1.in_flight.contains(y)))
            &&& total_in_flight(reqs2) <= total_in_flight(reqs)
        }),
    decreases keys.len() - i,
{
    let reqs2 = spec_apply_list(reqs, keys, i, h, children);
    if i >= keys.len() {
        assert(keys.skip(i).len() == 0);
        assert(forall|kk: BlockKey| !keys.skip(i).contains(kk));
    } else {
        let k = keys[i];
        let step = if has_key(reqs, k) {
            let ix = key_index(reqs, k);
            reqs.update(ix, (k, spec_apply_insert(reqs[ix].1, h, children)))
        } else {
            reqs
        };
        if has_key(reqs, k) {
            let ix = key_index(reqs, k);
            lemma_key_index(reqs, k);
            lemma_apply_insert(reqs[ix].1, h, children);
            assert(req_keys(step) =~= req_keys(reqs));
            lemma_total_update(reqs, 0, ix, (k, spec_apply_insert(reqs[ix].1, h, children)));
            lemma_total_nonneg(reqs, 0);
        }
        assert(forall|p: int| 0 <= p < step.len() ==> req_wf((#[trigger] step[p]).1));
        assert forall|p: int, q: int, y: TrieHash|
            0 <= p < step.len() && 0 <= q < step.len() && p != q && (#[trigger] step[p].1.in_flight.contains(
                y,
            )) implies !(#[trigger] step[q].1.in_flight.contains(y)) by {
            if step[p].1.in_flight.contains(y) {
                assert(reqs[p].1.in_flight.contains(y));
            }
            if step[q].1.in_flight.contains(y) {
                assert(reqs[q].1.in_flight.contains(y));
            }
        }
        lemma_apply_list(step, keys, i + 1, h, children);
        // relate membership of `keys.skip(i)` with head and `keys.skip(i+1)`
        assert(keys.skip(i)[0] == k);
        assert forall|kk: BlockKey| #[trigger] keys.skip(i).contains(kk) implies kk == k
            || keys.skip(i + 1).contains(kk) by {
            let p = choose|p: int| 0 <= p < keys.skip(i).len() && keys.skip(i)[p] == kk;
            if p > 0 {
                assert(keys.skip(i + 1)[p - 1] == keys[i + p]);
            }
        }
        assert forall|kk: BlockKey| keys.skip(i + 1).contains(kk) implies keys.skip(i).contains(
            kk,
        ) by {
            let p = choose|p: int|
                0 <= p < keys.skip(i + 1).len() && #[trigger] keys.skip(i + 1)[p] == kk;
            assert(keys.skip(i)[p + 1] == keys[i + 1 + p]);
        }
        assert(keys.skip(i).contains(k));
        // double application of the same key cannot happen within one pass:
        // if k repeats in keys.skip(i+1) the inner update applies to the
        // entry already updated; rule that out by showing the entry for k in
        // `step` keeps its key, and spec_apply_insert is what the clause
        // claims relative to `reqs`.
        assert forall|p: int|
            0 <= p < reqs.len() && keys.skip(i).contains((#[trigger] reqs[p]).0)
                implies reqs2[p].1 == spec_apply_insert(reqs[p].1, h, children) by {
            if reqs[p].0 == k && has_key(reqs, k) {
                lemma_key_index(reqs, k);
                assert(p == key_index(reqs, k));
                assert(step[p].1 == spec_apply_insert(reqs[p].1, h, children));
                if keys.skip(i + 1).contains(reqs[p].0) {
                    assert(spec_apply_list(step, keys, i + 1, h, children)[p].1
                        == spec_apply_insert(step[p].1, h, children));
                    lemma_apply_insert(reqs[p].1, h, children);
                    lemma_apply_insert_idempotent(reqs[p].1, h, children);
                } else {
                    assert(spec_apply_list(step, keys, i + 1, h, children)[p] == step[p]);
                }
            } else if reqs[p].0 == k {
                assert(has_key(reqs, k)) by {
                    assert(req_keys(reqs)[p] == k);
                }
            } else {
                assert(keys.skip(i + 1).contains(reqs[p].0));
                assert(step[p] == reqs[p]);
            }
        }
        assert forall|p: int|
            0 <= p < reqs.len() && !keys.skip(i).contains((#[trigger] reqs[p]).0)
                implies reqs2[p] == reqs[p] by {
            assert(reqs[p].0 != k);
            if has_key(reqs, k) {
                lemma_key_index(reqs, k);
                assert(step[p] == reqs[p]);
            }
        }
    }
}

/// Re-applying the same insertion changes nothing: the hash is gone from
/// both sets and the children are already present or in flight.
pub proof fn lemma_apply_insert_idempotent(r: ReqView, h: TrieHash, children: Seq<TrieHash>)
    requires
        req_wf(r),
    ensures
        spec_apply_insert(spec_apply_insert(r, h, children), h, children) == spec_apply_insert(
            r,
            h,
            children,
        ),
{
    let r1 = spec_apply_insert(r, h, children);
    lemma_apply_insert(r, h, children);
    let r2 = spec_apply_insert(r1, h, children);
    lemma_apply_insert(r1, h, children);
    lemma_keep_not_in_membership(children, r1.in_flight);
    crate::sets::lemma_dedup_append_membership(
        r1.missing,
        keep_not_in(children, r1.in_flight),
    );
    // the grown frontier adds nothing: every child outside r1.in_flight is
    // already in r1.missing or is h itself... it need not be: a child equal
    // to h is re-added by dedup_append and then removed again by seq_remove.
    let kept = keep_not_in(children, r1.in_flight);
    let grown = dedup_append(r1.missing, kept);
    assert forall|p: int| 0 <= p < kept.len() implies r1.missing.contains(#[trigger] kept[p])
        || kept[p] == h by {
        assert(kept.contains(kept[p]));
        assert(children.contains(kept[p]) && !r1.in_flight.contains(kept[p]));
        if kept[p] != h {
            if !r.in_flight.contains(kept[p]) {
                assert(r1.missing.contains(kept[p]));
            } else {
                assert(r1.in_flight.contains(kept[p]));
            }
        }
    }
    lemma_dedup_append_grows_only_new(r1.missing, kept, h);
    crate::sets::lemma_dedup_append_unique(r1.missing, kept);
    lemma_seq_remove_unique(grown, h);
    lemma_seq_remove_unique(r1.in_flight, h);
    assert(!r1.in_flight.contains(h));
    assert(seq_remove(r1.in_flight, h) =~= r1.in_flight);
    assert(r2.missing =~= r1.missing) by {
        lemma_dedup_append_pointwise(r1.missing, kept, h);
        assert(!r1.missing.contains(h));
        if grown.contains(h) {
            lemma_seq_remove_unique(grown, h);
            assert(r2.missing.len() == grown.len() - 1);
        } else {
            assert(r2.missing == grown);
        }
        assert(r2.missing.len() == r1.missing.len());
        assert forall|p: int| 0 <= p < r2.missing.len() implies r2.missing[p] == r1.missing[p] by {
        }
    }
}

/// If every element that `dedup_append` could add is `x` or already present,
/// the result is the base, possibly with one `x` at the end.
proof fn lemma_dedup_append_grows_only_new(base: Seq<TrieHash>, add: Seq<TrieHash>, x: TrieHash)
    requires
        forall|p: int| 0 <= p < add.len() ==> base.contains(#[trigger] add[p]) || add[p] == x,
    ensures
        dedup_append(base, add) == base || dedup_append(base, add) == base.push(x),
    decreases add.len(),
{
    if add.len() == 0 {
    } else {
        assert(forall|p: int|
            0 <= p < add.drop_last().len() ==> base.contains(#[trigger] add.drop_last()[p])
                || add.drop_last()[p] == x);
        lemma_dedup_append_grows_only_new(base, add.drop_last(), x);
        let prev = dedup_append(base, add.drop_last());
        assert(add[add.len() - 1] == add.last());
        if prev == base {
            if prev.contains(add.last()) {
            } else {
                assert(add.last() == x);
            }
        } else {
            assert(prev == base.push(x));
            if prev.contains(add.last()) {
            } else {
                assert(base.contains(add.last()) ==> prev.contains(add.last())) by {
                    if base.contains(add.last()) {
                        let p = choose|p: int| 0 <= p < base.len() && base[p] == add.last();
                        assert(prev[p] == add.last());
                    }
                }
                assert(add.last() == x);
                assert(prev[base.len() as int] == x);
                assert(prev.contains(x));
            }
        }
    }
}

/// Helper naming the two outcomes of `lemma_dedup_append_grows_only_new` at
/// the point of removal of `x`.
proof fn lemma_dedup_append_pointwise(base: Seq<TrieHash>, add: Seq<TrieHash>, x: TrieHash)
    requires
        forall|p: int| 0 <= p < add.len() ==> base.contains(#[trigger] add[p]) || add[p] == x,
        unique_seq(base),
        !base.contains(x),
    ensures
        seq_remove(dedup_append(base, add), x) == base,
{
    lemma_dedup_append_grows_only_new(base, add, x);
    let grown = dedup_append(base, add);
    if grown == base {
        assert(!grown.contains(x));
        assert(seq_remove(grown, x) == grown);
    } else {
        assert(grown == base.push(x));
        assert(grown[base.len() as int] == x);
        assert(grown.contains(x));
        let ix = grown.index_of(x);
        assert(0 <= ix < grown.len() && grown[ix] == x);
        assert(ix == base.len()) by {
            if ix < base.len() {
                assert(grown[ix] == base[ix]);
                assert(base.contains(base[ix]));
            }
        }
        assert(seq_remove(grown, x) =~= base);
    }
}

/// Completing a list of distinct keys: each registered key leaves the state
/// with exactly one completion effect carrying `outcome`; every surviving
/// entry is one of the old entries, untouched.
pub proof fn lemma_complete_list(
    reqs: Seq<(BlockKey, ReqView)>,
    keys: Seq<BlockKey>,
    i: int,
    outcome: Result<(), SyncError>,
)
    requires
        0 <= i <= keys.len(),
        unique_seq(keys),
        unique_seq(req_keys(reqs)),
        forall|p: int| 0 <= p < reqs.len() ==> req_wf((#[trigger] reqs[p]).1),
        forall|p: int, q: int, y: TrieHash|
            0 <= p < reqs.len() && 0 <= q < reqs.len() && p != q && (#[trigger] reqs[p].1.in_flight.contains(
                y,
            )) ==> !(#[trigger] reqs[q].1.in_flight.contains(y)),
    ensures
        ({
            let (reqs2, effs) = spec_complete_list(reqs, keys, i, outcome);
            &&& unique_seq(req_keys(reqs2))
            &&& (forall|p: int| 0 <= p < reqs2.len() ==> req_wf((#[trigger] reqs2[p]).1))
            &&& (forall|p: int, q: int, y: TrieHash|
                0 <= p < reqs2.len() && 0 <= q < reqs2.len() && p != q && (
                #[trigger] reqs2[p].1.in_flight.contains(y)) ==> !(
                #[trigger] reqs2[q].1.in_flight.contains(y)))
            &&& total_in_flight(reqs2) <= total_in_flight(reqs)
            &&& (forall|kk: BlockKey|
                #[trigger] has_key(reqs2, kk) <==> has_key(reqs, kk) && !keys.skip(i).contains(
                    kk,
                ))
            &&& (forall|p: int|
                0 <= p < reqs2.len() ==> exists|q: int|
                    0 <= q < reqs.len() && (#[trigger] reqs2[p]) == reqs[q])
            &&& (forall|n: int|
                0 <= n < effs.len() ==> match #[trigger] effs[n] {
                    EffectView::Complete { block_key, result } => result == outcome
                        && keys.skip(i).contains(block_key) && has_key(reqs, block_key)
                        && !has_key(reqs2, block_key),
                    _ => false,
                })
            &&& (forall|kk: BlockKey|
                #[trigger] keys.skip(i).contains(kk) && has_key(reqs, kk) ==> exists|n: int|
                    0 <= n < effs.len() && #[trigger] effs[n] == (EffectView::Complete {
                        block_key: kk,
                        result: outcome,
                    }))
            &&& (forall|n1: int, n2: int|
                0 <= n1 < n2 < effs.len() ==> match (#[trigger] effs[n1], #[trigger] effs[n2]) {
                    (
                        EffectView::Complete { block_key: k1, .. },
                        EffectView::Complete { block_key: k2, .. },
                    ) => k1 != k2,
                    _ => true,
                })
        }),
    decreases keys.len() - i,
{
    let (reqs2, effs) = spec_complete_list(reqs, keys, i, outcome);
    if i >= keys.len() {
        assert(forall|kk: BlockKey| !keys.skip(i).contains(kk));
        assert forall|p: int| 0 <= p < reqs2.len() implies exists|q: int|
            0 <= q < reqs.len() && (#[trigger] reqs2[p]) == reqs[q] by {
            assert(reqs2[p] == reqs[p]);
        }
    } else {
        let k = keys[i];
        assert(keys.skip(i)[0] == k);
        assert(keys.skip(i).contains(k));
        assert forall|kk: BlockKey| #[trigger] keys.skip(i).contains(kk) implies kk == k
            || keys.skip(i + 1).contains(kk) by {
            let p = choose|p: int| 0 <= p < keys.skip(i).len() && keys.skip(i)[p] == kk;
            if p > 0 {
                assert(keys.skip(i + 1)[p - 1] == keys[i + p]);
            }
        }
        assert forall|kk: BlockKey| #[trigger] keys.skip(i + 1).contains(kk)
            implies keys.skip(i).contains(kk) by {
            let p = choose|p: int|
                0 <= p < keys.skip(i + 1).len() && #[trigger] keys.skip(i + 1)[p] == kk;
            assert(keys.skip(i)[p + 1] == keys[i + 1 + p]);
        }
        assert(!keys.skip(i + 1).contains(k)) by {
            if keys.skip(i + 1).contains(k) {
                let p = choose|p: int|
                    0 <= p < keys.skip(i + 1).len() && #[trigger] keys.skip(i + 1)[p] == k;
                assert(keys[i + 1 + p] == k && keys[i] == k);
            }
        }
        if has_key(reqs, k) {
            lemma_key_index(reqs, k);
            let ix = key_index(reqs, k);
            let reqs1 = reqs.remove(ix);
            assert(spec_remove_key(reqs, k) == reqs1);
            assert(req_keys(reqs1) =~= req_keys(reqs).remove(ix)) by {
                assert forall|p: int|
                    0 <= p < reqs1.len() implies req_keys(reqs1)[p] == req_keys(reqs).remove(ix)[p]
                     by {
                    if p < ix {
                        assert(reqs1[p] == reqs[p]);
                    } else {
                        assert(reqs1[p] == reqs[p + 1]);
                    }
                }
            }
            assert(unique_seq(req_keys(reqs1))) by {
                let ks = req_keys(reqs);
                assert forall|p: int, q: int|
                    0 <= p < q < req_keys(reqs1).len() implies req_keys(reqs1)[p] != req_keys(
                    reqs1,
                )[q] by {
                    if p < ix && q < ix {
                        assert(ks[p] == req_keys(reqs1)[p] && ks[q] == req_keys(reqs1)[q]);
                    } else if p < ix {
                        assert(ks[p] == req_keys(reqs1)[p] && ks[q + 1] == req_keys(reqs1)[q]);
                    } else {
                        assert(ks[p + 1] == req_keys(reqs1)[p] && ks[q + 1] == req_keys(reqs1)[q]);
                    }
                }
            }
            assert(!has_key(reqs1, k)) by {
                if has_key(reqs1, k) {
                    let p = choose|p: int|
                        0 <= p < req_keys(reqs1).len() && #[trigger] req_keys(reqs1)[p] == k;
                    if p < ix {
                        assert(reqs[p].0 == k);
                    } else {
                        assert(reqs[p + 1].0 == k);
                    }
                }
            }
            assert forall|kk: BlockKey| kk != k implies #[trigger] has_key(reqs1, kk) == has_key(
                reqs,
                kk,
            ) by {
                if has_key(reqs, kk) {
                    let p = choose|p: int|
                        0 <= p < req_keys(reqs).len() && #[trigger] req_keys(reqs)[p] == kk;
                    assert(p != ix);
                    if p < ix {
                        assert(req_keys(reqs1)[p] == kk);
                    } else {
                        assert(req_keys(reqs1)[p - 1] == kk);
                    }
                }
                if has_key(reqs1, kk) {
                    let p = choose|p: int|
                        0 <= p < req_keys(reqs1).len() && #[trigger] req_keys(reqs1)[p] == kk;
                    if p < ix {
                        assert(req_keys(reqs)[p] == kk);
                    } else {
                        assert(req_keys(reqs)[p + 1] == kk);
                    }
                }
            }
            assert(forall|p: int|
                0 <= p < reqs1.len() ==> (#[trigger] reqs1[p]) == (if p < ix {
                    reqs[p]
                } else {
                    reqs[p + 1]
                }));
            assert(forall|p: int| 0 <= p < reqs1.len() ==> req_wf((#[trigger] reqs1[p]).1));
            assert forall|p: int, q: int, y: TrieHash|
                0 <= p < reqs1.len() && 0 <= q < reqs1.len() && p != q && (
                #[trigger] reqs1[p].1.in_flight.contains(y)) implies !(
                #[trigger] reqs1[q].1.in_flight.contains(y)) by {
                let p0: int = if p < ix {
                    p
                } else {
                    p + 1
                };
                let q0: int = if q < ix {
                    q
                } else {
                    q + 1
                };
                assert(reqs1[p] == reqs[p0] && reqs1[q] == reqs[q0] && p0 != q0);
                assert(reqs[p0].1.in_flight.contains(y) ==> !reqs[q0].1.in_flight.contains(y));
            }
            lemma_total_remove(reqs, 0, ix);
            lemma_total_nonneg(reqs, 0);
            lemma_complete_list(reqs1, keys, i + 1, outcome);
            let rest = spec_complete_list(reqs1, keys, i + 1, outcome);
            assert(effs =~= seq![EffectView::Complete { block_key: k, result: outcome }] + rest.1);
            assert(effs[0] == (EffectView::Complete { block_key: k, result: outcome }));
            assert forall|p: int| 0 <= p < reqs2.len() implies exists|q: int|
                0 <= q < reqs.len() && (#[trigger] reqs2[p]) == reqs[q] by {
                let q1 = choose|q1: int| 0 <= q1 < reqs1.len() && (#[trigger] reqs2[p]) == reqs1[q1];
                if q1 < ix {
                    assert(reqs2[p] == reqs[q1]);
                } else {
                    assert(reqs2[p] == reqs[q1 + 1]);
                }
            }
            assert(!has_key(reqs2, k)) by {
                assert(has_key(reqs2, k) ==> has_key(reqs1, k));
            }
            assert forall|n: int| 0 <= n < effs.len() implies match #[trigger] effs[n] {
                EffectView::Complete { block_key, result } => result == outcome && keys.skip(
                    i,
                ).contains(block_key) && has_key(reqs, block_key) && !has_key(reqs2, block_key),
                _ => false,
            } by {
                if n > 0 {
                    assert(effs[n] == rest.1[n - 1]);
                }
            }
            assert forall|kk: BlockKey|
                #[trigger] keys.skip(i).contains(kk) && has_key(reqs, kk) implies exists|n: int|
                    0 <= n < effs.len() && #[trigger] effs[n] == (EffectView::Complete {
                        block_key: kk,
                        result: outcome,
                    }) by {
                if kk == k {
                    assert(effs[0] == (EffectView::Complete { block_key: kk, result: outcome }));
                } else {
                    assert(keys.skip(i + 1).contains(kk) && has_key(reqs1, kk));
                    let n = choose|n: int|
                        0 <= n < rest.1.len() && #[trigger] rest.1[n] == (EffectView::Complete {
                            block_key: kk,
                            result: outcome,
                        });
                    assert(effs[n + 1] == rest.1[n]);
                }
            }
            assert forall|n1: int, n2: int| 0 <= n1 < n2 < effs.len() implies match (
                #[trigger] effs[n1],
                #[trigger] effs[n2],
            ) {
                (
                    EffectView::Complete { block_key: k1, .. },
                    EffectView::Complete { block_key: k2, .. },
                ) => k1 != k2,
                _ => true,
            } by {
                if n1 == 0 {
                    assert(effs[n2] == rest.1[n2 - 1]);
                    match effs[n2] {
                        EffectView::Complete { block_key, .. } => {
                            assert(keys.skip(i + 1).contains(block_key));
                        },
                        _ => {},
                    }
                } else {
                    assert(effs[n1] == rest.1[n1 - 1]);
                    assert(effs[n2] == rest.1[n2 - 1]);
                }
            }
        } else {
            lemma_complete_list(reqs, keys, i + 1, outcome);
            assert(effs =~= Seq::<EffectView>::empty() + spec_complete_list(
                reqs,
                keys,
                i + 1,
                outcome,
            ).1);
            assert(effs =~= spec_complete_list(reqs, keys, i + 1, outcome).1);
            assert forall|kk: BlockKey|
                #[trigger] has_key(reqs2, kk) implies has_key(reqs, kk) && !keys.skip(i).contains(
                    kk,
                ) by {
                if kk == k {
                    assert(has_key(reqs2, k) ==> has_key(reqs, k));
                }
            }
        }
    }
}

/// The settled keys are distinct registered keys of settled requests.
pub proof fn lemma_finished_from(reqs: Seq<(BlockKey, ReqView)>, i: int)
    requires
        0 <= i,
        unique_seq(req_keys(reqs)),
    ensures
        unique_seq(spec_finished_from(reqs, i)),
        forall|kk: BlockKey|
            #[trigger] spec_finished_from(reqs, i).contains(kk) ==> exists|p: int|
                i <= p < reqs.len() && (#[trigger] reqs[p]).0 == kk && spec_settled(reqs[p].1),
        forall|p: int|
            i <= p < reqs.len() && spec_settled((#[trigger] reqs[p]).1)
                ==> spec_finished_from(reqs, i).contains(reqs[p].0),
    decreases reqs.len() - i,
{
    if i < reqs.len() {
        lemma_finished_from(reqs, i + 1);
        let rest = spec_finished_from(reqs, i + 1);
        let fin = spec_finished_from(reqs, i);
        if spec_settled(reqs[i].1) {
            assert(fin == seq![reqs[i].0] + rest);
            assert(fin[0] == reqs[i].0);
            assert(!rest.contains(reqs[i].0)) by {
                if rest.contains(reqs[i].0) {
                    let p = choose|p: int|
                        i + 1 <= p < reqs.len() && (#[trigger] reqs[p]).0 == reqs[i].0
                            && spec_settled(reqs[p].1);
                    assert(req_keys(reqs)[p] == req_keys(reqs)[i as int]);
                }
            }
            assert forall|n1: int, n2: int| 0 <= n1 < n2 < fin.len() implies fin[n1] != fin[n2] by {
                if n1 == 0 {
                    assert(fin[n2] == rest[n2 - 1]);
                    assert(rest.contains(rest[n2 - 1]));
                } else {
                    assert(fin[n1] == rest[n1 - 1] && fin[n2] == rest[n2 - 1]);
                }
            }
            assert forall|kk: BlockKey| #[trigger] fin.contains(kk) implies exists|p: int|
                i <= p < reqs.len() && (#[trigger] reqs[p]).0 == kk && spec_settled(reqs[p].1) by {
                let n = choose|n: int| 0 <= n < fin.len() && fin[n] == kk;
                if n == 0 {
                    assert(reqs[i as int].0 == kk && spec_settled(reqs[i as int].1));
                } else {
                    assert(fin[n] == rest[n - 1]);
                    assert(rest.contains(kk));
                }
            }
            assert forall|p: int|
                i <= p < reqs.len() && spec_settled((#[trigger] reqs[p]).1) implies fin.contains(
                reqs[p].0,
            ) by {
                if p == i {
                    assert(fin[0] == reqs[p].0);
                } else {
                    assert(rest.contains(reqs[p].0));
                    let n = choose|n: int| 0 <= n < rest.len() && rest[n] == reqs[p].0;
                    assert(fin[n + 1] == rest[n]);
                }
            }
        } else {
            assert(fin == rest);
        }
    }
}

/// The affected keys for `h` are distinct registered keys of the requests
/// that reference `h`.
pub proof fn lemma_affected_from(reqs: Seq<(BlockKey, ReqView)>, h: TrieHash, i: int)
    requires
        0 <= i,
        unique_seq(req_keys(reqs)),
    ensures
        unique_seq(spec_affected_from(reqs, h, i)),
        forall|kk: BlockKey|
            #[trigger] spec_affected_from(reqs, h, i).contains(kk) ==> exists|p: int|
                i <= p < reqs.len() && (#[trigger] reqs[p]).0 == kk && spec_is_relevant(
                    reqs[p].1,
                    h,
                ),
        forall|p: int|
            i <= p < reqs.len() && spec_is_relevant((#[trigger] reqs[p]).1, h)
                ==> spec_affected_from(reqs, h, i).contains(reqs[p].0),
    decreases reqs.len() - i,
{
    if i < reqs.len() {
        lemma_affected_from(reqs, h, i + 1);
        let rest = spec_affected_from(reqs, h, i + 1);
        let aff = spec_affected_from(reqs, h, i);
        if spec_is_relevant(reqs[i].1, h) {
            assert(aff == seq![reqs[i].0] + rest);
            assert(aff[0] == reqs[i].0);
            assert(!rest.contains(reqs[i].0)) by {
                if rest.contains(reqs[i].0) {
                    let p = choose|p: int|
                        i + 1 <= p < reqs.len() && (#[trigger] reqs[p]).0 == reqs[i].0
                            && spec_is_relevant(reqs[p].1, h);
                    assert(req_keys(reqs)[p] == req_keys(reqs)[i as int]);
                }
            }
            assert forall|n1: int, n2: int| 0 <= n1 < n2 < aff.len() implies aff[n1] != aff[n2] by {
                if n1 == 0 {
                    assert(aff[n2] == rest[n2 - 1]);
                    assert(rest.contains(rest[n2 - 1]));
                } else {
                    assert(aff[n1] == rest[n1 - 1] && aff[n2] == rest[n2 - 1]);
                }
            }
            assert forall|kk: BlockKey| #[trigger] aff.contains(kk) implies exists|p: int|
                i <= p < reqs.len() && (#[trigger] reqs[p]).0 == kk && spec_is_relevant(
                    reqs[p].1,
                    h,
                ) by {
                let n = choose|n: int| 0 <= n < aff.len() && aff[n] == kk;
                if n == 0 {
                    assert(reqs[i as int].0 == kk && spec_is_relevant(reqs[i as int].1, h));
                } else {
                    assert(aff[n] == rest[n - 1]);
                    assert(rest.contains(kk));
                }
            }
            assert forall|p: int|
                i <= p < reqs.len() && spec_is_relevant((#[trigger] reqs[p]).1, h)
                    implies aff.contains(reqs[p].0) by {
                if p == i {
                    assert(aff[0] == reqs[p].0);
                } else {
                    assert(rest.contains(reqs[p].0));
                    let n = choose|n: int| 0 <= n < rest.len() && rest[n] == reqs[p].0;
                    assert(aff[n + 1] == rest[n]);
                }
            }
        } else {
            assert(aff == rest);
        }
    }
}

/// Registering a request keeps the state well formed and the in-flight total
/// unchanged; a known key only widens its peers, a new key appends a fresh
/// entry whose frontier is the root.
pub proof fn lemma_submit(
    reqs: Seq<(BlockKey, ReqView)>,
    k: BlockKey,
    root: TrieHash,
    new_peers: Seq<PeerId>,
)
    requires
        unique_seq(req_keys(reqs)),
        forall|p: int| 0 <= p < reqs.len() ==> req_wf((#[trigger] reqs[p]).1),
        forall|p: int, q: int, y: TrieHash|
            0 <= p < reqs.len() && 0 <= q < reqs.len() && p != q && (#[trigger] reqs[p].1.in_flight.contains(
                y,
            )) ==> !(#[trigger] reqs[q].1.in_flight.contains(y)),
    ensures
        ({
            let reqs2 = spec_submit(reqs, k, root, new_peers);
            &&& unique_seq(req_keys(reqs2))
            &&& (forall|p: int| 0 <= p < reqs2.len() ==> req_wf((#[trigger] reqs2[p]).1))
            &&& (forall|p: int, q: int, y: TrieHash|
                0 <= p < reqs2.len() && 0 <= q < reqs2.len() && p != q && (
                #[trigger] reqs2[p].1.in_flight.contains(y)) ==> !(
                #[trigger] reqs2[q].1.in_flight.contains(y)))
            &&& total_in_flight(reqs2) == total_in_flight(reqs)
            &&& (forall|kk: BlockKey|
                #[trigger] has_key(reqs2, kk) <==> has_key(reqs, kk) || kk == k)
            &&& (forall|p: int|
                0 <= p < reqs.len() && (#[trigger] reqs[p]).0 != k ==> reqs2[p] == reqs[p])
        }),
{
    let reqs2 = spec_submit(reqs, k, root, new_peers);
    if has_key(reqs, k) {
        lemma_key_index(reqs, k);
        let ix = key_index(reqs, k);
        let r = reqs[ix].1;
        crate::sets::lemma_dedup_append_unique(r.peers, new_peers);
        assert(req_keys(reqs2) =~= req_keys(reqs));
        lemma_total_update(
            reqs,
            0,
            ix,
            (
                k,
                ReqView {
                    missing: r.missing,
                    in_flight: r.in_flight,
                    peers: dedup_append(r.peers, new_peers),
                },
            ),
        );
        assert forall|kk: BlockKey|
            #[trigger] has_key(reqs2, kk) <==> has_key(reqs, kk) || kk == k by {
            assert(req_keys(reqs2) == req_keys(reqs));
            if kk == k {
                assert(has_key(reqs, k));
            }
        }
    } else {
        let fresh = ReqView {
            missing: seq![root],
            in_flight: Seq::empty(),
            peers: dedup_append(Seq::empty(), new_peers),
        };
        crate::sets::lemma_dedup_append_unique(Seq::<PeerId>::empty(), new_peers);
        assert(req_keys(reqs2) =~= req_keys(reqs).push(k));
        assert(unique_seq(req_keys(reqs2))) by {
            let ks = req_keys(reqs);
            assert forall|p: int, q: int|
                0 <= p < q < req_keys(reqs2).len() implies req_keys(reqs2)[p] != req_keys(
                reqs2,
            )[q] by {
                if q == ks.len() {
                    assert(ks.contains(ks[p]));
                }
            }
        }
        assert(unique_seq(fresh.missing)) by {
            assert(fresh.missing.len() == 1);
        }
        assert(req_wf(fresh)) by {
            assert(forall|y: TrieHash| !fresh.in_flight.contains(y));
        }
        lemma_total_push_empty(reqs, 0, (k, fresh));
        assert forall|p: int, q: int, y: TrieHash|
            0 <= p < reqs2.len() && 0 <= q < reqs2.len() && p != q && (
            #[trigger] reqs2[p].1.in_flight.contains(y)) implies !(
            #[trigger] reqs2[q].1.in_flight.contains(y)) by {
            if p < reqs.len() && q < reqs.len() {
                assert(reqs2[p] == reqs[p] && reqs2[q] == reqs[q]);
            } else if p < reqs.len() {
                assert(reqs2[q].1 == fresh);
            } else {
                assert(reqs2[p].1 == fresh);
                assert(!fresh.in_flight.contains(y));
            }
        }
        assert forall|kk: BlockKey|
            #[trigger] has_key(reqs2, kk) <==> has_key(reqs, kk) || kk == k by {
            let ks = req_keys(reqs);
            if has_key(reqs2, kk) {
                let p = choose|p: int|
                    0 <= p < req_keys(reqs2).len() && #[trigger] req_keys(reqs2)[p] == kk;
                if p < ks.len() {
                    assert(ks[p] == kk);
                }
            }
            if has_key(reqs, kk) {
                let p = choose|p: int| 0 <= p < ks.len() && #[trigger] ks[p] == kk;
                assert(req_keys(reqs2)[p] == kk);
            }
            if kk == k {
                assert(req_keys(reqs2)[ks.len() as int] == k);
            }
        }
    }
}

/// The scheduler preserves well-formedness, and in particular the global
/// parallelism bound.
pub proof fn lemma_parallel_fetch_preserves(s: SyncView)
    requires
        sync_wf(s),
    ensures
        sync_wf(spec_parallel_fetch(s).0),
        spec_parallel_fetch(s).0.max_parallel == s.max_parallel,
{
    lemma_total_nonneg(s.requests, 0);
    let budget = if total_in_flight(s.requests) <= s.max_parallel {
        s.max_parallel - total_in_flight(s.requests)
    } else {
        0
    };
    lemma_dispatch_all(s.requests, 0, budget);
    let d = spec_dispatch_all(s.requests, 0, budget);
    lemma_finished_from(s.requests, 0);
    let fin = spec_finished_from(s.requests, 0);
    lemma_complete_list(d.0, fin, 0, Ok(()));
    lemma_total_nonneg(d.0, 0);
}

/// A fetched-node event preserves well-formedness.
pub proof fn lemma_handle_fetched_preserves(
    s: SyncView,
    h: TrieHash,
    result: Result<TrieBytes, TrieAccumulatorError>,
)
    requires
        sync_wf(s),
    ensures
        sync_wf(spec_handle_fetched(s, h, result).0),
{
    match result {
        Ok(_) => {},
        Err(e) => {
            lemma_affected_from(s.requests, h, 0);
            lemma_complete_list(
                s.requests,
                spec_affected_from(s.requests, h, 0),
                0,
                Err(SyncError::TrieAccumulator(e)),
            );
            lemma_total_nonneg(s.requests, 0);
            let cancelled = spec_complete_list(
                s.requests,
                spec_affected_from(s.requests, h, 0),
                0,
                Err(SyncError::TrieAccumulator(e)),
            );
            lemma_parallel_fetch_preserves(
                SyncView { max_parallel: s.max_parallel, requests: cancelled.0 },
            );
        },
    }
}

/// A store-result event preserves well-formedness.
pub proof fn lemma_handle_put_trie_preserves(
    s: SyncView,
    h: TrieHash,
    result: Result<Vec<TrieHash>, StoreError>,
)
    requires
        sync_wf(s),
    ensures
        sync_wf(spec_handle_put_trie(s, h, result).0),
{
    lemma_affected_from(s.requests, h, 0);
    let aff = spec_affected_from(s.requests, h, 0);
    match result {
        Ok(children) => {
            lemma_apply_list(s.requests, aff, 0, h, children@);
            let reqs1 = spec_apply_list(s.requests, aff, 0, h, children@);
            lemma_total_nonneg(s.requests, 0);
            lemma_parallel_fetch_preserves(
                SyncView { max_parallel: s.max_parallel, requests: reqs1 },
            );
        },
        Err(e) => {
            lemma_complete_list(s.requests, aff, 0, Err(SyncError::PutTrie(e)));
            let reqs1 = spec_complete_list(s.requests, aff, 0, Err(SyncError::PutTrie(e))).0;
            lemma_total_nonneg(s.requests, 0);
            lemma_parallel_fetch_preserves(
                SyncView { max_parallel: s.max_parallel, requests: reqs1 },
            );
        },
    }
}

/// A caller request preserves well-formedness.
pub proof fn lemma_handle_request_preserves(
    s: SyncView,
    k: BlockKey,
    root: TrieHash,
    new_peers: Seq<PeerId>,
)
    requires
        sync_wf(s),
    ensures
        sync_wf(spec_handle_request(s, k, root, new_peers).0),
{
    lemma_submit(s.requests, k, root, new_peers);
    lemma_parallel_fetch_preserves(
        SyncView {
            max_parallel: s.max_parallel,
            requests: spec_submit(s.requests, k, root, new_peers),
        },
    );
}

/// `keep_not_in` keeps exactly the elements of `cs` outside `excl`.
pub proof fn lemma_keep_not_in_membership(cs: Seq<TrieHash>, excl: Seq<TrieHash>)
    ensures
        forall|x: TrieHash|
            #[trigger] keep_not_in(cs, excl).contains(x) <==> cs.contains(x) && !excl.contains(
                x,
            ),
    decreases cs.len(),
{
    if cs.len() == 0 {
    } else {
        let dl = cs.drop_last();
        lemma_keep_not_in_membership(dl, excl);
        let prev = keep_not_in(dl, excl);
        assert forall|x: TrieHash| cs.contains(x) implies dl.contains(x) || x == cs.last() by {
            let i = choose|i: int| 0 <= i < cs.len() && cs[i] == x;
            if i < cs.len() - 1 {
                assert(dl[i] == x);
            }
        }
        assert forall|x: TrieHash| dl.contains(x) implies cs.contains(x) by {
            let i = choose|i: int| 0 <= i < dl.len() && dl[i] == x;
            assert(cs[i] == x);
        }
        assert(cs[cs.len() - 1] == cs.last());
        assert(cs.contains(cs.last()));
        if !excl.contains(cs.last()) {
            let pushed = prev.push(cs.last());
            assert forall|x: TrieHash| pushed.contains(x) implies prev.contains(x) || x
                == cs.last() by {
                let i = choose|i: int| 0 <= i < pushed.len() && pushed[i] == x;
                if i < prev.len() {
                    assert(prev[i] == x);
                }
            }
            assert forall|x: TrieHash| prev.contains(x) implies pushed.contains(x) by {
                let i = choose|i: int| 0 <= i < prev.len() && prev[i] == x;
                assert(pushed[i] == x);
            }
            assert(pushed[prev.len() as int] == cs.last());
            assert(pushed.contains(cs.last()));
        }
    }
}

// ---------------------------------------------------------------------------
// The synchronizer
// ---------------------------------------------------------------------------

/// The view of a vector of keyed request states.
pub open spec fn reqs_view(v: Seq<(BlockKey, RequestState)>) -> Seq<(BlockKey, ReqView)> {
    v.map_values(|p: (BlockKey, RequestState)| (p.0, p.1@))
}

/// The synchronizer: the outstanding requests in registration order, the
/// global parallelism bound, and the embedded trie accumulator.
pub struct GlobalStateSynchronizer {
    pub max_parallel_trie_fetches: usize,
    pub request_states: Vec<(BlockKey, RequestState)>,
    pub trie_accumulator: TrieAccumulator,
}

impl View for GlobalStateSynchronizer {
    type V = SyncView;

    open spec fn view(&self) -> SyncView {
        SyncView {
            max_parallel: self.max_parallel_trie_fetches as int,
            requests: reqs_view(self.request_states@),
        }
    }
}

impl GlobalStateSynchronizer {
    /// The request map is well formed and so is the accumulator.
    pub open spec fn wf(&self) -> bool {
        sync_wf(self@) && self.trie_accumulator.wf()
    }

    /// An idle synchronizer with the given parallelism bound.
    pub fn new(max_parallel_trie_fetches: usize) -> (r: Self)
        requires
            max_parallel_trie_fetches >= 1,
        ensures
            r.wf(),
            r@.requests.len() == 0,
            r@.max_parallel == max_parallel_trie_fetches as int,
    {
        let r = GlobalStateSynchronizer {
            max_parallel_trie_fetches,
            request_states: Vec::new(),
            trie_accumulator: TrieAccumulator::new(),
        };
        proof {
            assert(reqs_view(r.request_states@) =~= Seq::<(BlockKey, ReqView)>::empty());
        }
        r
    }

    /// The position of the request registered under `k`, if any.
    fn find_request(&self, k: &BlockKey) -> (r: Option<usize>)
        ensures
            match r {
                Some(i) => i < self@.requests.len() && self@.requests[i as int].0 == *k,
                None => !has_key(self@.requests, *k),
            },
    {
        let mut i: usize = 0;
        while i < self.request_states.len()
            invariant
                i <= self.request_states@.len(),
                forall|p: int| 0 <= p < i ==> (#[trigger] self.request_states@[p]).0 != *k,
            decreases self.request_states@.len() - i,
        {
            if self.request_states[i].0 == *k {
                return Some(i);
            }
            i += 1;
        }
        proof {
            if has_key(self@.requests, *k) {
                let j = choose|j: int|
                    0 <= j < req_keys(self@.requests).len() && #[trigger] req_keys(
                        self@.requests,
                    )[j] == *k;
                assert(self.request_states@[j].0 == *k);
            }
        }
        None
    }

    /// `true` when some request already has `h` in flight.
    fn globally_in_flight(&self, h: &TrieHash) -> (b: bool)
        ensures
            b == spec_globally_in_flight(self@.requests, *h),
    {
        let mut i: usize = 0;
        while i < self.request_states.len()
            invariant
                i <= self.request_states@.len(),
                forall|p: int|
                    0 <= p < i ==> !(#[trigger] reqs_view(self.request_states@)[p]).1.in_flight.contains(
                        *h,
                    ),
            decreases self.request_states@.len() - i,
        {
            if self.request_states[i].1.in_flight.contains(h) {
                proof {
                    assert(reqs_view(self.request_states@)[i as int].1.in_flight.contains(*h));
                }
                return true;
            }
            i += 1;
        }
        proof {
            if spec_globally_in_flight(self@.requests, *h) {
                let p = choose|p: int|
                    0 <= p < self@.requests.len() && (#[trigger] self@.requests[p].1).in_flight.contains(
                        *h,
                    );
                assert(!reqs_view(self.request_states@)[p].1.in_flight.contains(*h));
            }
        }
        false
    }

    /// The number of fetches in flight across all requests.
    fn count_in_flight(&self) -> (n: usize)
        requires
            total_in_flight(self@.requests) <= usize::MAX,
        ensures
            n as int == total_in_flight(self@.requests),
    {
        let ghost reqs = self@.requests;
        let mut n: usize = 0;
        let mut i: usize = 0;
        proof {
            lemma_total_nonneg(reqs, 0);
        }
        while i < self.request_states.len()
            invariant
                i <= self.request_states@.len(),
                reqs == self@.requests,
                total_in_flight(self@.requests) <= usize::MAX,
                n + total_in_flight_from(reqs, i as int) == total_in_flight(reqs),
                n <= total_in_flight(reqs),
            decreases self.request_states@.len() - i,
        {
            proof {
                lemma_total_nonneg(reqs, i as int + 1);
                assert(reqs[i as int].1.in_flight == self.request_states@[i as int].1@.in_flight);
            }
            n = n + self.request_states[i].1.in_flight.len();
            i += 1;
        }
        n
    }

    /// The peers of every request whose frontier wants `h`, deduplicated, in
    /// request order.
    fn peers_for(&self, h: &TrieHash) -> (r: Vec<PeerId>)
        ensures
            r@ == spec_peers_for_from(self@.requests, *h, 0, Seq::<PeerId>::empty()),
    {
        let ghost reqs = self@.requests;
        let mut acc = PeerSet::new();
        let mut i: usize = 0;
        while i < self.request_states.len()
            invariant
                i <= self.request_states@.len(),
                reqs == self@.requests,
                acc.wf(),
                spec_peers_for_from(reqs, *h, i as int, acc@) == spec_peers_for_from(
                    reqs,
                    *h,
                    0,
                    Seq::<PeerId>::empty(),
                ),
            decreases self.request_states@.len() - i,
        {
            let ghost acc0 = acc@;
            if self.request_states[i].1.missing_descendants.contains(h) {
                proof {
                    assert(reqs[i as int].1.missing.contains(*h));
                }
                acc.insert_peers(&self.request_states[i].1.peers);
                proof {
                    assert(reqs[i as int].1.peers == self.request_states@[i as int].1@.peers);
                    assert(spec_peers_for_from(reqs, *h, i as int, acc0)
                        == spec_peers_for_from(reqs, *h, i as int + 1, acc@));
                }
            } else {
                proof {
                    assert(!reqs[i as int].1.missing.contains(*h));
                    assert(spec_peers_for_from(reqs, *h, i as int, acc0)
                        == spec_peers_for_from(reqs, *h, i as int + 1, acc@));
                }
            }
            i += 1;
        }
        acc.to_vec()
    }

    /// Returns the keys of every request that references `trie_hash`.
    pub fn affected_block_hashes(&self, trie_hash: &TrieHash) -> (r: Vec<BlockKey>)
        ensures
            r@ == spec_affected_from(self@.requests, *trie_hash, 0),
    {
        let ghost reqs = self@.requests;
        let mut r: Vec<BlockKey> = Vec::new();
        let mut i: usize = 0;
        while i < self.request_states.len()
            invariant
                i <= self.request_states@.len(),
                reqs == self@.requests,
                r@ + spec_affected_from(reqs, *trie_hash, i as int) == spec_affected_from(
                    reqs,
                    *trie_hash,
                    0,
                ),
            decreases self.request_states@.len() - i,
        {
            let ghost before = r@;
            if self.request_states[i].1.is_relevant(trie_hash) {
                proof {
                    assert(spec_is_relevant(reqs[i as int].1, *trie_hash));
                }
                r.push(self.request_states[i].0);
                proof {
                    assert(before + (seq![reqs[i as int].0] + spec_affected_from(
                        reqs,
                        *trie_hash,
                        i as int + 1,
                    )) =~= r@ + spec_affected_from(reqs, *trie_hash, i as int + 1));
                }
            } else {
                proof {
                    assert(!spec_is_relevant(reqs[i as int].1, *trie_hash));
                }
            }
            i += 1;
        }
        proof {
            assert(r@ + spec_affected_from(reqs, *trie_hash, self.request_states@.len() as int)
                =~= r@);
        }
        r
    }

    /// Drops the request registered under `block_hash`, if any, and fires its
    /// callback with `error`.
    fn cancel_request(&mut self, block_hash: BlockKey, error: SyncError) -> (effects: Vec<
        SyncEffect,
    >)
        requires
            unique_seq(req_keys(old(self)@.requests)),
        ensures
            final(self)@.requests == spec_remove_key(old(self)@.requests, block_hash),
            final(self)@.max_parallel == old(self)@.max_parallel,
            final(self).trie_accumulator == old(self).trie_accumulator,
            final(self).max_parallel_trie_fetches == old(self).max_parallel_trie_fetches,
            unique_seq(req_keys(final(self)@.requests)),
            effects_view(effects@) == (if has_key(old(self)@.requests, block_hash) {
                seq![EffectView::Complete { block_key: block_hash, result: Err(error) }]
            } else {
                Seq::<EffectView>::empty()
            }),
    {
        let mut effects: Vec<SyncEffect> = Vec::new();
        match self.find_request(&block_hash) {
            Some(i) => {
                proof {
                    assert(req_keys(self@.requests)[i as int] == block_hash);
                    lemma_key_index(self@.requests, block_hash);
                    self.lemma_remove_request_view(i as int);
                }
                self.request_states.remove(i);
                effects.push(SyncEffect::Complete { block_key: block_hash, result: Err(error) });
                proof {
                    assert(effects_view(effects@) =~= seq![
                        EffectView::Complete { block_key: block_hash, result: Err(error) },
                    ]);
                }
            },
            None => {
                proof {
                    assert(effects_view(effects@) =~= Seq::<EffectView>::empty());
                }
            },
        }
        effects
    }

    /// Drops the request registered under `block_hash`, if any, and fires its
    /// callback successfully.
    fn finish_request(&mut self, block_hash: BlockKey) -> (effects: Vec<SyncEffect>)
        requires
            unique_seq(req_keys(old(self)@.requests)),
        ensures
            final(self)@.requests == spec_remove_key(old(self)@.requests, block_hash),
            final(self)@.max_parallel == old(self)@.max_parallel,
            final(self).trie_accumulator == old(self).trie_accumulator,
            final(self).max_parallel_trie_fetches == old(self).max_parallel_trie_fetches,
            unique_seq(req_keys(final(self)@.requests)),
            effects_view(effects@) == (if has_key(old(self)@.requests, block_hash) {
                seq![EffectView::Complete { block_key: block_hash, result: Ok::<(), SyncError>(()) }]
            } else {
                Seq::<EffectView>::empty()
            }),
    {
        let mut effects: Vec<SyncEffect> = Vec::new();
        match self.find_request(&block_hash) {
            Some(i) => {
                proof {
                    assert(req_keys(self@.requests)[i as int] == block_hash);
                    lemma_key_index(self@.requests, block_hash);
                    self.lemma_remove_request_view(i as int);
                }
                self.request_states.remove(i);
                effects.push(
                    SyncEffect::Complete { block_key: block_hash, result: Ok(()) },
                );
                proof {
                    assert(effects_view(effects@) =~= seq![
                        EffectView::Complete {
                            block_key: block_hash,
                            result: Ok::<(), SyncError>(()),
                        },
                    ]);
                }
            },
            None => {
                proof {
                    assert(effects_view(effects@) =~= Seq::<EffectView>::empty());
                }
            },
        }
        effects
    }

    /// The scheduler.  Runs after every event: collects the settled
    /// requests, dispatches new fetches within the global headroom — walking
    /// the requests in registration order and each frontier in insertion
    /// order, skipping hashes someone is already fetching, letting each
    /// request take the headroom still left when its turn comes — and
    /// finally completes the settled requests with success.
    pub fn parallel_fetch(&mut self) -> (effects: Vec<SyncEffect>)
        requires
            old(self).wf(),
        ensures
            final(self).wf(),
            final(self).trie_accumulator == old(self).trie_accumulator,
            final(self)@ == spec_parallel_fetch(old(self)@).0,
            effects_view(effects@) == spec_parallel_fetch(old(self)@).1,
    {
        let ghost s0 = self@;
        let ghost reqs0 = self@.requests;
        proof {
            lemma_total_nonneg(reqs0, 0);
        }
        let total = self.count_in_flight();
        let mut budget: usize = if total <= self.max_parallel_trie_fetches {
            self.max_parallel_trie_fetches - total
        } else {
            0
        };
        let ghost budget0 = budget as int;
        // collect the settled requests before dispatching; dispatching never
        // settles or unsettles a request
        let mut finished: Vec<BlockKey> = Vec::new();
        let mut i: usize = 0;
        while i < self.request_states.len()
            invariant
                i <= self.request_states@.len(),
                reqs0 == self@.requests,
                finished@ + spec_finished_from(reqs0, i as int) == spec_finished_from(reqs0, 0),
            decreases self.request_states@.len() - i,
        {
            let ghost before = finished@;
            if self.request_states[i].1.missing_descendants.is_empty()
                && self.request_states[i].1.in_flight.is_empty() {
                proof {
                    assert(spec_settled(reqs0[i as int].1));
                }
                finished.push(self.request_states[i].0);
                proof {
                    assert(before + (seq![reqs0[i as int].0] + spec_finished_from(
                        reqs0,
                        i as int + 1,
                    )) =~= finished@ + spec_finished_from(reqs0, i as int + 1));
                }
            } else {
                proof {
                    assert(!spec_settled(reqs0[i as int].1));
                }
            }
            i += 1;
        }
        proof {
            assert(finished@ + spec_finished_from(reqs0, reqs0.len() as int) =~= finished@);
            assert(finished@ == spec_finished_from(reqs0, 0));
        }
        // dispatch pass
        let mut effects: Vec<SyncEffect> = Vec::new();
        let ghost full_d = spec_dispatch_all(reqs0, 0, budget0);
        let mut i: usize = 0;
        while i < self.request_states.len()
            invariant
                i <= self.request_states@.len(),
                self.request_states@.len() == reqs0.len(),
                self.max_parallel_trie_fetches == old(self).max_parallel_trie_fetches,
                self.trie_accumulator == old(self).trie_accumulator,
                forall|p: int|
                    0 <= p < self@.requests.len() ==> unique_seq(
                        (#[trigger] self@.requests[p]).1.missing,
                    ) && unique_seq(self@.requests[p].1.in_flight),
                ({
                    let rem = spec_dispatch_all(self@.requests, i as int, budget as int);
                    rem.0 == full_d.0 && effects_view(effects@) + rem.1 == full_d.1 && rem.2
                        == full_d.2
                }),
            decreases self.request_states@.len() - i,
        {
            let ghost reqs_i = self@.requests;
            let ghost b_i = budget as int;
            let ghost e_i = effects@.len() as int;
            let ghost effects_pre = effects@;
            let ghost fulli = spec_dispatch_req(reqs_i, i as int, reqs_i[i as int].1, 0, b_i);
            proof {
                assert(forall|p: int|
                    0 <= p < reqs_i.len() ==> unique_seq((#[trigger] reqs_i[p]).1.missing)
                        && unique_seq(reqs_i[p].1.in_flight));
                let rem = spec_dispatch_all(reqs_i, i as int, b_i);
                assert(rem.0 == full_d.0 && effects_view(effects_pre) + rem.1 == full_d.1
                    && rem.2 == full_d.2);
            }
            let mut j: usize = 0;
            while budget > 0 && j < self.request_states[i].1.missing_descendants.len()
                invariant
                    i < reqs_i.len(),
                    self.request_states@.len() == reqs_i.len(),
                    self.max_parallel_trie_fetches == old(self).max_parallel_trie_fetches,
                    self.trie_accumulator == old(self).trie_accumulator,
                    forall|p: int|
                        0 <= p < self@.requests.len() && p != i ==> (#[trigger] self@.requests[p])
                            == reqs_i[p],
                    forall|p: int|
                        0 <= p < reqs_i.len() ==> unique_seq((#[trigger] reqs_i[p]).1.missing)
                            && unique_seq(reqs_i[p].1.in_flight),
                    self@.requests[i as int].0 == reqs_i[i as int].0,
                    unique_seq(self@.requests[i as int].1.missing),
                    unique_seq(self@.requests[i as int].1.in_flight),
                    j <= self@.requests[i as int].1.missing.len(),
                    0 <= e_i,
                    effects@.len() >= e_i,
                    effects@.take(e_i) == effects_pre,
                    ({
                        let rem = spec_dispatch_req(
                            reqs_i,
                            i as int,
                            self@.requests[i as int].1,
                            j as int,
                            budget as int,
                        );
                        rem.0 == fulli.0 && effects_view(effects@.skip(e_i)) + rem.1 == fulli.1
                            && rem.2 == fulli.2
                    }),
                decreases self@.requests[i as int].1.missing.len() - j,
            {
                let ghost reqs_start = self@.requests;
                let ghost effects_start = effects@;
                let ghost b_start = budget as int;
                let ghost r_cur = reqs_start[i as int].1;
                proof {
                    assert(forall|p: int|
                        0 <= p < reqs_start.len() && p != i ==> (#[trigger] reqs_start[p])
                            == reqs_i[p]);
                    assert(reqs_start[i as int].0 == reqs_i[i as int].0);
                    assert(effects_start.len() >= e_i);
                    assert(effects_start.take(e_i) == effects_pre);
                    assert(unique_seq(r_cur.missing) && unique_seq(r_cur.in_flight));
                    let rem = spec_dispatch_req(reqs_i, i as int, r_cur, j as int, b_start);
                    assert(rem.0 == fulli.0 && effects_view(effects_start.skip(e_i)) + rem.1
                        == fulli.1 && rem.2 == fulli.2);
                    assert(reqs_i.update(i as int, (reqs_i[i as int].0, r_cur)) =~= reqs_start);
                }
                let h = self.request_states[i].1.missing_descendants.get(j);
                proof {
                    assert(h == r_cur.missing[j as int]);
                }
                if self.globally_in_flight(&h) {
                    proof {
                        assert(spec_globally_in_flight(reqs_start, h));
                        assert(spec_globally_in_flight(
                            reqs_i.update(i as int, (reqs_i[i as int].0, r_cur)),
                            h,
                        ));
                        assert(spec_dispatch_req(reqs_i, i as int, r_cur, j as int, b_start)
                            == spec_dispatch_req(reqs_i, i as int, r_cur, j as int + 1, b_start));
                    }
                    j += 1;
                } else {
                    let peers = self.peers_for(&h);
                    let ghost peers_v = peers@;
                    let ghost cur = reqs_i.update(i as int, (reqs_i[i as int].0, r_cur));
                    proof {
                        assert(!spec_globally_in_flight(reqs_start, h));
                        assert(cur =~= reqs_start);
                        assert(!spec_globally_in_flight(cur, h));
                        assert(peers_v == spec_peers_for_from(
                            reqs_start,
                            h,
                            0,
                            Seq::<PeerId>::empty(),
                        ));
                        assert(spec_peers_for_from(cur, h, 0, Seq::<PeerId>::empty()) == peers_v);
                        assert(cur[i as int].1.in_flight == r_cur.in_flight);
                        assert(!r_cur.in_flight.contains(h)) by {
                            if r_cur.in_flight.contains(h) {
                                assert(cur[i as int].1.in_flight.contains(h));
                            }
                        }
                    }
                    let eff = SyncEffect::FetchTrie { trie_hash: h, peers };
                    let ghost pushed = eff;
                    proof {
                        assert(pushed@ == (EffectView::FetchTrie {
                            trie_hash: h,
                            peers: peers_v,
                        }));
                    }
                    effects.push(eff);
                    self.request_states[i].1.in_flight.insert(h);
                    self.request_states[i].1.missing_descendants.remove_at(j);
                    budget -= 1;
                    proof {
                        let r2 = ReqView {
                            missing: r_cur.missing.remove(j as int),
                            in_flight: r_cur.in_flight.push(h),
                            peers: r_cur.peers,
                        };
                        assert(effects@ == effects_start.push(pushed));
                        assert(self@.requests[i as int].1.missing == r_cur.missing.remove(
                            j as int,
                        ));
                        assert(self@.requests[i as int].1.in_flight == r_cur.in_flight.push(h));
                        assert(self@.requests[i as int].1.peers == r_cur.peers);
                        assert(self@.requests[i as int].1 == r2);
                        assert(self@.requests[i as int].0 == reqs_i[i as int].0);
                        assert(forall|p: int|
                            0 <= p < reqs_start.len() && p != i ==> (#[trigger] self@.requests[p])
                                == reqs_start[p]);
                        assert(self@.requests =~= reqs_i.update(
                            i as int,
                            (reqs_i[i as int].0, r2),
                        )) by {
                            assert forall|p: int|
                                0 <= p < self@.requests.len() implies self@.requests[p]
                                == reqs_i.update(i as int, (reqs_i[i as int].0, r2))[p] by {
                                if p == i {
                                    assert(self@.requests[p] == (
                                        self.request_states@[p].0,
                                        self.request_states@[p].1@,
                                    ));
                                } else {
                                    assert(self@.requests[p] == reqs_start[p]);
                                    assert(reqs_start[p] == reqs_i[p]);
                                }
                            }
                        }
                        // one unfolding of the pick case of the recursion
                        let rec = spec_dispatch_req(reqs_i, i as int, r2, j as int, budget as int);
                        assert(b_start == budget as int + 1);
                        assert(spec_dispatch_req(reqs_i, i as int, r_cur, j as int, b_start) == (
                            rec.0,
                            seq![
                                EffectView::FetchTrie {
                                    trie_hash: h,
                                    peers: spec_peers_for_from(cur, h, 0, Seq::<PeerId>::empty()),
                                },
                            ] + rec.1,
                            rec.2,
                        ));
                        // effect-sequence algebra against the pinned snapshots
                        assert(effects@.skip(e_i) =~= effects_start.skip(e_i).push(pushed)) by {
                            assert forall|p: int|
                                0 <= p < effects@.skip(e_i).len() implies effects@.skip(e_i)[p]
                                == effects_start.skip(e_i).push(pushed)[p] by {
                                if p < effects_start.skip(e_i).len() {
                                    assert(effects@.skip(e_i)[p] == effects_start[e_i + p]);
                                }
                            }
                        }
                        assert(effects_view(effects@.skip(e_i)) =~= effects_view(
                            effects_start.skip(e_i),
                        ).push(
                            EffectView::FetchTrie { trie_hash: h, peers: peers_v },
                        ));
                        assert(effects_view(effects_start.skip(e_i)) + (seq![
                            EffectView::FetchTrie { trie_hash: h, peers: peers_v },
                        ] + rec.1) =~= effects_view(effects@.skip(e_i)) + rec.1);
                        assert(effects@.take(e_i) =~= effects_start.take(e_i)) by {
                            assert forall|p: int|
                                0 <= p < e_i implies effects@.take(e_i)[p] == effects_start.take(
                                e_i,
                            )[p] by {
                                assert(effects@[p] == effects_start[p]);
                            }
                        }
                        assert(effects@.take(e_i) == effects_pre);
                    }
                }
            }
            proof {
                let r_end = self@.requests[i as int].1;
                assert(spec_dispatch_req(reqs_i, i as int, r_end, j as int, budget as int) == (
                    r_end,
                    Seq::<EffectView>::empty(),
                    budget as int,
                ));
                assert(effects_view(effects@.skip(e_i)) + Seq::<EffectView>::empty()
                    =~= effects_view(effects@.skip(e_i)));
                assert(fulli.0 == r_end && fulli.1 == effects_view(effects@.skip(e_i)) && fulli.2
                    == budget as int);
                // one unfolding of the outer dispatch recursion
                assert(self@.requests =~= reqs_i.update(i as int, (reqs_i[i as int].0, r_end)))
                    by {
                    assert forall|p: int|
                        0 <= p < self@.requests.len() implies self@.requests[p] == reqs_i.update(
                        i as int,
                        (reqs_i[i as int].0, r_end),
                    )[p] by {
                        if p == i {
                            assert(self@.requests[p] == (
                                self.request_states@[p].0,
                                self.request_states@[p].1@,
                            ));
                        }
                    }
                }
                let rem_next = spec_dispatch_all(self@.requests, i as int + 1, budget as int);
                assert(spec_dispatch_all(reqs_i, i as int, b_i) == (
                    rem_next.0,
                    fulli.1 + rem_next.1,
                    rem_next.2,
                ));
                assert(effects_view(effects@) =~= effects_view(effects_pre) + effects_view(
                    effects@.skip(e_i),
                )) by {
                    assert(effects@.take(e_i) == effects_pre);
                    assert forall|p: int|
                        0 <= p < effects@.len() implies effects_view(effects@)[p] == (
                        effects_view(effects_pre) + effects_view(effects@.skip(e_i)))[p] by {
                        if p < e_i {
                            assert(effects@[p] == effects@.take(e_i)[p]);
                        } else {
                            assert(effects@.skip(e_i)[p - e_i] == effects@[p]);
                        }
                    }
                }
                assert(effects_view(effects_pre) + (fulli.1 + rem_next.1) =~= effects_view(
                    effects@,
                ) + rem_next.1);
            }
            i += 1;
        }
        proof {
            assert(spec_dispatch_all(self@.requests, self.request_states@.len() as int, budget as int)
                == (self@.requests, Seq::<EffectView>::empty(), budget as int));
            assert(effects_view(effects@) + Seq::<EffectView>::empty() =~= effects_view(
                effects@,
            ));
            assert(full_d.0 == self@.requests && full_d.1 == effects_view(effects@));
            lemma_dispatch_all(reqs0, 0, budget0);
        }
        // completions of the settled requests
        let ghost reqs_d = self@.requests;
        let ghost full_c = spec_complete_list(reqs_d, finished@, 0, Ok(()));
        let mut n: usize = 0;
        while n < finished.len()
            invariant
                n <= finished@.len(),
                unique_seq(req_keys(self@.requests)),
                self.max_parallel_trie_fetches == old(self).max_parallel_trie_fetches,
                self.trie_accumulator == old(self).trie_accumulator,
                ({
                    let remc = spec_complete_list(self@.requests, finished@, n as int, Ok(()));
                    remc.0 == full_c.0 && effects_view(effects@) + remc.1 == full_d.1 + full_c.1
                }),
            decreases finished@.len() - n,
        {
            let ghost reqs_n = self@.requests;
            let ghost effects_n = effects@;
            let k = finished[n];
            let mut more = self.finish_request(k);
            proof {
                assert(more@.len() <= 1);
            }
            effects.append(&mut more);
            proof {
                let stepped = spec_remove_key(reqs_n, k);
                if has_key(reqs_n, k) {
                    assert(self@.requests == stepped);
                    assert(effects_view(effects@) =~= effects_view(effects_n) + seq![
                        EffectView::Complete {
                            block_key: k,
                            result: Ok::<(), SyncError>(()),
                        },
                    ]) by {
                        assert forall|p: int|
                            0 <= p < effects@.len() implies effects_view(effects@)[p] == (
                            effects_view(effects_n) + seq![
                                EffectView::Complete {
                                    block_key: k,
                                    result: Ok::<(), SyncError>(()),
                                },
                            ])[p] by {}
                    }
                    assert(effects_view(effects_n) + (seq![
                        EffectView::Complete { block_key: k, result: Ok::<(), SyncError>(()) },
                    ] + spec_complete_list(self@.requests, finished@, n as int + 1, Ok(())).1)
                        =~= effects_view(effects@) + spec_complete_list(
                        self@.requests,
                        finished@,
                        n as int + 1,
                        Ok(()),
                    ).1);
                } else {
                    assert(self@.requests == reqs_n);
                    assert(effects_view(effects@) =~= effects_view(effects_n));
                    assert(effects_view(effects_n) + (Seq::<EffectView>::empty()
                        + spec_complete_list(self@.requests, finished@, n as int + 1, Ok(())).1)
                        =~= effects_view(effects@) + spec_complete_list(
                        self@.requests,
                        finished@,
                        n as int + 1,
                        Ok(()),
                    ).1);
                }
            }
            n += 1;
        }
        proof {
            assert(spec_complete_list(self@.requests, finished@, finished@.len() as int, Ok(()))
                == (self@.requests, Seq::<EffectView>::empty()));
            assert(effects_view(effects@) + Seq::<EffectView>::empty() =~= effects_view(
                effects@,
            ));
            assert(full_c.0 == self@.requests);
            assert(effects_view(effects@) == full_d.1 + full_c.1);
            assert(spec_parallel_fetch(s0).0 =~= self@);
            assert(spec_parallel_fetch(s0).1 == effects_view(effects@));
            lemma_parallel_fetch_preserves(s0);
        }
        effects
    }

    /// Handles one caller request: a new block key registers a fresh request
    /// whose frontier is the state root; a known key merges the new peers
    /// into the existing request (no second callback is registered).  The
    /// scheduler then runs.
    pub fn handle_request(&mut self, request: SyncRequest) -> (effects: Vec<SyncEffect>)
        requires
            old(self).wf(),
        ensures
            final(self).wf(),
            final(self).trie_accumulator == old(self).trie_accumulator,
            final(self)@ == spec_handle_request(
                old(self)@,
                request.block_key,
                request.state_root_hash,
                request.peers@,
            ).0,
            effects_view(effects@) == spec_handle_request(
                old(self)@,
                request.block_key,
                request.state_root_hash,
                request.peers@,
            ).1,
    {
        let ghost s0 = self@;
        let ghost submitted = spec_submit(
            s0.requests,
            request.block_key,
            request.state_root_hash,
            request.peers@,
        );
        proof {
            lemma_submit(s0.requests, request.block_key, request.state_root_hash, request.peers@);
        }
        let bk = request.block_key;
        let ghost k = request.block_key;
        let ghost new_peers = request.peers@;
        match self.find_request(&bk) {
            Some(i) => {
                proof {
                    assert(req_keys(self@.requests)[i as int] == k);
                    assert(has_key(s0.requests, k));
                    lemma_key_index(s0.requests, k);
                    assert(i as int == key_index(s0.requests, k));
                }
                let ghost r_old = self@.requests[i as int].1;
                self.request_states[i].1.peers.insert_all(&request.peers);
                proof {
                    assert(self@.requests[i as int].1.peers == dedup_append(r_old.peers, new_peers));
                    assert(self@.requests =~= submitted) by {
                        assert forall|p: int|
                            0 <= p < self@.requests.len() implies self@.requests[p]
                            == submitted[p] by {
                            if p == i {
                                assert(self@.requests[p] == (
                                    self.request_states@[p].0,
                                    self.request_states@[p].1@,
                                ));
                            } else {
                                assert(self@.requests[p] == s0.requests[p]);
                            }
                        }
                    }
                }
            },
            None => {
                let state = RequestState::new(request);
                let ghost ks = self@.requests;
                self.request_states.push((bk, state));
                proof {
                    assert(self@.requests =~= submitted) by {
                        assert forall|p: int|
                            0 <= p < self@.requests.len() implies self@.requests[p]
                            == submitted[p] by {
                            assert(self@.requests[p] == (
                                self.request_states@[p].0,
                                self.request_states@[p].1@,
                            ));
                            if p < ks.len() {
                                assert(ks[p] == s0.requests[p]);
                            }
                        }
                    }
                }
            },
        }
        proof {
            assert(self@ =~= (SyncView { max_parallel: s0.max_parallel, requests: submitted }));
            assert(sync_wf(self@));
        }
        self.parallel_fetch()
    }

    /// Handles the accumulator's outcome for one fetched node: sound bytes
    /// are handed to the store; a fetch error fails exactly the requests
    /// whose frontier or in-flight set references the hash, and no others.
    pub fn handle_fetched_trie(
        &mut self,
        trie_hash: TrieHash,
        trie_accumulator_result: Result<TrieBytes, TrieAccumulatorError>,
    ) -> (effects: Vec<SyncEffect>)
        requires
            old(self).wf(),
        ensures
            final(self).wf(),
            final(self).trie_accumulator == old(self).trie_accumulator,
            final(self)@ == spec_handle_fetched(old(self)@, trie_hash, trie_accumulator_result).0,
            effects_view(effects@) == spec_handle_fetched(
                old(self)@,
                trie_hash,
                trie_accumulator_result,
            ).1,
    {
        let ghost s0 = self@;
        match trie_accumulator_result {
            Ok(trie_raw) => {
                let ghost bytes_v = trie_raw@;
                let mut effects: Vec<SyncEffect> = Vec::new();
                effects.push(SyncEffect::PutTrie { trie_hash, trie_bytes: trie_raw });
                proof {
                    assert(effects_view(effects@) =~= seq![
                        EffectView::PutTrie { trie_hash, trie_bytes: bytes_v },
                    ]);
                }
                effects
            },
            Err(error) => {
                let err = SyncError::TrieAccumulator(error);
                let canceled = self.affected_block_hashes(&trie_hash);
                let ghost aff = canceled@;
                let ghost full_c = spec_complete_list(s0.requests, aff, 0, Err(err));
                let mut effects: Vec<SyncEffect> = Vec::new();
                let mut n: usize = 0;
                proof {
                    assert(effects_view(effects@) =~= Seq::<EffectView>::empty());
                }
                while n < canceled.len()
                    invariant
                        n <= aff.len(),
                        canceled@ == aff,
                        unique_seq(req_keys(self@.requests)),
                        self.max_parallel_trie_fetches == old(self).max_parallel_trie_fetches,
                        self.trie_accumulator == old(self).trie_accumulator,
                        ({
                            let remc = spec_complete_list(
                                self@.requests,
                                aff,
                                n as int,
                                Err(err),
                            );
                            remc.0 == full_c.0 && effects_view(effects@) + remc.1 == full_c.1
                        }),
                    decreases aff.len() - n,
                {
                    let ghost reqs_n = self@.requests;
                    let ghost effects_n = effects@;
                    let k = canceled[n];
                    let mut more = self.cancel_request(k, err);
                    effects.append(&mut more);
                    proof {
                        if has_key(reqs_n, k) {
                            assert(effects_view(effects@) =~= effects_view(effects_n) + seq![
                                EffectView::Complete { block_key: k, result: Err(err) },
                            ]) by {
                                assert forall|p: int|
                                    0 <= p < effects@.len() implies effects_view(effects@)[p] == (
                                    effects_view(effects_n) + seq![
                                        EffectView::Complete { block_key: k, result: Err(err) },
                                    ])[p] by {}
                            }
                            assert(effects_view(effects_n) + (seq![
                                EffectView::Complete { block_key: k, result: Err(err) },
                            ] + spec_complete_list(self@.requests, aff, n as int + 1, Err(err)).1)
                                =~= effects_view(effects@) + spec_complete_list(
                                self@.requests,
                                aff,
                                n as int + 1,
                                Err(err),
                            ).1);
                        } else {
                            assert(effects_view(effects@) =~= effects_view(effects_n));
                            assert(effects_view(effects_n) + (Seq::<EffectView>::empty()
                                + spec_complete_list(
                                self@.requests,
                                aff,
                                n as int + 1,
                                Err(err),
                            ).1) =~= effects_view(effects@) + spec_complete_list(
                                self@.requests,
                                aff,
                                n as int + 1,
                                Err(err),
                            ).1);
                        }
                    }
                    n += 1;
                }
                proof {
                    assert(spec_complete_list(self@.requests, aff, aff.len() as int, Err(err))
                        == (self@.requests, Seq::<EffectView>::empty()));
                    assert(effects_view(effects@) + Seq::<EffectView>::empty() =~= effects_view(
                        effects@,
                    ));
                    assert(full_c.0 == self@.requests && full_c.1 == effects_view(effects@));
                    lemma_affected_from(s0.requests, trie_hash, 0);
                    lemma_complete_list(s0.requests, aff, 0, Err(err));
                    lemma_total_nonneg(s0.requests, 0);
                    assert(self@ =~= (SyncView {
                        max_parallel: s0.max_parallel,
                        requests: full_c.0,
                    }));
                    assert(sync_wf(self@));
                }
                let mut scheduled = self.parallel_fetch();
                let ghost effects_c = effects@;
                let ghost sched_v = scheduled@;
                effects.append(&mut scheduled);
                proof {
                    assert(effects_view(effects@) =~= effects_view(effects_c) + effects_view(
                        sched_v,
                    )) by {
                        assert forall|p: int|
                            0 <= p < effects@.len() implies effects_view(effects@)[p] == (
                            effects_view(effects_c) + effects_view(sched_v))[p] by {}
                    }
                }
                effects
            },
        }
    }

    /// Handles the store's outcome for one inserted node: success removes
    /// the hash from every request that references it and enqueues the newly
    /// exposed missing children; a store error fails exactly those requests.
    /// The scheduler then runs.
    pub fn handle_put_trie_result(
        &mut self,
        trie_hash: TrieHash,
        put_trie_result: Result<Vec<TrieHash>, StoreError>,
    ) -> (effects: Vec<SyncEffect>)
        requires
            old(self).wf(),
        ensures
            final(self).wf(),
            final(self).trie_accumulator == old(self).trie_accumulator,
            final(self)@ == spec_handle_put_trie(old(self)@, trie_hash, put_trie_result).0,
            effects_view(effects@) == spec_handle_put_trie(
                old(self)@,
                trie_hash,
                put_trie_result,
            ).1,
    {
        let ghost s0 = self@;
        let block_hashes = self.affected_block_hashes(&trie_hash);
        let ghost aff = block_hashes@;
        match put_trie_result {
            Ok(missing_descendants) => {
                let ghost children_v = missing_descendants@;
                let ghost full_a = spec_apply_list(s0.requests, aff, 0, trie_hash, children_v);
                let mut n: usize = 0;
                while n < block_hashes.len()
                    invariant
                        n <= aff.len(),
                        block_hashes@ == aff,
                        missing_descendants@ == children_v,
                        unique_seq(req_keys(self@.requests)),
                        self.max_parallel_trie_fetches == old(self).max_parallel_trie_fetches,
                        self.trie_accumulator == old(self).trie_accumulator,
                        forall|p: int|
                            0 <= p < self@.requests.len() ==> req_wf(
                                (#[trigger] self@.requests[p]).1,
                            ),
                        spec_apply_list(self@.requests, aff, n as int, trie_hash, children_v)
                            == full_a,
                    decreases aff.len() - n,
                {
                    let ghost reqs_n = self@.requests;
                    let k = block_hashes[n];
                    match self.find_request(&k) {
                        Some(ix) => {
                            proof {
                                assert(req_keys(reqs_n)[ix as int] == k);
                                assert(has_key(reqs_n, k));
                                lemma_key_index(reqs_n, k);
                                assert(ix as int == key_index(reqs_n, k));
                                lemma_apply_insert(reqs_n[ix as int].1, trie_hash, children_v);
                            }
                            let ghost r_old = self@.requests[ix as int].1;
                            self.request_states[ix].1.add_missing_descendants(
                                &missing_descendants,
                            );
                            self.request_states[ix].1.in_flight.remove(&trie_hash);
                            self.request_states[ix].1.missing_descendants.remove(&trie_hash);
                            proof {
                                let r2 = spec_apply_insert(r_old, trie_hash, children_v);
                                assert(self@.requests[ix as int].1.missing == r2.missing);
                                assert(self@.requests[ix as int].1.in_flight == r2.in_flight);
                                assert(self@.requests[ix as int].1.peers == r2.peers);
                                assert(self@.requests[ix as int].1 == r2);
                                assert(self@.requests =~= reqs_n.update(ix as int, (k, r2))) by {
                                    assert forall|p: int|
                                        0 <= p < self@.requests.len() implies self@.requests[p]
                                        == reqs_n.update(ix as int, (k, r2))[p] by {
                                        assert(self@.requests[p] == (
                                            self.request_states@[p].0,
                                            self.request_states@[p].1@,
                                        ));
                                        if p != ix {
                                            assert(self@.requests[p] == reqs_n[p]);
                                        }
                                    }
                                }
                                assert(req_keys(self@.requests) =~= req_keys(reqs_n));
                            }
                        },
                        None => {
                            proof {
                                assert(!has_key(reqs_n, k));
                            }
                        },
                    }
                    n += 1;
                }
                proof {
                    assert(spec_apply_list(
                        self@.requests,
                        aff,
                        aff.len() as int,
                        trie_hash,
                        children_v,
                    ) == self@.requests);
                    assert(full_a == self@.requests);
                    lemma_affected_from(s0.requests, trie_hash, 0);
                    lemma_apply_list(s0.requests, aff, 0, trie_hash, children_v);
                    lemma_total_nonneg(s0.requests, 0);
                    assert(self@ =~= (SyncView {
                        max_parallel: s0.max_parallel,
                        requests: full_a,
                    }));
                    assert(sync_wf(self@));
                }
                self.parallel_fetch()
            },
            Err(error) => {
                let err = SyncError::PutTrie(error);
                let ghost full_c = spec_complete_list(s0.requests, aff, 0, Err(err));
                let mut effects: Vec<SyncEffect> = Vec::new();
                let mut n: usize = 0;
                proof {
                    assert(effects_view(effects@) =~= Seq::<EffectView>::empty());
                }
                while n < block_hashes.len()
                    invariant
                        n <= aff.len(),
                        block_hashes@ == aff,
                        unique_seq(req_keys(self@.requests)),
                        self.max_parallel_trie_fetches == old(self).max_parallel_trie_fetches,
                        self.trie_accumulator == old(self).trie_accumulator,
                        ({
                            let remc = spec_complete_list(
                                self@.requests,
                                aff,
                                n as int,
                                Err(err),
                            );
                            remc.0 == full_c.0 && effects_view(effects@) + remc.1 == full_c.1
                        }),
                    decreases aff.len() - n,
                {
                    let ghost reqs_n = self@.requests;
                    let ghost effects_n = effects@;
                    let k = block_hashes[n];
                    let mut more = self.cancel_request(k, err);
                    effects.append(&mut more);
                    proof {
                        if has_key(reqs_n, k) {
                            assert(effects_view(effects@) =~= effects_view(effects_n) + seq![
                                EffectView::Complete { block_key: k, result: Err(err) },
                            ]) by {
                                assert forall|p: int|
                                    0 <= p < effects@.len() implies effects_view(effects@)[p] == (
                                    effects_view(effects_n) + seq![
                                        EffectView::Complete { block_key: k, result: Err(err) },
                                    ])[p] by {}
                            }
                            assert(effects_view(effects_n) + (seq![
                                EffectView::Complete { block_key: k, result: Err(err) },
                            ] + spec_complete_list(self@.requests, aff, n as int + 1, Err(err)).1)
                                =~= effects_view(effects@) + spec_complete_list(
                                self@.requests,
                                aff,
                                n as int + 1,
                                Err(err),
                            ).1);
                        } else {
                            assert(effects_view(effects@) =~= effects_view(effects_n));
                            assert(effects_view(effects_n) + (Seq::<EffectView>::empty()
                                + spec_complete_list(
                                self@.requests,
                                aff,
                                n as int + 1,
                                Err(err),
                            ).1) =~= effects_view(effects@) + spec_complete_list(
                                self@.requests,
                                aff,
                                n as int + 1,
                                Err(err),
                            ).1);
                        }
                    }
                    n += 1;
                }
                proof {
                    assert(spec_complete_list(self@.requests, aff, aff.len() as int, Err(err))
                        == (self@.requests, Seq::<EffectView>::empty()));
                    assert(effects_view(effects@) + Seq::<EffectView>::empty() =~= effects_view(
                        effects@,
                    ));
                    assert(full_c.0 == self@.requests && full_c.1 == effects_view(effects@));
                    lemma_affected_from(s0.requests, trie_hash, 0);
                    lemma_complete_list(s0.requests, aff, 0, Err(err));
                    lemma_total_nonneg(s0.requests, 0);
                    assert(self@ =~= (SyncView {
                        max_parallel: s0.max_parallel,
                        requests: full_c.0,
                    }));
                    assert(sync_wf(self@));
                }
                let mut scheduled = self.parallel_fetch();
                let ghost effects_c = effects@;
                let ghost sched_v = scheduled@;
                effects.append(&mut scheduled);
                proof {
                    assert(effects_view(effects@) =~= effects_view(effects_c) + effects_view(
                        sched_v,
                    )) by {
                        assert forall|p: int|
                            0 <= p < effects@.len() implies effects_view(effects@)[p] == (
                            effects_view(effects_c) + effects_view(sched_v))[p] by {}
                    }
                }
                effects
            },
        }
    }

    /// Reacts to one event: a caller request, a fetched node, a store
    /// result, or an event for the embedded accumulator, which is forwarded
    /// unchanged and whose effects come back wrapped.
    pub fn handle_event(&mut self, event: Event) -> (effects: Vec<SyncEffect>)
        requires
            old(self).wf(),
        ensures
            final(self).wf(),
            match event {
                Event::Request(request) => final(self).trie_accumulator == old(self).trie_accumulator && final(self)@ == spec_handle_request(
                    old(self)@,
                    request.block_key,
                    request.state_root_hash,
                    request.peers@,
                ).0 && effects_view(effects@) == spec_handle_request(
                    old(self)@,
                    request.block_key,
                    request.state_root_hash,
                    request.peers@,
                ).1,
                Event::FetchedTrie { trie_hash, trie_accumulator_result } => final(self).trie_accumulator == old(self).trie_accumulator && final(self)@
                    == spec_handle_fetched(old(self)@, trie_hash, trie_accumulator_result).0
                    && effects_view(effects@) == spec_handle_fetched(
                    old(self)@,
                    trie_hash,
                    trie_accumulator_result,
                ).1,
                Event::PutTrieResult { trie_hash, put_trie_result } => final(self).trie_accumulator == old(self).trie_accumulator && final(self)@
                    == spec_handle_put_trie(old(self)@, trie_hash, put_trie_result).0
                    && effects_view(effects@) == spec_handle_put_trie(
                    old(self)@,
                    trie_hash,
                    put_trie_result,
                ).1,
                Event::TrieAccumulatorEvent(ev) => final(self)@ == old(self)@ && (forall|p: int|
                    0 <= p < effects@.len() ==> ((#[trigger] effects@[p])
                        matches SyncEffect::TrieAccumulator(e)
                        && crate::accumulator::effect_integrity(e))) && (match ev {
                    TrieAccumulatorEvent::Fetch { trie_hash, peers } => crate::accumulator::spec_fetch_post(
                        old(self).trie_accumulator,
                        final(self).trie_accumulator,
                        trie_hash,
                        peers@,
                        unwrap_acc_effects(effects@),
                    ),
                    TrieAccumulatorEvent::Response { trie_hash, peer, response } => crate::accumulator::spec_response_post(
                        old(self).trie_accumulator,
                        final(self).trie_accumulator,
                        trie_hash,
                        peer,
                        response,
                        unwrap_acc_effects(effects@),
                    ),
                }),
            },
    {
        match event {
            Event::Request(request) => self.handle_request(request),
            Event::FetchedTrie { trie_hash, trie_accumulator_result } => self.handle_fetched_trie(
                trie_hash,
                trie_accumulator_result,
            ),
            Event::PutTrieResult { trie_hash, put_trie_result } => self.handle_put_trie_result(
                trie_hash,
                put_trie_result,
            ),
            Event::TrieAccumulatorEvent(acc_event) => {
                let mut rest = self.trie_accumulator.handle_event(acc_event);
                let ghost inner_v = rest@;
                let mut wrapped: Vec<SyncEffect> = Vec::new();
                while rest.len() > 0
                    invariant
                        wrapped@.len() + rest@.len() == inner_v.len(),
                        rest@ == inner_v.skip(wrapped@.len() as int),
                        forall|p: int|
                            0 <= p < inner_v.len() ==> crate::accumulator::effect_integrity(
                                #[trigger] inner_v[p],
                            ),
                        forall|p: int|
                            0 <= p < wrapped@.len() ==> (#[trigger] wrapped@[p])
                                == SyncEffect::TrieAccumulator(inner_v[p]),
                    decreases rest@.len(),
                {
                    let ghost w = wrapped@.len() as int;
                    let e = rest.remove(0);
                    proof {
                        assert(e == inner_v.skip(w)[0]);
                        assert(inner_v.skip(w)[0] == inner_v[w]);
                        assert(crate::accumulator::effect_integrity(e));
                    }
                    wrapped.push(SyncEffect::TrieAccumulator(e));
                    proof {
                        assert(rest@ =~= inner_v.skip(wrapped@.len() as int));
                    }
                }
                proof {
                    assert(wrapped@.len() == inner_v.len());
                    assert(unwrap_acc_effects(wrapped@) =~= inner_v) by {
                        assert forall|p: int|
                            0 <= p < wrapped@.len() implies unwrap_acc_effects(wrapped@)[p]
                            == inner_v[p] by {
                            assert(wrapped@[p] == SyncEffect::TrieAccumulator(inner_v[p]));
                        }
                    }
                    assert forall|p: int|
                        0 <= p < wrapped@.len() implies ((#[trigger] wrapped@[p])
                            matches SyncEffect::TrieAccumulator(e)
                            && crate::accumulator::effect_integrity(e)) by {
                        assert(wrapped@[p] == SyncEffect::TrieAccumulator(inner_v[p]));
                        assert(crate::accumulator::effect_integrity(inner_v[p]));
                    }
                }
                wrapped
            },
        }
    }

    /// Removing entry `i` of the vector removes entry `i` of the view, and
    /// keeps the remaining keys unique.
    proof fn lemma_remove_request_view(&self, i: int)
        requires
            0 <= i < self.request_states@.len(),
            unique_seq(req_keys(self@.requests)),
        ensures
            reqs_view(self.request_states@.remove(i)) == self@.requests.remove(i),
            unique_seq(req_keys(self@.requests.remove(i))),
            forall|kk: BlockKey|
                kk != self@.requests[i].0 ==> #[trigger] has_key(self@.requests.remove(i), kk)
                    == has_key(self@.requests, kk),
            !has_key(self@.requests.remove(i), self@.requests[i].0),
    {
        let reqs = self@.requests;
        assert(reqs_view(self.request_states@.remove(i)) =~= reqs.remove(i)) by {
            assert forall|p: int|
                0 <= p < reqs.remove(i).len() implies reqs_view(self.request_states@.remove(i))[p]
                == reqs.remove(i)[p] by {
                if p < i {
                    assert(self.request_states@.remove(i)[p] == self.request_states@[p]);
                } else {
                    assert(self.request_states@.remove(i)[p] == self.request_states@[p + 1]);
                }
            }
        }
        let ks = req_keys(reqs);
        assert(req_keys(reqs.remove(i)) =~= ks.remove(i)) by {
            assert forall|p: int|
                0 <= p < reqs.remove(i).len() implies req_keys(reqs.remove(i))[p] == ks.remove(
                i,
            )[p] by {
                if p < i {
                    assert(reqs.remove(i)[p] == reqs[p]);
                } else {
                    assert(reqs.remove(i)[p] == reqs[p + 1]);
                }
            }
        }
        assert forall|p: int, q: int|
            0 <= p < q < ks.remove(i).len() implies ks.remove(i)[p] != ks.remove(i)[q] by {
            if p < i && q < i {
            } else if p < i {
                assert(ks[p] == ks.remove(i)[p] && ks[q + 1] == ks.remove(i)[q]);
            } else {
                assert(ks[p + 1] == ks.remove(i)[p] && ks[q + 1] == ks.remove(i)[q]);
            }
        }
        assert forall|kk: BlockKey|
            kk != reqs[i].0 implies #[trigger] has_key(reqs.remove(i), kk) == has_key(reqs, kk) by {
            if has_key(reqs, kk) {
                let p = choose|p: int| 0 <= p < ks.len() && #[trigger] ks[p] == kk;
                assert(p != i);
                if p < i {
                    assert(ks.remove(i)[p] == kk);
                } else {
                    assert(ks.remove(i)[p - 1] == kk);
                }
            }
            if has_key(reqs.remove(i), kk) {
                let p = choose|p: int|
                    0 <= p < ks.remove(i).len() && #[trigger] ks.remove(i)[p] == kk;
                if p < i {
                    assert(ks[p] == kk);
                } else {
                    assert(ks[p + 1] == kk);
                }
            }
        }
        assert(!has_key(reqs.remove(i), reqs[i].0)) by {
            if has_key(reqs.remove(i), reqs[i].0) {
                let p = choose|p: int|
                    0 <= p < ks.remove(i).len() && #[trigger] ks.remove(i)[p] == reqs[i].0;
                if p < i {
                    assert(ks[p] == ks[i]);
                } else {
                    assert(ks[p + 1] == ks[i]);
                }
            }
        }
    }
}

} // verus!
