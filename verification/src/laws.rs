//! The laws of the synchronizer, stated and proved over its specification
//! model.  Every executable handler is proved equal to the corresponding
//! model transition, so what holds of the model holds of the code.

use vstd::prelude::*;

use crate::errors::{StoreError, SyncError, TrieAccumulatorError};
use crate::ids::{BlockKey, PeerId, TrieBytes, TrieHash};
use crate::sets::unique_seq;
use crate::synchronizer::{
    fetch_targets, has_key, lemma_affected_from, lemma_complete_list, lemma_dispatch_all,
    lemma_fetch_targets_add, lemma_finished_from, lemma_handle_fetched_preserves,
    lemma_handle_put_trie_preserves, lemma_handle_request_preserves, lemma_parallel_fetch_preserves,
    lemma_submit, lemma_total_nonneg, req_keys, req_wf, spec_affected_from, spec_complete_list,
    spec_dispatch_all, spec_finished_from, spec_globally_in_flight, spec_handle_fetched,
    spec_handle_put_trie, spec_handle_request, spec_is_relevant, spec_parallel_fetch,
    spec_settled, spec_submit, sync_wf, total_in_flight, EffectView, ReqView, SyncView,
};

verus! {

broadcast use vstd::seq_lib::group_seq_properties;

/// A batch without fetch effects names no fetch targets.
proof fn lemma_fetch_targets_none(effs: Seq<EffectView>)
    requires
        forall|n: int|
            0 <= n < effs.len() ==> !((#[trigger] effs[n]) matches EffectView::FetchTrie { .. }),
    ensures
        fetch_targets(effs) == Seq::<TrieHash>::empty(),
    decreases effs.len(),
{
    if effs.len() > 0 {
        let dl = effs.drop_last();
        assert(forall|n: int| 0 <= n < dl.len() ==> dl[n] == effs[n]);
        lemma_fetch_targets_none(dl);
        assert(effs[effs.len() - 1] == effs.last());
    }
}

/// Coalescing: one scheduler pass issues at most one fetch per hash, never
/// for a hash some request is already fetching, and only for hashes some
/// request's frontier wants.  Every fetch therefore serves every request
/// that needs its hash, and two requests with overlapping subgraphs never
/// cause the same hash to be fetched twice while the first fetch is
/// outstanding.
pub proof fn lemma_scheduler_coalesces(s: SyncView)
    requires
        sync_wf(s),
    ensures
        ({
            let effs = spec_parallel_fetch(s).1;
            &&& unique_seq(fetch_targets(effs))
            &&& (forall|h: TrieHash|
                #[trigger] fetch_targets(effs).contains(h) ==> !spec_globally_in_flight(
                    s.requests,
                    h,
                ))
            &&& (forall|h: TrieHash|
                #[trigger] fetch_targets(effs).contains(h) ==> exists|p: int|
                    0 <= p < s.requests.len() && (#[trigger] s.requests[p].1).missing.contains(h))
        }),
{
    lemma_total_nonneg(s.requests, 0);
    let budget = if total_in_flight(s.requests) <= s.max_parallel {
        s.max_parallel - total_in_flight(s.requests)
    } else {
        0
    };
    lemma_dispatch_all(s.requests, 0, budget);
    let d = spec_dispatch_all(s.requests, 0, budget);
    let fin = spec_finished_from(s.requests, 0);
    lemma_finished_from(s.requests, 0);
    lemma_complete_list(d.0, fin, 0, Ok(()));
    let c = spec_complete_list(d.0, fin, 0, Ok(()));
    lemma_fetch_targets_add(d.1, c.1);
    assert forall|n: int|
        0 <= n < c.1.len() implies !((#[trigger] c.1[n]) matches EffectView::FetchTrie { .. }) by {}
    lemma_fetch_targets_none(c.1);
    assert(fetch_targets(d.1 + c.1) =~= fetch_targets(d.1));
    assert(spec_parallel_fetch(s).1 == d.1 + c.1);
}

/// Parallelism bound: a well-formed state keeps the count of distinct
/// hashes in flight at or under the bound, and every transition preserves
/// well-formedness; the bound therefore holds at every observation point.
pub proof fn lemma_parallelism_bound(
    s: SyncView,
    k: BlockKey,
    root: TrieHash,
    new_peers: Seq<PeerId>,
    h: TrieHash,
    fetched: Result<TrieBytes, TrieAccumulatorError>,
    stored: Result<Vec<TrieHash>, StoreError>,
)
    requires
        sync_wf(s),
    ensures
        total_in_flight(s.requests) <= s.max_parallel,
        sync_wf(spec_handle_request(s, k, root, new_peers).0),
        sync_wf(spec_handle_fetched(s, h, fetched).0),
        sync_wf(spec_handle_put_trie(s, h, stored).0),
        total_in_flight(spec_handle_request(s, k, root, new_peers).0.requests)
            <= s.max_parallel,
        total_in_flight(spec_handle_fetched(s, h, fetched).0.requests) <= s.max_parallel,
        total_in_flight(spec_handle_put_trie(s, h, stored).0.requests) <= s.max_parallel,
{
    lemma_handle_request_preserves(s, k, root, new_peers);
    lemma_handle_fetched_preserves(s, h, fetched);
    lemma_handle_put_trie_preserves(s, h, stored);
    lemma_submit(s.requests, k, root, new_peers);
    lemma_parallel_fetch_preserves(
        SyncView {
            max_parallel: s.max_parallel,
            requests: spec_submit(s.requests, k, root, new_peers),
        },
    );
    match fetched {
        Ok(_) => {},
        Err(_) => {},
    }
}

/// Progress: the scheduler completes every settled request with success and
/// removes it; and a request that is settled keeps no callback waiting.
/// Together with `lemma_scheduler_progress` this is the inductive heart of
/// liveness: a request whose subtree is reachable keeps receiving fetches
/// and, once nothing is missing or in flight, completes.
pub proof fn lemma_settled_requests_complete(s: SyncView, k: BlockKey)
    requires
        sync_wf(s),
        has_key(s.requests, k),
        spec_settled(s.requests[crate::synchronizer::key_index(s.requests, k)].1),
    ensures
        !has_key(spec_parallel_fetch(s).0.requests, k),
        exists|n: int|
            0 <= n < spec_parallel_fetch(s).1.len() && #[trigger] spec_parallel_fetch(s).1[n]
                == (EffectView::Complete { block_key: k, result: Ok::<(), SyncError>(()) }),
{
    lemma_total_nonneg(s.requests, 0);
    let budget = if total_in_flight(s.requests) <= s.max_parallel {
        s.max_parallel - total_in_flight(s.requests)
    } else {
        0
    };
    crate::synchronizer::lemma_key_index(s.requests, k);
    let ix = crate::synchronizer::key_index(s.requests, k);
    lemma_finished_from(s.requests, 0);
    let fin = spec_finished_from(s.requests, 0);
    assert(fin.contains(k));
    lemma_dispatch_all(s.requests, 0, budget);
    let d = spec_dispatch_all(s.requests, 0, budget);
    lemma_complete_list(d.0, fin, 0, Ok(()));
    let c = spec_complete_list(d.0, fin, 0, Ok(()));
    assert(has_key(d.0, k)) by {
        assert(req_keys(d.0) == req_keys(s.requests));
    }
    assert(fin.skip(0) =~= fin);
    assert(!has_key(c.0, k));
    let n = choose|n: int|
        0 <= n < c.1.len() && #[trigger] c.1[n] == (EffectView::Complete {
            block_key: k,
            result: Ok::<(), SyncError>(()),
        });
    assert(spec_parallel_fetch(s).1[d.1.len() + n] == c.1[n]);
}

/// Exactly-once completion, per event: the completion effects of one
/// scheduler pass carry pairwise distinct keys, each completed key was
/// registered before the pass, and none is registered after it.  A key can
/// therefore never see two completions: the first one removes it.
pub proof fn lemma_completion_exactly_once(s: SyncView)
    requires
        sync_wf(s),
    ensures
        ({
            let r = spec_parallel_fetch(s);
            forall|n1: int, n2: int|
                0 <= n1 < n2 < r.1.len() ==> match (#[trigger] r.1[n1], #[trigger] r.1[n2]) {
                    (
                        EffectView::Complete { block_key: k1, .. },
                        EffectView::Complete { block_key: k2, .. },
                    ) => k1 != k2,
                    _ => true,
                }
        }),
        ({
            let r = spec_parallel_fetch(s);
            forall|n: int|
                0 <= n < r.1.len() ==> match #[trigger] r.1[n] {
                    EffectView::Complete { block_key, .. } => has_key(s.requests, block_key)
                        && !has_key(r.0.requests, block_key),
                    _ => true,
                }
        }),
{
    lemma_total_nonneg(s.requests, 0);
    let budget = if total_in_flight(s.requests) <= s.max_parallel {
        s.max_parallel - total_in_flight(s.requests)
    } else {
        0
    };
    lemma_dispatch_all(s.requests, 0, budget);
    let d = spec_dispatch_all(s.requests, 0, budget);
    lemma_finished_from(s.requests, 0);
    let fin = spec_finished_from(s.requests, 0);
    lemma_complete_list(d.0, fin, 0, Ok(()));
    let c = spec_complete_list(d.0, fin, 0, Ok(()));
    let r = spec_parallel_fetch(s);
    assert(r.1 == d.1 + c.1);
    assert(fin.skip(0) =~= fin);
    assert forall|n1: int, n2: int| 0 <= n1 < n2 < r.1.len() implies match (
        #[trigger] r.1[n1],
        #[trigger] r.1[n2],
    ) {
        (
            EffectView::Complete { block_key: k1, .. },
            EffectView::Complete { block_key: k2, .. },
        ) => k1 != k2,
        _ => true,
    } by {
        if n1 < d.1.len() {
            assert(r.1[n1] == d.1[n1]);
            assert(d.1[n1] matches EffectView::FetchTrie { .. });
        } else {
            assert(r.1[n1] == c.1[n1 - d.1.len()]);
            assert(r.1[n2] == c.1[n2 - d.1.len()]);
        }
    }
    assert forall|n: int| 0 <= n < r.1.len() implies match #[trigger] r.1[n] {
        EffectView::Complete { block_key, .. } => has_key(s.requests, block_key) && !has_key(
            r.0.requests,
            block_key,
        ),
        _ => true,
    } by {
        if n < d.1.len() {
            assert(r.1[n] == d.1[n]);
            assert(d.1[n] matches EffectView::FetchTrie { .. });
        } else {
            assert(r.1[n] == c.1[n - d.1.len()]);
            match c.1[n - d.1.len()] {
                EffectView::Complete { block_key, .. } => {
                    assert(has_key(d.0, block_key));
                    assert(req_keys(d.0) == req_keys(s.requests));
                },
                _ => {},
            }
        }
    }
}

/// A dispatch pass over one request that consumes no budget changes
/// nothing.
proof fn lemma_dispatch_req_unchanged(
    reqs: Seq<(BlockKey, ReqView)>,
    i: int,
    r: ReqView,
    j: int,
    budget: int,
)
    requires
        0 <= i < reqs.len(),
        0 <= j,
        budget >= 0,
        req_wf(r),
    ensures
        ({
            let (r2, effs, b2) = crate::synchronizer::spec_dispatch_req(reqs, i, r, j, budget);
            b2 == budget ==> r2 == r && effs == Seq::<EffectView>::empty()
        }),
    decreases r.missing.len() - j,
{
    crate::synchronizer::lemma_dispatch_req(reqs, i, r, j, budget);
    if budget <= 0 || j >= r.missing.len() {
    } else {
        let h = r.missing[j];
        let cur = reqs.update(i, (reqs[i].0, r));
        if spec_globally_in_flight(cur, h) {
            lemma_dispatch_req_unchanged(reqs, i, r, j + 1, budget);
        } else {
            let rm = ReqView {
                missing: r.missing.remove(j),
                in_flight: r.in_flight.push(h),
                peers: r.peers,
            };
            crate::synchronizer::lemma_dispatch_req(reqs, i, r, j, budget);
        }
    }
}

/// A dispatch pass over one request with budget left picks something when
/// the request's frontier holds a hash nobody is fetching.
proof fn lemma_dispatch_req_progress(
    reqs: Seq<(BlockKey, ReqView)>,
    i: int,
    r: ReqView,
    j: int,
    budget: int,
    jj: int,
)
    requires
        0 <= i < reqs.len(),
        0 <= j <= jj < r.missing.len(),
        budget > 0,
        req_wf(r),
        !spec_globally_in_flight(reqs.update(i, (reqs[i].0, r)), r.missing[jj]),
    ensures
        crate::synchronizer::spec_dispatch_req(reqs, i, r, j, budget).1.len() > 0,
    decreases r.missing.len() - j,
{
    let h = r.missing[j];
    let cur = reqs.update(i, (reqs[i].0, r));
    if spec_globally_in_flight(cur, h) {
        assert(jj != j);
        lemma_dispatch_req_progress(reqs, i, r, j + 1, budget, jj);
    } else {
        let rec = crate::synchronizer::spec_dispatch_req(reqs, i, ReqView {
            missing: r.missing.remove(j),
            in_flight: r.in_flight.push(h),
            peers: r.peers,
        }, j, budget - 1);
        assert(crate::synchronizer::spec_dispatch_req(reqs, i, r, j, budget).1.len() == 1
            + rec.1.len());
    }
}

/// The full dispatch pass issues at least one fetch when budget remains and
/// some request's frontier holds a hash nobody is fetching.
proof fn lemma_dispatch_all_progress(
    reqs: Seq<(BlockKey, ReqView)>,
    i: int,
    budget: int,
    p: int,
    h: TrieHash,
)
    requires
        0 <= i <= p < reqs.len(),
        budget > 0,
        unique_seq(req_keys(reqs)),
        forall|q: int| 0 <= q < reqs.len() ==> req_wf((#[trigger] reqs[q]).1),
        forall|q1: int, q2: int, y: TrieHash|
            0 <= q1 < reqs.len() && 0 <= q2 < reqs.len() && q1 != q2 && (
            #[trigger] reqs[q1].1.in_flight.contains(y)) ==> !(
            #[trigger] reqs[q2].1.in_flight.contains(y)),
        reqs[p].1.missing.contains(h),
        !spec_globally_in_flight(reqs, h),
    ensures
        spec_dispatch_all(reqs, i, budget).1.len() > 0,
    decreases reqs.len() - i,
{
    lemma_dispatch_all(reqs, i, budget);
    let one = crate::synchronizer::spec_dispatch_req(reqs, i, reqs[i].1, 0, budget);
    crate::synchronizer::lemma_dispatch_req(reqs, i, reqs[i].1, 0, budget);
    assert(reqs.update(i, (reqs[i].0, reqs[i].1)) =~= reqs);
    if one.1.len() > 0 {
        assert(spec_dispatch_all(reqs, i, budget).1.len() >= one.1.len());
    } else {
        assert(one.2 == budget);
        lemma_dispatch_req_unchanged(reqs, i, reqs[i].1, 0, budget);
        assert(one.0 == reqs[i].1);
        let reqs2 = reqs.update(i, (reqs[i].0, one.0));
        assert(reqs2 =~= reqs);
        if p == i {
            let jj = reqs[p].1.missing.index_of(h);
            assert(0 <= jj < reqs[p].1.missing.len() && reqs[p].1.missing[jj] == h);
            lemma_dispatch_req_progress(reqs, i, reqs[i].1, 0, budget, jj);
            assert(false);
        } else {
            lemma_dispatch_all_progress(reqs2, i + 1, budget, p, h);
            assert(spec_dispatch_all(reqs, i, budget).1 == one.1 + spec_dispatch_all(
                reqs2,
                i + 1,
                budget,
            ).1);
        }
    }
}

/// Liveness, per pass: while budget remains and some frontier holds a hash
/// nobody is fetching, the scheduler issues at least one new fetch; and
/// (see `lemma_settled_requests_complete`) a request with nothing missing
/// and nothing in flight completes.  Together these push every request
/// whose subtree the peers can deliver toward completion, one event at a
/// time; the end-to-end runs are exercised by the scenario tests.
pub proof fn lemma_scheduler_progress(s: SyncView, p: int, h: TrieHash)
    requires
        sync_wf(s),
        total_in_flight(s.requests) < s.max_parallel,
        0 <= p < s.requests.len(),
        s.requests[p].1.missing.contains(h),
        !spec_globally_in_flight(s.requests, h),
    ensures
        spec_parallel_fetch(s).1.len() > 0,
        spec_parallel_fetch(s).1[0] matches EffectView::FetchTrie { .. },
{
    lemma_total_nonneg(s.requests, 0);
    let budget = s.max_parallel - total_in_flight(s.requests);
    lemma_dispatch_all_progress(s.requests, 0, budget, p, h);
    lemma_dispatch_all(s.requests, 0, budget);
    let d = spec_dispatch_all(s.requests, 0, budget);
    lemma_finished_from(s.requests, 0);
    lemma_complete_list(d.0, spec_finished_from(s.requests, 0), 0, Ok(()));
    assert(spec_parallel_fetch(s).1 == d.1 + spec_complete_list(
        d.0,
        spec_finished_from(s.requests, 0),
        0,
        Ok(()),
    ).1);
    assert(spec_parallel_fetch(s).1[0] == d.1[0]);
}

/// Idempotence under resubmission: once the scheduler has dispatched the
/// root of a freshly resubmitted request — its frontier empty, only the
/// root in flight — a store answer reporting no missing children settles
/// the request at once: the very next scheduler pass fires its callback
/// with success and removes it.  The scenario tests drive the same pipeline
/// end to end through the executable handlers.
pub proof fn lemma_resubmission_completes(
    s: SyncView,
    k: BlockKey,
    root: TrieHash,
    children: Vec<TrieHash>,
)
    requires
        sync_wf(s),
        has_key(s.requests, k),
        s.requests[crate::synchronizer::key_index(s.requests, k)].1.missing.len() == 0,
        s.requests[crate::synchronizer::key_index(s.requests, k)].1.in_flight == seq![root],
        children@.len() == 0,
    ensures
        !has_key(spec_handle_put_trie(s, root, Ok(children)).0.requests, k),
        exists|n: int|
            0 <= n < spec_handle_put_trie(s, root, Ok(children)).1.len()
                && #[trigger] spec_handle_put_trie(s, root, Ok(children)).1[n]
                == (EffectView::Complete { block_key: k, result: Ok::<(), SyncError>(()) }),
{
    crate::synchronizer::lemma_key_index(s.requests, k);
    let ix = crate::synchronizer::key_index(s.requests, k);
    let r = s.requests[ix].1;
    assert(r.in_flight[0] == root);
    assert(r.in_flight.contains(root));
    assert(spec_is_relevant(r, root));
    lemma_affected_from(s.requests, root, 0);
    let aff = spec_affected_from(s.requests, root, 0);
    assert(aff.contains(k));
    crate::synchronizer::lemma_apply_list(s.requests, aff, 0, root, children@);
    let applied = crate::synchronizer::spec_apply_list(s.requests, aff, 0, root, children@);
    assert(aff.skip(0) =~= aff);
    assert(applied[ix].1 == crate::synchronizer::spec_apply_insert(r, root, children@)) by {
        assert(s.requests[ix].0 == k);
    }
    crate::synchronizer::lemma_apply_insert(r, root, children@);
    let r2 = crate::synchronizer::spec_apply_insert(r, root, children@);
    assert(spec_settled(r2)) by {
        if r2.missing.len() > 0 {
            assert(r2.missing.contains(r2.missing[0]));
            assert(r.missing.contains(r2.missing[0]) || children@.contains(r2.missing[0]));
            if r.missing.contains(r2.missing[0]) {
                let q = choose|q: int| 0 <= q < r.missing.len() && r.missing[q] == r2.missing[0];
            }
        }
        if r2.in_flight.len() > 0 {
            assert(r2.in_flight.contains(r2.in_flight[0]));
            assert(r.in_flight.contains(r2.in_flight[0]) && r2.in_flight[0] != root);
            let q = choose|q: int|
                0 <= q < r.in_flight.len() && r.in_flight[q] == r2.in_flight[0];
            assert(q == 0);
        }
    }
    let s2 = SyncView { max_parallel: s.max_parallel, requests: applied };
    lemma_total_nonneg(s.requests, 0);
    assert(sync_wf(s2));
    assert(has_key(s2.requests, k)) by {
        assert(crate::synchronizer::req_keys(applied) == crate::synchronizer::req_keys(
            s.requests,
        ));
    }
    assert(crate::synchronizer::key_index(s2.requests, k) == ix) by {
        crate::synchronizer::lemma_key_index(s2.requests, k);
        assert(s2.requests[ix].0 == k);
    }
    lemma_settled_requests_complete(s2, k);
    assert(spec_handle_put_trie(s, root, Ok(children)) == spec_parallel_fetch(s2));
}

/// Fault isolation, accumulator side: a fetch error on `h` removes exactly
/// the requests whose frontier or in-flight set references `h`, with the
/// error delivered to each of them; every other request survives with its
/// entry untouched, and only then takes part in the scheduler pass that
/// follows the cancellation.
pub proof fn lemma_fetch_error_isolation(s: SyncView, h: TrieHash, e: TrieAccumulatorError)
    requires
        sync_wf(s),
    ensures
        ({
            let aff = spec_affected_from(s.requests, h, 0);
            let cancelled = spec_complete_list(
                s.requests,
                aff,
                0,
                Err(SyncError::TrieAccumulator(e)),
            );
            &&& (forall|p: int|
                0 <= p < s.requests.len() && !spec_is_relevant((#[trigger] s.requests[p]).1, h)
                    ==> has_key(cancelled.0, s.requests[p].0))
            &&& (forall|p: int|
                0 <= p < s.requests.len() && spec_is_relevant((#[trigger] s.requests[p]).1, h)
                    ==> !has_key(cancelled.0, s.requests[p].0))
            &&& (forall|p: int|
                0 <= p < cancelled.0.len() ==> exists|q: int|
                    0 <= q < s.requests.len() && (#[trigger] cancelled.0[p]) == s.requests[q])
            &&& (forall|p: int|
                0 <= p < s.requests.len() && spec_is_relevant((#[trigger] s.requests[p]).1, h)
                    ==> exists|n: int|
                    0 <= n < cancelled.1.len() && #[trigger] cancelled.1[n]
                        == (EffectView::Complete {
                        block_key: s.requests[p].0,
                        result: Err(SyncError::TrieAccumulator(e)),
                    }))
            &&& (forall|n: int|
                0 <= n < cancelled.1.len() ==> spec_handle_fetched(
                    s,
                    h,
                    Err::<TrieBytes, TrieAccumulatorError>(e),
                ).1[n] == cancelled.1[n])
        }),
{
    lemma_affected_from(s.requests, h, 0);
    let aff = spec_affected_from(s.requests, h, 0);
    lemma_complete_list(s.requests, aff, 0, Err(SyncError::TrieAccumulator(e)));
    assert(aff.skip(0) =~= aff);
    let cancelled = spec_complete_list(s.requests, aff, 0, Err(SyncError::TrieAccumulator(e)));
    assert forall|p: int|
        0 <= p < s.requests.len() && !spec_is_relevant((#[trigger] s.requests[p]).1, h)
            implies has_key(cancelled.0, s.requests[p].0) by {
        assert(has_key(s.requests, s.requests[p].0)) by {
            assert(req_keys(s.requests)[p] == s.requests[p].0);
        }
        if aff.contains(s.requests[p].0) {
            let q = choose|q: int|
                0 <= q < s.requests.len() && (#[trigger] s.requests[q]).0 == s.requests[p].0
                    && spec_is_relevant(s.requests[q].1, h);
            if p != q {
                assert(req_keys(s.requests)[p] != req_keys(s.requests)[q]);
            }
        }
    }
    assert forall|p: int|
        0 <= p < s.requests.len() && spec_is_relevant((#[trigger] s.requests[p]).1, h)
            implies !has_key(cancelled.0, s.requests[p].0) by {
        assert(aff.contains(s.requests[p].0));
    }
    assert forall|p: int|
        0 <= p < s.requests.len() && spec_is_relevant((#[trigger] s.requests[p]).1, h)
            implies exists|n: int|
            0 <= n < cancelled.1.len() && #[trigger] cancelled.1[n] == (EffectView::Complete {
                block_key: s.requests[p].0,
                result: Err(SyncError::TrieAccumulator(e)),
            }) by {
        assert(aff.contains(s.requests[p].0));
        assert(aff.skip(0).contains(s.requests[p].0));
        assert(has_key(s.requests, s.requests[p].0)) by {
            assert(req_keys(s.requests)[p] == s.requests[p].0);
        }
    }
    assert forall|n: int|
        0 <= n < cancelled.1.len() implies spec_handle_fetched(
            s,
            h,
            Err::<TrieBytes, TrieAccumulatorError>(e),
        ).1[n] == cancelled.1[n] by {
        let scheduled = spec_parallel_fetch(
            SyncView { max_parallel: s.max_parallel, requests: cancelled.0 },
        );
        assert(spec_handle_fetched(s, h, Err::<TrieBytes, TrieAccumulatorError>(e)).1
            == cancelled.1 + scheduled.1);
    }
}

/// Fault isolation, store side: a store error on `h` removes exactly the
/// requests that reference `h`, with the error delivered to each of them;
/// every other request survives (and only then takes part in the scheduler
/// pass that follows).
pub proof fn lemma_store_error_isolation(s: SyncView, h: TrieHash, e: StoreError)
    requires
        sync_wf(s),
    ensures
        ({
            let aff = spec_affected_from(s.requests, h, 0);
            let cancelled = spec_complete_list(s.requests, aff, 0, Err(SyncError::PutTrie(e)));
            &&& (forall|p: int|
                0 <= p < s.requests.len() && !spec_is_relevant((#[trigger] s.requests[p]).1, h)
                    ==> has_key(cancelled.0, s.requests[p].0))
            &&& (forall|p: int|
                0 <= p < s.requests.len() && spec_is_relevant((#[trigger] s.requests[p]).1, h)
                    ==> !has_key(cancelled.0, s.requests[p].0))
            &&& (forall|p: int|
                0 <= p < s.requests.len() && spec_is_relevant((#[trigger] s.requests[p]).1, h)
                    ==> exists|n: int|
                    0 <= n < cancelled.1.len() && #[trigger] cancelled.1[n]
                        == (EffectView::Complete {
                        block_key: s.requests[p].0,
                        result: Err(SyncError::PutTrie(e)),
                    }))
        }),
{
    lemma_affected_from(s.requests, h, 0);
    let aff = spec_affected_from(s.requests, h, 0);
    lemma_complete_list(s.requests, aff, 0, Err(SyncError::PutTrie(e)));
    assert(aff.skip(0) =~= aff);
    let cancelled = spec_complete_list(s.requests, aff, 0, Err(SyncError::PutTrie(e)));
    assert forall|p: int|
        0 <= p < s.requests.len() && !spec_is_relevant((#[trigger] s.requests[p]).1, h)
            implies has_key(cancelled.0, s.requests[p].0) by {
        assert(has_key(s.requests, s.requests[p].0)) by {
            assert(req_keys(s.requests)[p] == s.requests[p].0);
        }
        if aff.contains(s.requests[p].0) {
            let q = choose|q: int|
                0 <= q < s.requests.len() && (#[trigger] s.requests[q]).0 == s.requests[p].0
                    && spec_is_relevant(s.requests[q].1, h);
            if p != q {
                assert(req_keys(s.requests)[p] != req_keys(s.requests)[q]);
            }
        }
    }
    assert forall|p: int|
        0 <= p < s.requests.len() && spec_is_relevant((#[trigger] s.requests[p]).1, h)
            implies !has_key(cancelled.0, s.requests[p].0) by {
        assert(aff.contains(s.requests[p].0));
    }
    assert forall|p: int|
        0 <= p < s.requests.len() && spec_is_relevant((#[trigger] s.requests[p]).1, h)
            implies exists|n: int|
            0 <= n < cancelled.1.len() && #[trigger] cancelled.1[n] == (EffectView::Complete {
                block_key: s.requests[p].0,
                result: Err(SyncError::PutTrie(e)),
            }) by {
        assert(aff.contains(s.requests[p].0));
        assert(has_key(s.requests, s.requests[p].0)) by {
            assert(req_keys(s.requests)[p] == s.requests[p].0);
        }
    }
}

} // verus!
