//! Each node has at most one request outstanding while samples are disseminated with iterative
//! routing.

use vstd::prelude::*;
use crate::allocation::{
    candidates, lemma_capped, lemma_targets, lemma_without_none, targets, RoutingTable,
};
use crate::args::BatchingStrategy;
use crate::grouping::{is_grouping, values_of};
use crate::ids::{bucket_index, lemma_bucket_index_bound, NodeId};
use crate::iterative::{
    are_ids_for, bucketed, first_requests, is_plan, lemma_group_in_bucket, requests_to, BatchIds,
    Departing, PlannedBatch, Progress,
};

verus! {

/// Whether `outstanding` are the requests that wait for an answer, each with the node that was
/// asked, and each such node is known to owe the answer to this request.
pub open spec fn tracks(progress: Progress, outstanding: Map<u16, NodeId>) -> bool {
    &&& outstanding.dom() == progress.pending
    &&& forall|r: u16| #[trigger]
        outstanding.dom().contains(r) ==> progress.requests_per_node.dom().contains(outstanding[r])
            && progress.requests_per_node[outstanding[r]] == r
}

/// The outstanding requests after a turn.
pub open spec fn after_turn(
    progress: Progress,
    outstanding: Map<u16, NodeId>,
    parallelism: nat,
) -> Map<u16, NodeId> {
    if progress.can_send(parallelism) {
        outstanding.insert(progress.outbound[0].request_id, progress.outbound[0].to)
    } else {
        outstanding
    }
}

/// No node has two requests outstanding.
pub proof fn lemma_one_request_per_node(progress: Progress, outstanding: Map<u16, NodeId>)
    requires
        tracks(progress, outstanding),
    ensures
        forall|r: u16, s: u16|
            (#[trigger] outstanding.dom().contains(r)) && (#[trigger] outstanding.dom().contains(s))
                && outstanding[r] == outstanding[s] ==> r == s,
{
}

/// A request leaves only while fewer requests are outstanding than may be, and only to a node that
/// has none outstanding. The request is under an identifier that none of these has.
pub proof fn lemma_turn_keeps_one_per_node(
    progress: Progress,
    outstanding: Map<u16, NodeId>,
    parallelism: nat,
)
    requires
        tracks(progress, outstanding),
        progress.outbound.len() > 0 ==> !progress.pending.contains(progress.outbound[0].request_id),
    ensures
        tracks(
            progress.advanced(parallelism),
            after_turn(progress, outstanding, parallelism),
        ),
        progress.can_send(parallelism) ==> {
            &&& outstanding.dom().len() < parallelism
            &&& forall|r: u16| #[trigger]
                outstanding.dom().contains(r) ==> outstanding[r] != progress.outbound[0].to
        },
{
    assert(after_turn(progress, outstanding, parallelism).dom() =~= progress.advanced(
        parallelism,
    ).pending);
}

/// An answer, or the end of the time for one, leaves the other requests outstanding.
pub proof fn lemma_answer_keeps_one_per_node(
    progress: Progress,
    outstanding: Map<u16, NodeId>,
    request_id: u16,
)
    requires
        tracks(progress, outstanding),
        outstanding.dom().contains(request_id),
    ensures
        tracks(
            progress.settled(request_id, outstanding[request_id]),
            outstanding.remove(request_id),
        ),
        tracks(progress.without_request(request_id), outstanding.remove(request_id)),
{
    assert(outstanding.remove(request_id).dom() =~= progress.pending.remove(request_id));
}

/// To note answers and to line up requests sends nothing.
pub proof fn lemma_lining_up_keeps_one_per_node(
    progress: Progress,
    outstanding: Map<u16, NodeId>,
    local: NodeId,
    request_id: u16,
    batch_id: u16,
    from: NodeId,
    closer: Seq<NodeId>,
    groups: Seq<((bool, NodeId), Seq<NodeId>)>,
    ids: Seq<(u16, u16)>,
)
    requires
        tracks(progress, outstanding),
    ensures
        tracks(progress.noted(request_id, batch_id, from, closer), outstanding),
        tracks(progress.closed(batch_id), outstanding),
        tracks(progress.lined_up_all(local, groups, ids), outstanding),
    decreases groups.len(),
{
    if groups.len() > 0 {
        lemma_lining_up_keeps_one_per_node(
            progress,
            outstanding,
            local,
            request_id,
            batch_id,
            from,
            closer,
            groups.drop_last(),
            ids,
        );
    }
}

/// Whether no two requests of planned batches have the same identifier.
pub open spec fn are_distinct_requests(ids: Seq<BatchIds>) -> bool {
    forall|i: int, j: int, m: int, n: int|
        #![trigger ids[i].request_ids@[m], ids[j].request_ids@[n]]
        0 <= i < ids.len() && 0 <= j < ids.len() && 0 <= m < ids[i].request_ids@.len() && 0 <= n
            < ids[j].request_ids@.len() && ids[i].request_ids@[m] == ids[j].request_ids@[n] ==> i
            == j && m == n
}

/// Requests by their identifiers, each with the node that it goes to.
pub open spec fn addressees(requests: Seq<Departing>) -> Map<u16, NodeId>
    decreases requests.len(),
{
    if requests.len() == 0 {
        Map::empty()
    } else {
        addressees(requests.drop_last()).insert(requests.last().request_id, requests.last().to)
    }
}

/// Whether no two requests have the same identifier or go to the same node.
pub open spec fn go_apart(requests: Seq<Departing>) -> bool {
    forall|i: int, j: int|
        0 <= i < j < requests.len() ==> (#[trigger] requests[i]).request_id != (
        #[trigger] requests[j]).request_id && requests[i].to != requests[j].to
}

spec fn is_of(
    request: Departing,
    batches: Seq<PlannedBatch>,
    ids: Seq<BatchIds>,
    b: int,
    m: int,
) -> bool {
    &&& 0 <= b < batches.len()
    &&& 0 <= m < batches[b].nodes@.len()
    &&& request.to == batches[b].nodes@[m]
    &&& request.request_id == ids[b].request_ids@[m]
}

proof fn lemma_addressees(requests: Seq<Departing>)
    ensures
        forall|r: u16| #[trigger]
            addressees(requests).dom().contains(r) <==> exists|i: int|
                0 <= i < requests.len() && (#[trigger] requests[i]).request_id == r,
        go_apart(requests) ==> forall|i: int|
            0 <= i < requests.len() ==> addressees(requests)[(#[trigger] requests[i]).request_id]
                == requests[i].to,
    decreases requests.len(),
{
    if requests.len() > 0 {
        let front = requests.drop_last();
        let all = addressees(requests);
        lemma_addressees(front);
        assert forall|r: u16| #[trigger] all.dom().contains(r) <==> exists|i: int|
            0 <= i < requests.len() && (#[trigger] requests[i]).request_id == r by {
            if addressees(front).dom().contains(r) {
                let i = choose|i: int|
                    0 <= i < front.len() && (#[trigger] front[i]).request_id == r;
                assert(requests[i].request_id == r);
            }
            if r == requests.last().request_id {
                assert(requests[requests.len() - 1].request_id == r);
            }
            if exists|i: int| 0 <= i < requests.len() && (#[trigger] requests[i]).request_id == r {
                let i = choose|i: int|
                    0 <= i < requests.len() && (#[trigger] requests[i]).request_id == r;
                if i < front.len() {
                    assert(front[i].request_id == r);
                }
            }
        }
        if go_apart(requests) {
            assert(go_apart(front)) by {
                assert forall|i: int, j: int| 0 <= i < j < front.len() implies (
                #[trigger] front[i]).request_id != (#[trigger] front[j]).request_id && front[i].to
                    != front[j].to by {
                    assert(requests[i].request_id != requests[j].request_id);
                }
            }
            assert forall|i: int| 0 <= i < requests.len() implies all[(
            #[trigger] requests[i]).request_id] == requests[i].to by {
                if i < front.len() {
                    assert(front[i] == requests[i]);
                    assert(requests[i].request_id != requests[requests.len() - 1].request_id);
                }
            }
        }
    }
}

proof fn lemma_requests_to(
    progress: Progress,
    sent: Seq<Departing>,
    local: NodeId,
    nodes: Seq<NodeId>,
    keys: Seq<NodeId>,
    batch_id: u16,
    request_ids: Seq<u16>,
)
    requires
        tracks(progress, addressees(sent)),
        forall|n: NodeId| #[trigger]
            progress.requests_per_node.dom().contains(n) ==> exists|i: int|
                0 <= i < sent.len() && (#[trigger] sent[i]).to == n,
        go_apart(sent + requests_to(local, nodes, keys, batch_id, request_ids)),
    ensures
        ({
            let after = progress.opened_to(local, nodes, batch_id, request_ids);
            let all = sent + requests_to(local, nodes, keys, batch_id, request_ids);
            &&& tracks(after, addressees(all))
            &&& forall|n: NodeId| #[trigger]
                after.requests_per_node.dom().contains(n) ==> exists|i: int|
                    0 <= i < all.len() && (#[trigger] all[i]).to == n
        }),
    decreases nodes.len(),
{
    let all = sent + requests_to(local, nodes, keys, batch_id, request_ids);
    if nodes.len() == 0 {
        assert(all =~= sent);
    } else {
        let rest = nodes.drop_last();
        let front = sent + requests_to(local, rest, keys, batch_id, request_ids);
        let before = progress.opened_to(local, rest, batch_id, request_ids);
        if nodes.last() == local {
            assert(all =~= front);
            lemma_requests_to(progress, sent, local, rest, keys, batch_id, request_ids);
        } else {
            let last = all.last();
            assert(all =~= front.push(last));
            assert(all.drop_last() =~= front);
            assert(go_apart(front)) by {
                assert forall|i: int, j: int| 0 <= i < j < front.len() implies (
                #[trigger] front[i]).request_id != (#[trigger] front[j]).request_id && front[i].to
                    != front[j].to by {
                    assert(all[i].request_id != all[j].request_id);
                }
            }
            lemma_requests_to(progress, sent, local, rest, keys, batch_id, request_ids);
            let after = progress.opened_to(local, nodes, batch_id, request_ids);
            assert(after == before.opened(batch_id, last.request_id, last.to));
            lemma_addressees(front);
            assert(addressees(all).dom() =~= after.pending);
            assert forall|r: u16| #[trigger] addressees(all).dom().contains(r) implies
                after.requests_per_node.dom().contains(addressees(all)[r])
                && after.requests_per_node[addressees(all)[r]] == r by {
                if r != last.request_id {
                    assert(addressees(front).dom().contains(r));
                    let i = choose|i: int|
                        0 <= i < front.len() && (#[trigger] front[i]).request_id == r;
                    assert(all[i] == front[i]);
                    assert(all[i].to != all[all.len() - 1].to);
                    assert(addressees(front)[r] == front[i].to);
                }
            }
            assert forall|n: NodeId| #[trigger]
                after.requests_per_node.dom().contains(n) implies exists|i: int|
                0 <= i < all.len() && (#[trigger] all[i]).to == n by {
                if n == last.to {
                    assert(all[all.len() - 1].to == n);
                } else {
                    assert(before.requests_per_node.dom().contains(n));
                    let i = choose|i: int| 0 <= i < front.len() && (#[trigger] front[i]).to == n;
                    assert(all[i].to == n);
                }
            }
        }
    }
}

proof fn lemma_opened_all(local: NodeId, batches: Seq<PlannedBatch>, ids: Seq<BatchIds>)
    requires
        go_apart(first_requests(local, batches, ids)),
    ensures
        ({
            let after = Progress::start().opened_all(local, batches, ids);
            let all = first_requests(local, batches, ids);
            &&& tracks(after, addressees(all))
            &&& forall|n: NodeId| #[trigger]
                after.requests_per_node.dom().contains(n) ==> exists|i: int|
                    0 <= i < all.len() && (#[trigger] all[i]).to == n
        }),
    decreases batches.len(),
{
    let all = first_requests(local, batches, ids);
    if batches.len() == 0 {
        assert(addressees(all).dom() =~= Progress::start().pending);
    } else {
        let last = batches.len() - 1;
        let rest = batches.drop_last();
        let sent = first_requests(local, rest, ids);
        assert(go_apart(sent)) by {
            assert forall|i: int, j: int| 0 <= i < j < sent.len() implies (
            #[trigger] sent[i]).request_id != (#[trigger] sent[j]).request_id && sent[i].to
                != sent[j].to by {
                assert(all[i] == sent[i] && all[j] == sent[j]);
                assert(all[i].request_id != all[j].request_id);
            }
        }
        lemma_opened_all(local, rest, ids);
        let before = Progress::start().opened_all(local, rest, ids);
        let known = Progress {
            keys_per_batch: before.keys_per_batch.insert(ids[last].batch_id, batches[last].keys@),
            ..before
        };
        lemma_requests_to(
            known,
            sent,
            local,
            batches[last].nodes@,
            batches[last].keys@,
            ids[last].batch_id,
            ids[last].request_ids@,
        );
    }
}

proof fn lemma_requests_of_batch(
    local: NodeId,
    nodes: Seq<NodeId>,
    keys: Seq<NodeId>,
    batch_id: u16,
    request_ids: Seq<u16>,
)
    ensures
        forall|i: int|
            0 <= i < requests_to(local, nodes, keys, batch_id, request_ids).len() ==> exists|m: int|
                #![trigger nodes[m]]
                0 <= m < nodes.len() && (#[trigger] requests_to(
                    local,
                    nodes,
                    keys,
                    batch_id,
                    request_ids,
                )[i]).to == nodes[m] && nodes[m] != local && requests_to(
                    local,
                    nodes,
                    keys,
                    batch_id,
                    request_ids,
                )[i].request_id == request_ids[m],
        nodes.no_duplicates() && (forall|m: int, n: int|
            0 <= m < n < nodes.len() ==> #[trigger] request_ids[m] != #[trigger] request_ids[n])
            ==> go_apart(requests_to(local, nodes, keys, batch_id, request_ids)),
    decreases nodes.len(),
{
    let requests = requests_to(local, nodes, keys, batch_id, request_ids);
    if nodes.len() > 0 {
        let rest = nodes.drop_last();
        let front = requests_to(local, rest, keys, batch_id, request_ids);
        let last = nodes.len() - 1;
        lemma_requests_of_batch(local, rest, keys, batch_id, request_ids);
        assert forall|i: int| 0 <= i < requests.len() implies exists|m: int|
            #![trigger nodes[m]]
            0 <= m < nodes.len() && (#[trigger] requests[i]).to == nodes[m] && nodes[m] != local
                && requests[i].request_id == request_ids[m] by {
            if i < front.len() {
                assert(requests[i] == front[i]);
                let m = choose|m: int|
                    #![trigger rest[m]]
                    0 <= m < rest.len() && front[i].to == rest[m] && rest[m] != local
                        && front[i].request_id == request_ids[m];
                assert(nodes[m] == rest[m]);
            } else {
                assert(nodes[last] != local);
            }
        }
        if nodes.no_duplicates() && (forall|m: int, n: int|
            0 <= m < n < nodes.len() ==> #[trigger] request_ids[m] != #[trigger] request_ids[n]) {
            assert(rest.no_duplicates());
            assert(go_apart(requests)) by {
                assert forall|i: int, j: int| 0 <= i < j < requests.len() implies (
                #[trigger] requests[i]).request_id != (#[trigger] requests[j]).request_id
                    && requests[i].to != requests[j].to by {
                    assert(requests[i] == front[i]);
                    if j < front.len() {
                        assert(requests[j] == front[j]);
                    } else {
                        let m = choose|m: int|
                            #![trigger rest[m]]
                            0 <= m < rest.len() && front[i].to == rest[m] && rest[m] != local
                                && front[i].request_id == request_ids[m];
                        assert(nodes[m] == rest[m]);
                        assert(request_ids[m] != request_ids[last]);
                    }
                }
            }
        }
    }
}

proof fn lemma_first_requests(local: NodeId, batches: Seq<PlannedBatch>, ids: Seq<BatchIds>)
    requires
        ids.len() >= batches.len(),
        forall|i: int|
            0 <= i < batches.len() ==> (#[trigger] ids[i]).request_ids@.len()
                == batches[i].nodes@.len(),
        are_distinct_requests(ids),
        forall|b: int| 0 <= b < batches.len() ==> (#[trigger] batches[b]).nodes@.no_duplicates(),
        forall|a: int, b: int, m: int, n: int|
            #![trigger batches[a].nodes@[m], batches[b].nodes@[n]]
            0 <= a < b < batches.len() && 0 <= m < batches[a].nodes@.len() && 0 <= n
                < batches[b].nodes@.len() && batches[a].nodes@[m] != local
                ==> batches[a].nodes@[m] != batches[b].nodes@[n],
    ensures
        go_apart(first_requests(local, batches, ids)),
        forall|i: int|
            0 <= i < first_requests(local, batches, ids).len() ==> (#[trigger] first_requests(
                local,
                batches,
                ids,
            )[i]).to != local && exists|b: int, m: int| #[trigger]
                is_of(first_requests(local, batches, ids)[i], batches, ids, b, m),
    decreases batches.len(),
{
    let all = first_requests(local, batches, ids);
    if batches.len() > 0 {
        let last = batches.len() - 1;
        let rest = batches.drop_last();
        let nodes = batches[last].nodes@;
        let request_ids = ids[last].request_ids@;
        let front = first_requests(local, rest, ids);
        let more = requests_to(
            local,
            nodes,
            batches[last].keys@,
            ids[last].batch_id,
            request_ids,
        );
        assert(forall|b: int| 0 <= b < rest.len() ==> #[trigger] rest[b] == batches[b]);
        assert forall|a: int, b: int, m: int, n: int|
            #![trigger rest[a].nodes@[m], rest[b].nodes@[n]]
            0 <= a < b < rest.len() && 0 <= m < rest[a].nodes@.len() && 0 <= n
                < rest[b].nodes@.len() && rest[a].nodes@[m] != local implies rest[a].nodes@[m]
            != rest[b].nodes@[n] by {
            assert(batches[a].nodes@[m] != batches[b].nodes@[n]);
        }
        lemma_first_requests(local, rest, ids);
        assert forall|m: int, n: int| 0 <= m < n < nodes.len() implies #[trigger] request_ids[m]
            != #[trigger] request_ids[n] by {
            if request_ids[m] == request_ids[n] {
                assert(ids[last].request_ids@[m] == ids[last].request_ids@[n]);
            }
        }
        lemma_requests_of_batch(
            local,
            nodes,
            batches[last].keys@,
            ids[last].batch_id,
            request_ids,
        );
        assert forall|i: int| 0 <= i < all.len() implies (#[trigger] all[i]).to != local && exists|
            b: int,
            m: int,
        | #[trigger] is_of(all[i], batches, ids, b, m) by {
            if i < front.len() {
                assert(all[i] == front[i]);
                let (b, m) = choose|b: int, m: int| #[trigger] is_of(front[i], rest, ids, b, m);
                assert(is_of(all[i], batches, ids, b, m));
            } else {
                let q = i - front.len();
                assert(all[i] == more[q]);
                let m = choose|m: int|
                    #![trigger nodes[m]]
                    0 <= m < nodes.len() && more[q].to == nodes[m] && nodes[m] != local
                        && more[q].request_id == request_ids[m];
                assert(is_of(all[i], batches, ids, last, m));
            }
        }
        assert forall|i: int, j: int| 0 <= i < j < all.len() implies (
        #[trigger] all[i]).request_id != (#[trigger] all[j]).request_id && all[i].to
            != all[j].to by {
            if j < front.len() {
                assert(all[i] == front[i] && all[j] == front[j]);
            } else if i >= front.len() {
                assert(all[i] == more[i - front.len()] && all[j] == more[j - front.len()]);
            } else {
                let q = j - front.len();
                assert(all[i] == front[i] && all[j] == more[q]);
                let (b, m) = choose|b: int, m: int| #[trigger] is_of(front[i], rest, ids, b, m);
                let n = choose|n: int|
                    #![trigger nodes[n]]
                    0 <= n < nodes.len() && more[q].to == nodes[n] && nodes[n] != local
                        && more[q].request_id == request_ids[n];
                assert(rest[b] == batches[b]);
                assert(front[i].to != local);
                assert(batches[b].nodes@[m] != batches[last].nodes@[n]);
                assert(ids[b].request_ids@[m] != ids[last].request_ids@[n]);
            }
        }
    }
}

/// The first requests of a plan go to different nodes, so that no node has two of them outstanding,
/// if they have different identifiers.
pub proof fn lemma_opening_has_one_per_node(
    batches: Seq<PlannedBatch>,
    ids: Seq<BatchIds>,
    table: RoutingTable,
    cap: Option<nat>,
    keys: Seq<NodeId>,
)
    requires
        table.wf(),
        !keys.contains(table.local),
        is_plan(batches, table, cap, keys),
        are_ids_for(ids, batches),
        are_distinct_requests(ids),
    ensures
        go_apart(first_requests(table.local, batches, ids)),
        tracks(
            Progress::start().opened_all(table.local, batches, ids),
            addressees(first_requests(table.local, batches, ids)),
        ),
{
    let local = table.local;
    let by_bucket = choose|by_bucket: Seq<(usize, Seq<NodeId>)>| #[trigger]
        is_grouping(by_bucket, bucketed(local, keys)) && by_bucket.len() == batches.len()
            && forall|i: int|
            0 <= i < batches.len() ==> (#[trigger] batches[i]).keys@ == by_bucket[i].1;
    assert forall|b: int| 0 <= b < batches.len() implies (#[trigger] batches[b]).nodes@.no_duplicates()
        && forall|m: int|
        0 <= m < batches[b].nodes@.len() && batches[b].nodes@[m] != local ==> bucket_index(
            local,
            #[trigger] batches[b].nodes@[m],
        ) == by_bucket[b].0 by {
        lemma_group_in_bucket(local, keys, by_bucket[b].0);
        let key = batches[b].keys@[0];
        assert(batches[b].keys@ == by_bucket[b].1);
        assert(key == values_of(bucketed(local, keys), by_bucket[b].0)[0]);
        assert(keys.contains(key));
        assert(key != local);
        lemma_bucket_index_bound(local, key);
        lemma_targets(table, BatchingStrategy::BucketWise, None, cap, key);
        let index = bucket_index(local, key) as int;
        let bucket = table.buckets@[index]@;
        lemma_without_none(bucket);
        lemma_capped(candidates(table, BatchingStrategy::BucketWise, None, key), cap);
        let nodes = batches[b].nodes@;
        assert(nodes == targets(table, BatchingStrategy::BucketWise, None, cap, key));
        assert forall|m: int| 0 <= m < nodes.len() && nodes[m] != local implies bucket_index(
            local,
            #[trigger] nodes[m],
        ) == by_bucket[b].0 by {
            assert(nodes.contains(nodes[m]));
            assert(bucket.contains(nodes[m]));
            let j = choose|j: int| 0 <= j < bucket.len() && bucket[j] == nodes[m];
            assert(table.buckets@[index]@[j] == nodes[m]);
        }
    }
    assert forall|a: int, b: int, m: int, n: int|
        #![trigger batches[a].nodes@[m], batches[b].nodes@[n]]
        0 <= a < b < batches.len() && 0 <= m < batches[a].nodes@.len() && 0 <= n
            < batches[b].nodes@.len() && batches[a].nodes@[m] != local implies batches[a].nodes@[m]
        != batches[b].nodes@[n] by {
        assert(by_bucket[a].0 != by_bucket[b].0);
    }
    lemma_first_requests(local, batches, ids);
    lemma_opened_all(local, batches, ids);
}

} // verus!
