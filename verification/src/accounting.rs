//! No sample is forgotten while samples are disseminated with iterative routing.

use vstd::prelude::*;
use crate::closer::{
    are_next_groups, lemma_each_key_is_offered, lemma_next_groups, lemma_no_key_is_lost,
    lemma_to_ask, next_for, offers,
};
use crate::ids::NodeId;
use crate::iterative::{are_ids_for, list_under, set_under, BatchIds, PlannedBatch, Progress};

verus! {

/// Whether a sample was addressed to some node other than the originator.
pub open spec fn is_addressed(progress: Progress, local: NodeId, key: NodeId) -> bool {
    exists|n: NodeId| n != local && #[trigger] set_under(progress.addressed, n).contains(key)
}

/// Whether a request of a batch was not answered yet.
pub open spec fn is_open(progress: Progress, batch_id: u16, request_id: u16) -> bool {
    &&& progress.requests_per_batch.dom().contains(batch_id)
    &&& progress.requests_per_batch[batch_id].contains(request_id)
}

/// Whether a node is, or is about to be, asked about a key.
pub open spec fn is_asked(progress: Progress, key: NodeId) -> bool {
    exists|b: u16, r: u16| #[trigger]
        is_open(progress, b, r) && progress.keys_per_batch[b].contains(key)
}

/// Whether a request of a batch waits for its turn.
pub open spec fn is_in_line(progress: Progress, batch_id: u16, request_id: u16) -> bool {
    exists|i: int|
        0 <= i < progress.outbound.len() && (#[trigger] progress.outbound[i]).request_id
            == request_id && progress.outbound[i].batch_id == batch_id
}

/// Whether the books are in order: each of `keys` was addressed to some node or is being asked
/// about, every open request is on its way or in line, under an identifier of its own, and no
/// answer has named the originator.
pub open spec fn accounts_for(progress: Progress, local: NodeId, keys: Set<NodeId>) -> bool {
    &&& progress.pending.finite()
    &&& forall|k: NodeId| #[trigger]
        keys.contains(k) ==> is_addressed(progress, local, k) || is_asked(progress, k)
    &&& forall|b: u16, r: u16| #[trigger]
        is_open(progress, b, r) ==> {
            &&& progress.keys_per_batch.dom().contains(b)
            &&& progress.pending.contains(r) || is_in_line(progress, b, r)
        }
    &&& forall|b: u16, c: u16, r: u16| #[trigger]
        is_open(progress, b, r) && #[trigger] is_open(progress, c, r) ==> b == c
    &&& forall|b: u16| #[trigger]
        progress.requests_per_batch.dom().contains(b) ==> progress.requests_per_batch[b].finite()
    &&& forall|b: u16| #[trigger]
        progress.responses_per_batch.dom().contains(b) ==> names_others(
            progress.responses_per_batch[b],
            local,
        )
}

/// Whether responses name no node that is the originator.
pub open spec fn names_others(responses: Seq<(NodeId, (bool, NodeId))>, local: NodeId) -> bool {
    forall|i: int| 0 <= i < responses.len() ==> (#[trigger] responses[i]).1.1 != local
}

/// A turn keeps the books in order.
pub proof fn lemma_turn_keeps_account(
    progress: Progress,
    local: NodeId,
    keys: Set<NodeId>,
    parallelism: nat,
)
    requires
        accounts_for(progress, local, keys),
    ensures
        accounts_for(progress.advanced(parallelism), local, keys),
{
    let after = progress.advanced(parallelism);
    assert forall|b: u16, r: u16| is_open(after, b, r) == is_open(progress, b, r) by {}
    assert forall|k: NodeId| #[trigger] keys.contains(k) implies is_addressed(after, local, k)
        || is_asked(after, k) by {
        if is_addressed(progress, local, k) {
            let n = choose|n: NodeId|
                n != local && #[trigger] set_under(progress.addressed, n).contains(k);
            assert(set_under(after.addressed, n).contains(k));
        } else {
            let (b, r) = choose|b: u16, r: u16| #[trigger]
                is_open(progress, b, r) && progress.keys_per_batch[b].contains(k);
            assert(is_open(after, b, r));
        }
    }
    assert forall|b: u16, r: u16| #[trigger] is_open(after, b, r) implies {
        &&& after.keys_per_batch.dom().contains(b)
        &&& after.pending.contains(r) || is_in_line(after, b, r)
    } by {
        assert(is_open(progress, b, r));
        if !progress.pending.contains(r) {
            let i = choose|i: int|
                0 <= i < progress.outbound.len() && (#[trigger] progress.outbound[i]).request_id
                    == r && progress.outbound[i].batch_id == b;
            if progress.pending.len() < parallelism {
                if i > 0 {
                    assert(after.outbound[i - 1] == progress.outbound[i]);
                } else if !progress.can_send(parallelism) {
                    assert(after.outbound[after.outbound.len() - 1] == progress.outbound[0]);
                }
            } else {
                assert(after.outbound[i] == progress.outbound[i]);
            }
        }
    }
    assert forall|b: u16, c: u16, r: u16| #[trigger] is_open(after, b, r) && #[trigger] is_open(
        after,
        c,
        r,
    ) implies b == c by {
        assert(is_open(progress, b, r) && is_open(progress, c, r));
    }
}

proof fn lemma_same_keys(
    progress: Progress,
    after: Progress,
    local: NodeId,
    keys: Set<NodeId>,
)
    requires
        accounts_for(progress, local, keys),
        after.addressed == progress.addressed,
        after.keys_per_batch == progress.keys_per_batch,
        forall|b: u16, r: u16| #[trigger]
            is_open(progress, b, r) ==> exists|s: u16| #[trigger] is_open(after, b, s),
    ensures
        forall|k: NodeId| #[trigger]
            keys.contains(k) ==> is_addressed(after, local, k) || is_asked(after, k),
{
    assert forall|k: NodeId| #[trigger] keys.contains(k) implies is_addressed(after, local, k)
        || is_asked(after, k) by {
        if is_addressed(progress, local, k) {
            let n = choose|n: NodeId|
                n != local && #[trigger] set_under(progress.addressed, n).contains(k);
            assert(set_under(after.addressed, n).contains(k));
        } else {
            let (b, r) = choose|b: u16, r: u16| #[trigger]
                is_open(progress, b, r) && progress.keys_per_batch[b].contains(k);
            let s = choose|s: u16| #[trigger] is_open(after, b, s);
            assert(is_open(after, b, s) && after.keys_per_batch[b].contains(k));
        }
    }
}

/// The confirmation that samples were stored keeps the books in order.
pub proof fn lemma_confirmation_keeps_account(
    progress: Progress,
    local: NodeId,
    keys: Set<NodeId>,
    request_id: u16,
    from: NodeId,
)
    requires
        accounts_for(progress, local, keys),
        forall|b: u16| !#[trigger] is_open(progress, b, request_id),
    ensures
        accounts_for(progress.settled(request_id, from), local, keys),
{
    let after = progress.settled(request_id, from);
    assert forall|b: u16, r: u16| is_open(after, b, r) == is_open(progress, b, r) by {}
    assert forall|b: u16, r: u16| #[trigger] is_open(progress, b, r) implies exists|s: u16|
        #[trigger] is_open(after, b, s) by {
        assert(is_open(after, b, r));
    }
    lemma_same_keys(progress, after, local, keys);
    assert forall|b: u16, r: u16| #[trigger] is_open(after, b, r) implies {
        &&& after.keys_per_batch.dom().contains(b)
        &&& after.pending.contains(r) || is_in_line(after, b, r)
    } by {
        assert(is_open(progress, b, r));
        if is_in_line(progress, b, r) {
            let i = choose|i: int|
                0 <= i < progress.outbound.len() && (#[trigger] progress.outbound[i]).request_id
                    == r && progress.outbound[i].batch_id == b;
            assert(after.outbound[i] == progress.outbound[i]);
        }
    }
    assert forall|b: u16, c: u16, r: u16| #[trigger] is_open(after, b, r) && #[trigger] is_open(
        after,
        c,
        r,
    ) implies b == c by {
        assert(is_open(progress, b, r) && is_open(progress, c, r));
    }
}

/// Where the books are in order and nothing is left to be sent or answered, every key was addressed
/// to some node other than the originator.
pub proof fn lemma_account_at_the_end(progress: Progress, local: NodeId, keys: Set<NodeId>)
    requires
        accounts_for(progress, local, keys),
        progress.is_done(),
    ensures
        forall|k: NodeId| #[trigger] keys.contains(k) ==> is_addressed(progress, local, k),
{
    assert forall|k: NodeId| #[trigger] keys.contains(k) implies is_addressed(
        progress,
        local,
        k,
    ) by {
        if is_asked(progress, k) {
            let (b, r) = choose|b: u16, r: u16| #[trigger]
                is_open(progress, b, r) && progress.keys_per_batch[b].contains(k);
            assert(progress.pending =~= Set::empty());
            assert(false);
        }
    }
}

proof fn lemma_offers_name(closer: Seq<NodeId>, remote: NodeId, keys: Seq<NodeId>, local: NodeId)
    requires
        remote != local,
        !closer.contains(local),
    ensures
        names_others(offers(closer, remote, keys), local),
    decreases keys.len(),
{
    if keys.len() > 0 {
        let front = offers(closer, remote, keys.drop_last());
        let all = offers(closer, remote, keys);
        let next = next_for(closer, remote, keys.last());
        lemma_offers_name(closer, remote, keys.drop_last(), local);
        lemma_to_ask(closer, remote, keys.last());
        assert forall|i: int| 0 <= i < all.len() implies (#[trigger] all[i]).1.1 != local by {
            if i < front.len() {
                assert(all[i] == front[i]);
            } else {
                assert(all[i].1 == next[i - front.len()]);
            }
        }
    }
}

/// An answer on a batch on which other answers are still owed keeps the books in order.
pub proof fn lemma_partial_answer_keeps_account(
    progress: Progress,
    local: NodeId,
    keys: Set<NodeId>,
    request_id: u16,
    batch_id: u16,
    from: NodeId,
    closer: Seq<NodeId>,
)
    requires
        accounts_for(progress, local, keys),
        is_open(progress, batch_id, request_id),
        progress.accepts(request_id, batch_id, from, closer),
        progress.noted(request_id, batch_id, from, closer).requests_per_batch[batch_id].len() > 0,
        from != local,
        !closer.contains(local),
    ensures
        accounts_for(
            progress.noted(request_id, batch_id, from, closer).settled(request_id, from),
            local,
            keys,
        ),
{
    let after = progress.noted(request_id, batch_id, from, closer).settled(request_id, from);
    let left = after.requests_per_batch[batch_id];
    assert forall|b: u16, r: u16| is_open(after, b, r) == (is_open(progress, b, r) && !(b
        == batch_id && r == request_id)) by {}
    assert(exists|s: u16| left.contains(s)) by {
        if !(exists|s: u16| left.contains(s)) {
            assert(left =~= Set::empty());
        }
    }
    let other = choose|s: u16| left.contains(s);
    assert(is_open(after, batch_id, other));
    assert forall|b: u16, r: u16| #[trigger] is_open(progress, b, r) implies exists|s: u16|
        #[trigger] is_open(after, b, s) by {
        if b != batch_id {
            assert(is_open(after, b, r));
        }
    }
    lemma_same_keys(progress, after, local, keys);
    assert forall|b: u16, r: u16| #[trigger] is_open(after, b, r) implies {
        &&& after.keys_per_batch.dom().contains(b)
        &&& after.pending.contains(r) || is_in_line(after, b, r)
    } by {
        assert(is_open(progress, b, r));
        if r == request_id {
            assert(is_open(progress, batch_id, request_id));
            assert(b == batch_id);
        }
        if is_in_line(progress, b, r) {
            let i = choose|i: int|
                0 <= i < progress.outbound.len() && (#[trigger] progress.outbound[i]).request_id
                    == r && progress.outbound[i].batch_id == b;
            assert(after.outbound[i] == progress.outbound[i]);
        }
    }
    assert forall|b: u16, c: u16, r: u16| #[trigger] is_open(after, b, r) && #[trigger] is_open(
        after,
        c,
        r,
    ) implies b == c by {
        assert(is_open(progress, b, r) && is_open(progress, c, r));
    }
    lemma_offers_name(closer, from, progress.keys_per_batch[batch_id], local);
    assert forall|b: u16| #[trigger] after.responses_per_batch.dom().contains(b) implies
        names_others(after.responses_per_batch[b], local) by {
        if b == batch_id {
            let known = list_under(progress.responses_per_batch, batch_id);
            let more = offers(closer, from, progress.keys_per_batch[batch_id]);
            let all = after.responses_per_batch[b];
            assert(all == known + more);
            if progress.responses_per_batch.dom().contains(b) {
                assert(names_others(known, local));
            }
            assert forall|i: int| 0 <= i < all.len() implies (#[trigger] all[i]).1.1 != local by {
                if i < known.len() {
                    assert(all[i] == known[i]);
                } else {
                    assert(all[i] == more[i - known.len()]);
                }
            }
        } else {
            assert(progress.responses_per_batch.dom().contains(b));
        }
    }
}

/// Whether identifiers for requests and batches are new and all different.
pub open spec fn are_fresh(progress: Progress, ids: Seq<(u16, u16)>) -> bool {
    &&& forall|i: int|
        0 <= i < ids.len() ==> {
            &&& !progress.keys_per_batch.dom().contains((#[trigger] ids[i]).1)
            &&& !progress.requests_per_batch.dom().contains(ids[i].1)
            &&& forall|b: u16| !#[trigger] is_open(progress, b, ids[i].0)
        }
    &&& forall|i: int, j: int|
        0 <= i < j < ids.len() ==> (#[trigger] ids[i]).0 != (#[trigger] ids[j]).0 && ids[i].1
            != ids[j].1
}

/// Whether a request to ask a node is among those that are lined up.
pub open spec fn is_lined_up(
    groups: Seq<((bool, NodeId), Seq<NodeId>)>,
    ids: Seq<(u16, u16)>,
    batch_id: u16,
    request_id: u16,
) -> bool {
    exists|g: int|
        0 <= g < groups.len() && !(#[trigger] groups[g]).0.0 && ids[g] == (request_id, batch_id)
}

proof fn lemma_lined_up_all(
    progress: Progress,
    local: NodeId,
    groups: Seq<((bool, NodeId), Seq<NodeId>)>,
    ids: Seq<(u16, u16)>,
)
    requires
        are_fresh(progress, ids),
        groups.len() <= ids.len(),
        forall|g: int|
            0 <= g < groups.len() ==> (#[trigger] groups[g]).0.1 != local && groups[g].1.len() > 0,
    ensures
        ({
            let after = progress.lined_up_all(local, groups, ids);
            &&& after.pending == progress.pending
            &&& after.responses_per_batch == progress.responses_per_batch
            &&& forall|b: u16| #[trigger]
                progress.keys_per_batch.dom().contains(b) ==> after.keys_per_batch.dom().contains(b)
                    && after.keys_per_batch[b] == progress.keys_per_batch[b]
            &&& forall|b: u16, r: u16| #[trigger]
                is_open(after, b, r) <==> is_open(progress, b, r) || is_lined_up(groups, ids, b, r)
            &&& forall|g: int|
                #![trigger groups[g]]
                #![trigger ids[g]]
                0 <= g < groups.len() ==> after.keys_per_batch.dom().contains(ids[g].1)
                    && after.keys_per_batch[ids[g].1] == groups[g].1
            &&& forall|g: int|
                0 <= g < groups.len() && !(#[trigger] groups[g]).0.0 ==> is_in_line(
                    after,
                    ids[g].1,
                    ids[g].0,
                )
            &&& forall|g: int, k: NodeId|
                #![trigger groups[g].1.contains(k)]
                0 <= g < groups.len() && groups[g].0.0 && groups[g].1.contains(k) ==> set_under(
                    after.addressed,
                    groups[g].0.1,
                ).contains(k)
            &&& forall|n: NodeId, k: NodeId| #[trigger]
                set_under(progress.addressed, n).contains(k) ==> set_under(
                    after.addressed,
                    n,
                ).contains(k)
            &&& after.outbound.len() >= progress.outbound.len()
            &&& forall|i: int|
                0 <= i < progress.outbound.len() ==> #[trigger] after.outbound[i]
                    == progress.outbound[i]
            &&& forall|b: u16| #[trigger]
                after.requests_per_batch.dom().contains(b)
                    ==> progress.requests_per_batch.dom().contains(b)
                    && after.requests_per_batch[b] == progress.requests_per_batch[b]
                    || after.requests_per_batch[b].finite() && exists|g: int|
                    0 <= g < groups.len() && (#[trigger] ids[g]).1 == b
        }),
    decreases groups.len(),
{
    let after = progress.lined_up_all(local, groups, ids);
    if groups.len() > 0 {
        let rest = groups.drop_last();
        let last = groups.len() - 1;
        let (next, keys) = groups[last];
        let (request_id, batch_id) = ids[last];
        assert forall|g: int| 0 <= g < rest.len() implies (#[trigger] rest[g]).0.1 != local
            && rest[g].1.len() > 0 by {
            assert(rest[g] == groups[g]);
        }
        lemma_lined_up_all(progress, local, rest, ids);
        let before = progress.lined_up_all(local, rest, ids);
        assert(after == before.lined_up(local, next, keys, ids[last]));
        assert(after.outbound == before.outbound || after.outbound == before.outbound.push(
            after.outbound.last(),
        ));
        assert(!before.requests_per_batch.dom().contains(batch_id)) by {
            if before.requests_per_batch.dom().contains(batch_id) {
                let g = choose|g: int| 0 <= g < rest.len() && (#[trigger] ids[g]).1 == batch_id;
                assert(ids[g].1 != ids[last].1);
            }
        }
        assert forall|b: u16, r: u16| #[trigger] is_open(after, b, r) <==> is_open(progress, b, r)
            || is_lined_up(groups, ids, b, r) by {
            assert(is_open(before, b, r) <==> is_open(progress, b, r) || is_lined_up(
                rest,
                ids,
                b,
                r,
            ));
            if is_lined_up(rest, ids, b, r) {
                let g = choose|g: int|
                    0 <= g < rest.len() && !(#[trigger] rest[g]).0.0 && ids[g] == (r, b);
                assert(!groups[g].0.0 && ids[g] == (r, b));
            }
            if is_lined_up(groups, ids, b, r) {
                let g = choose|g: int|
                    0 <= g < groups.len() && !(#[trigger] groups[g]).0.0 && ids[g] == (r, b);
                if g < last {
                    assert(!rest[g].0.0 && ids[g] == (r, b));
                }
            }
            if is_open(after, b, r) && !is_open(before, b, r) {
                assert(!groups[last].0.0 && ids[last] == (r, b));
            }
        }
        assert forall|g: int|
            #![trigger groups[g]]
            #![trigger ids[g]]
            0 <= g < groups.len() implies after.keys_per_batch.dom().contains(ids[g].1)
            && after.keys_per_batch[ids[g].1] == groups[g].1 by {
            if g < last {
                assert(rest[g] == groups[g]);
                assert(ids[g].1 != ids[last].1);
            }
        }
        assert forall|g: int| 0 <= g < groups.len() && !(#[trigger] groups[g]).0.0 implies
            is_in_line(after, ids[g].1, ids[g].0) by {
            if g < last {
                assert(!rest[g].0.0);
                assert(is_in_line(before, ids[g].1, ids[g].0));
                let i = choose|i: int|
                    0 <= i < before.outbound.len() && (#[trigger] before.outbound[i]).request_id
                        == ids[g].0 && before.outbound[i].batch_id == ids[g].1;
                assert(after.outbound[i] == before.outbound[i]);
            } else {
                let i = after.outbound.len() - 1;
                assert(after.outbound[i].request_id == ids[g].0);
            }
        }
        assert forall|g: int, k: NodeId|
            #![trigger groups[g].1.contains(k)]
            0 <= g < groups.len() && groups[g].0.0 && groups[g].1.contains(k) implies set_under(
            after.addressed,
            groups[g].0.1,
        ).contains(k) by {
            if g < last {
                assert(rest[g] == groups[g]);
                assert(rest[g].1.contains(k));
            }
        }
        assert forall|n: NodeId, k: NodeId| #[trigger]
            set_under(progress.addressed, n).contains(k) implies set_under(
            after.addressed,
            n,
        ).contains(k) by {
            assert(set_under(before.addressed, n).contains(k));
        }
        assert forall|b: u16| #[trigger] after.requests_per_batch.dom().contains(b) implies
            progress.requests_per_batch.dom().contains(b) && after.requests_per_batch[b]
            == progress.requests_per_batch[b] || after.requests_per_batch[b].finite() && exists|
            g: int,
        | 0 <= g < groups.len() && (#[trigger] ids[g]).1 == b by {
            if b == batch_id {
                assert(ids[last].1 == b);
            } else {
                assert(before.requests_per_batch.dom().contains(b));
            }
        }
    }
}

/// The last answer on a batch keeps the books in order: the keys of the batch are lined up for the
/// nodes to turn to next, under identifiers that are new.
pub proof fn lemma_last_answer_keeps_account(
    progress: Progress,
    local: NodeId,
    keys: Set<NodeId>,
    request_id: u16,
    batch_id: u16,
    from: NodeId,
    closer: Seq<NodeId>,
    groups: Seq<((bool, NodeId), Seq<NodeId>)>,
    cap: Option<nat>,
    ids: Seq<(u16, u16)>,
)
    requires
        accounts_for(progress, local, keys),
        is_open(progress, batch_id, request_id),
        progress.accepts(request_id, batch_id, from, closer),
        progress.noted(request_id, batch_id, from, closer).requests_per_batch[batch_id].len() == 0,
        from != local,
        !closer.contains(local),
        are_next_groups(groups, progress.offers_with(batch_id, from, closer), cap),
        cap != Some(0nat),
        ids.len() == groups.len(),
        are_fresh(progress, ids),
    ensures
        accounts_for(
            progress.noted(request_id, batch_id, from, closer).closed(batch_id).lined_up_all(
                local,
                groups,
                ids,
            ).settled(request_id, from),
            local,
            keys,
        ),
{
    let noted = progress.noted(request_id, batch_id, from, closer).closed(batch_id);
    let lined = noted.lined_up_all(local, groups, ids);
    let after = lined.settled(request_id, from);
    let batch = progress.keys_per_batch[batch_id];
    let responses = progress.offers_with(batch_id, from, closer);
    let known = list_under(progress.responses_per_batch, batch_id);
    let more = offers(closer, from, batch);
    assert(noted.requests_per_batch[batch_id] =~= Set::empty());
    assert forall|b: u16, r: u16| is_open(noted, b, r) == (is_open(progress, b, r) && b
        != batch_id) by {}
    lemma_offers_name(closer, from, batch, local);
    assert(names_others(responses, local)) by {
        if progress.responses_per_batch.dom().contains(batch_id) {
            assert(names_others(known, local));
        }
        assert forall|i: int| 0 <= i < responses.len() implies (#[trigger] responses[i]).1.1
            != local by {
            if i < known.len() {
                assert(responses[i] == known[i]);
            } else {
                assert(responses[i] == more[i - known.len()]);
            }
        }
    }
    lemma_next_groups(groups, responses, cap);
    assert forall|g: int| 0 <= g < groups.len() implies (#[trigger] groups[g]).0.1 != local
        && groups[g].1.len() > 0 by {
        assert(responses.contains((groups[g].1[0], groups[g].0)));
        let i = choose|i: int|
            0 <= i < responses.len() && responses[i] == (groups[g].1[0], groups[g].0);
        assert(responses[i].1.1 != local);
    }
    assert(are_fresh(noted, ids)) by {
        assert forall|i: int| 0 <= i < ids.len() implies {
            &&& !noted.keys_per_batch.dom().contains((#[trigger] ids[i]).1)
            &&& !noted.requests_per_batch.dom().contains(ids[i].1)
            &&& forall|b: u16| !#[trigger] is_open(noted, b, ids[i].0)
        } by {
            assert forall|b: u16| !#[trigger] is_open(noted, b, ids[i].0) by {
                assert(!is_open(progress, b, ids[i].0));
            }
        }
    }
    lemma_lined_up_all(noted, local, groups, ids);
    assert forall|b: u16, r: u16| is_open(after, b, r) == is_open(lined, b, r) by {}
    assert forall|k: NodeId| #[trigger] keys.contains(k) implies is_addressed(after, local, k)
        || is_asked(after, k) by {
        if is_addressed(progress, local, k) {
            let n = choose|n: NodeId|
                n != local && #[trigger] set_under(progress.addressed, n).contains(k);
            assert(set_under(noted.addressed, n).contains(k));
            assert(set_under(after.addressed, n).contains(k));
        } else {
            let (b, r) = choose|b: u16, r: u16| #[trigger]
                is_open(progress, b, r) && progress.keys_per_batch[b].contains(k);
            if b != batch_id {
                assert(is_open(noted, b, r));
                assert(noted.keys_per_batch.dom().contains(b));
                assert(is_open(after, b, r) && after.keys_per_batch[b].contains(k));
            } else {
                lemma_key_lined_up(progress, local, batch_id, from, closer, groups, cap, k);
                let g = choose|g: int|
                    0 <= g < groups.len() && (#[trigger] groups[g]).1.contains(k);
                if groups[g].0.0 {
                    assert(set_under(after.addressed, groups[g].0.1).contains(k));
                } else {
                    assert(is_lined_up(groups, ids, ids[g].1, ids[g].0));
                    assert(is_open(after, ids[g].1, ids[g].0));
                    assert(after.keys_per_batch[ids[g].1].contains(k));
                }
            }
        }
    }
    assert forall|b: u16, r: u16| #[trigger] is_open(after, b, r) implies {
        &&& after.keys_per_batch.dom().contains(b)
        &&& after.pending.contains(r) || is_in_line(after, b, r)
    } by {
        assert(is_open(lined, b, r));
        if is_open(noted, b, r) {
            assert(is_open(progress, b, r));
            assert(noted.keys_per_batch.dom().contains(b));
            if r == request_id {
                assert(is_open(progress, batch_id, request_id));
            }
            if is_in_line(progress, b, r) {
                let i = choose|i: int|
                    0 <= i < progress.outbound.len() && (
                    #[trigger] progress.outbound[i]).request_id == r
                        && progress.outbound[i].batch_id == b;
                assert(after.outbound[i] == noted.outbound[i]);
            }
        } else {
            let g = choose|g: int|
                0 <= g < groups.len() && !(#[trigger] groups[g]).0.0 && ids[g] == (r, b);
            assert(is_in_line(lined, ids[g].1, ids[g].0));
            let i = choose|i: int|
                0 <= i < lined.outbound.len() && (#[trigger] lined.outbound[i]).request_id == r
                    && lined.outbound[i].batch_id == b;
            assert(after.outbound[i] == lined.outbound[i]);
        }
    }
    assert forall|b: u16, c: u16, r: u16| #[trigger] is_open(after, b, r) && #[trigger] is_open(
        after,
        c,
        r,
    ) implies b == c by {
        assert(is_open(lined, b, r) && is_open(lined, c, r));
        if is_lined_up(groups, ids, b, r) {
            let g = choose|g: int|
                0 <= g < groups.len() && !(#[trigger] groups[g]).0.0 && ids[g] == (r, b);
            assert(!is_open(noted, c, ids[g].0));
            let h = choose|h: int|
                0 <= h < groups.len() && !(#[trigger] groups[h]).0.0 && ids[h] == (r, c);
            if g < h {
                assert(ids[g].0 != ids[h].0);
            } else if h < g {
                assert(ids[h].0 != ids[g].0);
            }
        } else if is_lined_up(groups, ids, c, r) {
            let h = choose|h: int|
                0 <= h < groups.len() && !(#[trigger] groups[h]).0.0 && ids[h] == (r, c);
            assert(!is_open(noted, b, ids[h].0));
        } else {
            assert(is_open(progress, b, r) && is_open(progress, c, r));
        }
    }
    assert forall|b: u16| #[trigger] after.requests_per_batch.dom().contains(b) implies
        after.requests_per_batch[b].finite() by {
        assert(lined.requests_per_batch.dom().contains(b));
        if noted.requests_per_batch.dom().contains(b) {
            assert(progress.requests_per_batch.dom().contains(b));
        }
    }
    assert forall|b: u16| #[trigger] after.responses_per_batch.dom().contains(b) implies
        names_others(after.responses_per_batch[b], local) by {
        assert(progress.responses_per_batch.dom().contains(b));
    }
}

proof fn lemma_key_lined_up(
    progress: Progress,
    local: NodeId,
    batch_id: u16,
    from: NodeId,
    closer: Seq<NodeId>,
    groups: Seq<((bool, NodeId), Seq<NodeId>)>,
    cap: Option<nat>,
    key: NodeId,
)
    requires
        progress.keys_per_batch[batch_id].contains(key),
        are_next_groups(groups, progress.offers_with(batch_id, from, closer), cap),
        cap != Some(0nat),
    ensures
        exists|g: int| 0 <= g < groups.len() && (#[trigger] groups[g]).1.contains(key),
{
    let batch = progress.keys_per_batch[batch_id];
    let responses = progress.offers_with(batch_id, from, closer);
    let known = list_under(progress.responses_per_batch, batch_id);
    let more = offers(closer, from, batch);
    lemma_each_key_is_offered(closer, from, batch, key);
    let p = choose|p: int| 0 <= p < more.len() && (#[trigger] more[p]).0 == key;
    assert(responses[known.len() + p] == more[p]);
    lemma_no_key_is_lost(groups, responses, cap, known.len() + p);
}

/// Whether a request went to one of `nodes` other than the originator.
pub open spec fn was_sent(
    local: NodeId,
    nodes: Seq<NodeId>,
    request_ids: Seq<u16>,
    request_id: u16,
) -> bool {
    exists|m: int|
        0 <= m < nodes.len() && #[trigger] nodes[m] != local && request_ids[m] == request_id
}

/// Whether a request is one of the first requests of a batch.
pub open spec fn was_opened(
    local: NodeId,
    batches: Seq<PlannedBatch>,
    ids: Seq<BatchIds>,
    batch_id: u16,
    request_id: u16,
) -> bool {
    exists|j: int|
        0 <= j < batches.len() && (#[trigger] ids[j]).batch_id == batch_id && was_sent(
            local,
            batches[j].nodes@,
            ids[j].request_ids@,
            request_id,
        )
}

/// The keys of the batches that are sent to some node other than the originator.
pub open spec fn asked_keys(local: NodeId, batches: Seq<PlannedBatch>) -> Set<NodeId> {
    Set::new(
        |k: NodeId|
            exists|j: int|
                0 <= j < batches.len() && (#[trigger] batches[j]).keys@.contains(k)
                    && has_other(local, batches[j].nodes@),
    )
}

/// Whether there is a node other than the originator.
pub open spec fn has_other(local: NodeId, nodes: Seq<NodeId>) -> bool {
    exists|m: int| 0 <= m < nodes.len() && #[trigger] nodes[m] != local
}

/// Whether the identifiers of batches are all different, and no two batches share that of a request.
pub open spec fn are_distinct_ids(ids: Seq<BatchIds>) -> bool {
    &&& forall|i: int, j: int|
        0 <= i < j < ids.len() ==> (#[trigger] ids[i]).batch_id != (#[trigger] ids[j]).batch_id
    &&& forall|i: int, j: int, m: int, n: int|
        #![trigger ids[i].request_ids@[m], ids[j].request_ids@[n]]
        0 <= i < ids.len() && 0 <= j < ids.len() && 0 <= m < ids[i].request_ids@.len() && 0 <= n
            < ids[j].request_ids@.len() && ids[i].request_ids@[m] == ids[j].request_ids@[n] ==> i
            == j
}

proof fn lemma_opened_to(
    progress: Progress,
    local: NodeId,
    nodes: Seq<NodeId>,
    batch_id: u16,
    request_ids: Seq<u16>,
)
    requires
        progress.pending.finite(),
        forall|b: u16| #[trigger]
            progress.requests_per_batch.dom().contains(b)
                ==> progress.requests_per_batch[b].finite(),
    ensures
        ({
            let after = progress.opened_to(local, nodes, batch_id, request_ids);
            &&& after.pending.finite()
            &&& after.keys_per_batch == progress.keys_per_batch
            &&& after.responses_per_batch == progress.responses_per_batch
            &&& after.outbound == progress.outbound
            &&& after.addressed == progress.addressed
            &&& forall|r: u16| #[trigger]
                after.pending.contains(r) <==> progress.pending.contains(r) || was_sent(
                    local,
                    nodes,
                    request_ids,
                    r,
                )
            &&& forall|b: u16, r: u16| #[trigger]
                is_open(after, b, r) <==> is_open(progress, b, r) || b == batch_id && was_sent(
                    local,
                    nodes,
                    request_ids,
                    r,
                )
            &&& forall|b: u16| #[trigger]
                after.requests_per_batch.dom().contains(b)
                    ==> after.requests_per_batch[b].finite()
        }),
    decreases nodes.len(),
{
    let after = progress.opened_to(local, nodes, batch_id, request_ids);
    if nodes.len() > 0 {
        let rest = nodes.drop_last();
        let last = nodes.len() - 1;
        lemma_opened_to(progress, local, rest, batch_id, request_ids);
        let before = progress.opened_to(local, rest, batch_id, request_ids);
        assert forall|r: u16| #[trigger]
            was_sent(local, nodes, request_ids, r) <==> was_sent(local, rest, request_ids, r)
                || nodes[last] != local && request_ids[last] == r by {
            if was_sent(local, nodes, request_ids, r) {
                let m = choose|m: int|
                    0 <= m < nodes.len() && #[trigger] nodes[m] != local && request_ids[m] == r;
                if m < last {
                    assert(rest[m] != local && request_ids[m] == r);
                }
            }
            if was_sent(local, rest, request_ids, r) {
                let m = choose|m: int|
                    0 <= m < rest.len() && #[trigger] rest[m] != local && request_ids[m] == r;
                assert(nodes[m] != local && request_ids[m] == r);
            }
        }
        assert forall|b: u16, r: u16| #[trigger] is_open(after, b, r) <==> is_open(progress, b, r)
            || b == batch_id && was_sent(local, nodes, request_ids, r) by {
            assert(is_open(before, b, r) <==> is_open(progress, b, r) || b == batch_id && was_sent(
                local,
                rest,
                request_ids,
                r,
            ));
            if nodes[last] != local {
                assert(set_under(before.requests_per_batch, batch_id).contains(r) == is_open(
                    before,
                    batch_id,
                    r,
                ));
                assert(is_open(after, b, r) <==> is_open(before, b, r) || b == batch_id && r
                    == request_ids[last]);
            }
        }
    } else {
        assert forall|r: u16| !#[trigger] was_sent(local, nodes, request_ids, r) by {}
    }
}

proof fn lemma_opened_all(local: NodeId, batches: Seq<PlannedBatch>, ids: Seq<BatchIds>)
    requires
        batches.len() <= ids.len(),
        are_distinct_ids(ids),
    ensures
        ({
            let after = Progress::start().opened_all(local, batches, ids);
            &&& after.pending.finite()
            &&& after.responses_per_batch == Map::<u16, Seq<(NodeId, (bool, NodeId))>>::empty()
            &&& forall|b: u16, r: u16| #[trigger]
                is_open(after, b, r) <==> was_opened(local, batches, ids, b, r)
            &&& forall|b: u16, r: u16| #[trigger]
                is_open(after, b, r) ==> after.pending.contains(r)
            &&& forall|j: int|
                0 <= j < batches.len() ==> after.keys_per_batch.dom().contains(
                    (#[trigger] ids[j]).batch_id,
                ) && after.keys_per_batch[ids[j].batch_id] == batches[j].keys@
            &&& forall|b: u16| #[trigger]
                after.requests_per_batch.dom().contains(b)
                    ==> after.requests_per_batch[b].finite()
        }),
    decreases batches.len(),
{
    let after = Progress::start().opened_all(local, batches, ids);
    if batches.len() > 0 {
        let rest = batches.drop_last();
        let last = batches.len() - 1;
        lemma_opened_all(local, rest, ids);
        let before = Progress::start().opened_all(local, rest, ids);
        let known = Progress {
            keys_per_batch: before.keys_per_batch.insert(ids[last].batch_id, batches[last].keys@),
            ..before
        };
        assert forall|b: u16, r: u16| is_open(known, b, r) == is_open(before, b, r) by {}
        let nodes = batches[last].nodes@;
        let request_ids = ids[last].request_ids@;
        lemma_opened_to(known, local, nodes, ids[last].batch_id, request_ids);
        assert(after == known.opened_to(local, nodes, ids[last].batch_id, request_ids));
        assert forall|b: u16, r: u16| #[trigger] is_open(after, b, r) <==> was_opened(
            local,
            batches,
            ids,
            b,
            r,
        ) by {
            assert(is_open(before, b, r) <==> was_opened(local, rest, ids, b, r));
            assert(is_open(after, b, r) <==> is_open(known, b, r) || b == ids[last].batch_id
                && was_sent(local, nodes, request_ids, r));
            if was_opened(local, rest, ids, b, r) {
                let j = choose|j: int|
                    0 <= j < rest.len() && (#[trigger] ids[j]).batch_id == b && was_sent(
                        local,
                        rest[j].nodes@,
                        ids[j].request_ids@,
                        r,
                    );
                assert(rest[j] == batches[j]);
                assert(ids[j].batch_id == b && was_sent(
                    local,
                    batches[j].nodes@,
                    ids[j].request_ids@,
                    r,
                ));
            }
            if was_opened(local, batches, ids, b, r) {
                let j = choose|j: int|
                    0 <= j < batches.len() && (#[trigger] ids[j]).batch_id == b && was_sent(
                        local,
                        batches[j].nodes@,
                        ids[j].request_ids@,
                        r,
                    );
                if j < last {
                    assert(rest[j] == batches[j]);
                    assert(ids[j].batch_id == b && was_sent(
                        local,
                        rest[j].nodes@,
                        ids[j].request_ids@,
                        r,
                    ));
                }
            }
        }
        assert forall|b: u16, r: u16| #[trigger] is_open(after, b, r) implies
            after.pending.contains(r) by {
            if is_open(known, b, r) {
                assert(is_open(before, b, r));
            }
        }
        assert forall|j: int| 0 <= j < batches.len() implies after.keys_per_batch.dom().contains(
            (#[trigger] ids[j]).batch_id,
        ) && after.keys_per_batch[ids[j].batch_id] == batches[j].keys@ by {
            if j < last {
                assert(rest[j] == batches[j]);
                assert(ids[j].batch_id != ids[last].batch_id);
            }
        }
    } else {
        assert forall|b: u16, r: u16| !#[trigger] was_opened(local, batches, ids, b, r) by {}
    }
}

/// The first requests put the books in order, if all identifiers are different: every key of a
/// batch that is sent to some node is being asked about.
pub proof fn lemma_opening_accounts(
    local: NodeId,
    batches: Seq<PlannedBatch>,
    ids: Seq<BatchIds>,
)
    requires
        are_ids_for(ids, batches),
        are_distinct_ids(ids),
    ensures
        accounts_for(
            Progress::start().opened_all(local, batches, ids),
            local,
            asked_keys(local, batches),
        ),
{
    let after = Progress::start().opened_all(local, batches, ids);
    let keys = asked_keys(local, batches);
    lemma_opened_all(local, batches, ids);
    assert forall|k: NodeId| #[trigger] keys.contains(k) implies is_addressed(after, local, k)
        || is_asked(after, k) by {
        let j = choose|j: int|
            0 <= j < batches.len() && (#[trigger] batches[j]).keys@.contains(k) && has_other(
                local,
                batches[j].nodes@,
            );
        let nodes = batches[j].nodes@;
        let m = choose|m: int| 0 <= m < nodes.len() && #[trigger] nodes[m] != local;
        let b = ids[j].batch_id;
        let r = ids[j].request_ids@[m];
        assert(was_sent(local, nodes, ids[j].request_ids@, r));
        assert(was_opened(local, batches, ids, b, r));
        assert(is_open(after, b, r) && after.keys_per_batch[b].contains(k));
    }
    assert forall|b: u16, r: u16| #[trigger] is_open(after, b, r) implies
        after.keys_per_batch.dom().contains(b) by {
        let j = choose|j: int|
            0 <= j < batches.len() && (#[trigger] ids[j]).batch_id == b && was_sent(
                local,
                batches[j].nodes@,
                ids[j].request_ids@,
                r,
            );
        assert(after.keys_per_batch.dom().contains(ids[j].batch_id));
    }
    assert forall|b: u16, c: u16, r: u16| #[trigger] is_open(after, b, r) && #[trigger] is_open(
        after,
        c,
        r,
    ) implies b == c by {
        let i = choose|j: int|
            0 <= j < batches.len() && (#[trigger] ids[j]).batch_id == b && was_sent(
                local,
                batches[j].nodes@,
                ids[j].request_ids@,
                r,
            );
        let j = choose|j: int|
            0 <= j < batches.len() && (#[trigger] ids[j]).batch_id == c && was_sent(
                local,
                batches[j].nodes@,
                ids[j].request_ids@,
                r,
            );
        let nodes = batches[i].nodes@;
        let others = batches[j].nodes@;
        let m = choose|m: int|
            0 <= m < nodes.len() && #[trigger] nodes[m] != local && ids[i].request_ids@[m] == r;
        let n = choose|m: int|
            0 <= m < others.len() && #[trigger] others[m] != local && ids[j].request_ids@[m] == r;
        assert(ids[i].request_ids@[m] == ids[j].request_ids@[n]);
    }
}

} // verus!
