//! What the answers of nodes mean for the keys that they were asked about.

use vstd::prelude::*;
use crate::allocation::{cap_of, capped, lemma_capped, lemma_values_of_concat};
use crate::grouping::{
    comes_first, first_occurrences, group_contents, group_pairs, has_group, is_grouping,
    lemma_first_occurrences_are_exact, lemma_ranked, lemma_ranked_is_stable, lemma_ranked_payloads,
    lemma_value_of_pair, lemma_values_contain, payloads, rank_order, ranked, unique, values_of,
    with_ranks,
};
use crate::ids::{
    be_value, bucket_index, bucket_of, distance, lemma_distance_unidirectional,
    lemma_same_bucket_is_closer, xor_distance, NodeId,
};

verus! {

/// What to do next with a node on behalf of a key.
#[derive(Clone, Copy, Debug)]
pub enum RemoteNodeId {
    /// Ask it for nodes that are closer still.
    AskCloser(NodeId),
    /// Hand it the samples, since it knows of none.
    SendSamples(NodeId),
}

impl RemoteNodeId {
    /// Whether the node is handed samples, and the node.
    pub open spec fn tag(self) -> (bool, NodeId) {
        match self {
            RemoteNodeId::AskCloser(n) => (false, n),
            RemoteNodeId::SendSamples(n) => (true, n),
        }
    }

    /// The node.
    pub fn unwrap(&self) -> (node: NodeId)
        ensures
            node == self.tag().1,
    {
        match self {
            RemoteNodeId::AskCloser(n) => *n,
            RemoteNodeId::SendSamples(n) => *n,
        }
    }

    fn to_tag(&self) -> (tag: (bool, NodeId))
        ensures
            tag == self.tag(),
    {
        match self {
            RemoteNodeId::AskCloser(n) => (false, *n),
            RemoteNodeId::SendSamples(n) => (true, *n),
        }
    }

    fn from_tag(tag: &(bool, NodeId)) -> (remote: Self)
        ensures
            remote.tag() == *tag,
    {
        if tag.0 {
            RemoteNodeId::SendSamples(tag.1)
        } else {
            RemoteNodeId::AskCloser(tag.1)
        }
    }
}

/// The nodes among `closer` that are in the same k-bucket of `remote` as a key, to be asked.
pub open spec fn to_ask(closer: Seq<NodeId>, remote: NodeId, key: NodeId) -> Seq<(bool, NodeId)>
    decreases closer.len(),
{
    if closer.len() == 0 {
        Seq::empty()
    } else {
        let front = to_ask(closer.drop_last(), remote, key);
        if bucket_index(remote, closer.last()) == bucket_index(remote, key) {
            front.push((false, closer.last()))
        } else {
            front
        }
    }
}

/// What an answer with closer nodes means for a key: the nodes in the key's bucket are asked next,
/// and the node that answered is handed the sample if there are none.
pub open spec fn next_for(closer: Seq<NodeId>, remote: NodeId, key: NodeId) -> Seq<
    (bool, NodeId),
> {
    let nodes = to_ask(closer, remote, key);
    if nodes.len() == 0 {
        seq![(true, remote)]
    } else {
        nodes
    }
}

/// A key with each of the nodes that are next for it.
pub open spec fn offered(key: NodeId, remotes: Seq<(bool, NodeId)>) -> Seq<
    (NodeId, (bool, NodeId)),
> {
    Seq::new(remotes.len(), |i: int| (key, remotes[i]))
}

/// What an answer with closer nodes means for the keys of a batch, in their order.
pub open spec fn offers(closer: Seq<NodeId>, remote: NodeId, keys: Seq<NodeId>) -> Seq<
    (NodeId, (bool, NodeId)),
>
    decreases keys.len(),
{
    if keys.len() == 0 {
        Seq::empty()
    } else {
        offers(closer, remote, keys.drop_last()) + offered(
            keys.last(),
            next_for(closer, remote, keys.last()),
        )
    }
}

/// Nodes with their distances to a key.
pub open spec fn remotes_at_distance(remotes: Seq<(bool, NodeId)>, key: NodeId) -> Seq<
    (nat, (bool, NodeId)),
> {
    Seq::new(remotes.len(), |i: int| (distance(remotes[i].1, key), remotes[i]))
}

/// The nodes that are chosen for a key: each once, the closest to the key first, and as many as
/// the replication policy allows.
pub open spec fn chosen_for(key: NodeId, remotes: Seq<(bool, NodeId)>, cap: Option<nat>) -> Seq<
    (bool, NodeId),
> {
    capped(payloads(ranked(remotes_at_distance(first_occurrences(remotes), key))), cap)
}

/// The nodes that are chosen for a key, each with the key.
pub open spec fn addressed(key: NodeId, remotes: Seq<(bool, NodeId)>) -> Seq<
    ((bool, NodeId), NodeId),
> {
    Seq::new(remotes.len(), |i: int| (remotes[i], key))
}

/// The nodes that are chosen for each key, given the nodes that were offered for it.
pub open spec fn reassigned(
    groups: Seq<(NodeId, Seq<(bool, NodeId)>)>,
    cap: Option<nat>,
) -> Seq<((bool, NodeId), NodeId)>
    decreases groups.len(),
{
    if groups.len() == 0 {
        Seq::empty()
    } else {
        reassigned(groups.drop_last(), cap) + addressed(
            groups.last().0,
            chosen_for(groups.last().0, groups.last().1, cap),
        )
    }
}

/// Whether `groups` are the nodes to turn to next with their keys, given what was offered for each
/// key, in any order of the keys and of the nodes.
pub open spec fn are_next_groups(
    groups: Seq<((bool, NodeId), Seq<NodeId>)>,
    responses: Seq<(NodeId, (bool, NodeId))>,
    cap: Option<nat>,
) -> bool {
    exists|by_key: Seq<(NodeId, Seq<(bool, NodeId)>)>| #[trigger]
        is_grouping(by_key, responses) && is_grouping(groups, reassigned(by_key, cap))
}

/// Responses with their nodes in the model.
pub open spec fn tagged(responses: Seq<(NodeId, RemoteNodeId)>) -> Seq<(NodeId, (bool, NodeId))> {
    Seq::new(responses.len(), |i: int| (responses[i].0, responses[i].1.tag()))
}

/// Groups with their nodes and keys in the model.
pub open spec fn tagged_groups(groups: Seq<(RemoteNodeId, Vec<NodeId>)>) -> Seq<
    ((bool, NodeId), Seq<NodeId>),
> {
    Seq::new(groups.len(), |i: int| (groups[i].0.tag(), groups[i].1@))
}

/// What an answer with closer nodes means for the keys of a batch.
pub fn offer(closer: &Vec<NodeId>, remote: &NodeId, keys: &Vec<NodeId>) -> (responses: Vec<
    (NodeId, RemoteNodeId),
>)
    requires
        !closer@.contains(*remote),
        !keys@.contains(*remote),
    ensures
        tagged(responses@) == offers(closer@, *remote, keys@),
{
    let mut responses: Vec<(NodeId, RemoteNodeId)> = Vec::new();
    let mut k: usize = 0;
    while k < keys.len()
        invariant
            k <= keys@.len(),
            !closer@.contains(*remote),
            !keys@.contains(*remote),
            tagged(responses@) == offers(closer@, *remote, keys@.take(k as int)),
        decreases keys@.len() - k,
    {
        let key: NodeId = keys[k];
        assert(keys@.contains(key));
        let bucket: usize = bucket_of(remote, &key);
        let ghost before = tagged(responses@);
        let mut c: usize = 0;
        let mut found: usize = 0;
        assert(closer@.take(0) =~= Seq::<NodeId>::empty());
        assert(tagged(responses@) =~= before + offered(key, to_ask(closer@.take(0), *remote, key)));
        while c < closer.len()
            invariant
                c <= closer@.len(),
                found <= c,
                !closer@.contains(*remote),
                bucket == bucket_index(*remote, key),
                found == to_ask(closer@.take(c as int), *remote, key).len(),
                tagged(responses@) == before + offered(
                    key,
                    to_ask(closer@.take(c as int), *remote, key),
                ),
            decreases closer@.len() - c,
        {
            let node: NodeId = closer[c];
            assert(closer@.contains(node));
            assert(closer@.take(c + 1).drop_last() =~= closer@.take(c as int));
            let ghost listed = responses@;
            if bucket_of(remote, &node) == bucket {
                responses.push((key, RemoteNodeId::AskCloser(node)));
                found = found + 1;
                assert(tagged(responses@) =~= tagged(listed).push((key, (false, node))));
                assert(tagged(responses@) =~= before + offered(
                    key,
                    to_ask(closer@.take(c + 1), *remote, key),
                ));
            }
            c = c + 1;
        }
        assert(closer@.take(c as int) =~= closer@);
        if found == 0 {
            let ghost listed = responses@;
            responses.push((key, RemoteNodeId::SendSamples(*remote)));
            assert(tagged(responses@) =~= tagged(listed).push((key, (true, *remote))));
            assert(tagged(responses@) =~= before + offered(key, next_for(closer@, *remote, key)));
        }
        assert(keys@.take(k + 1).drop_last() =~= keys@.take(k as int));
        k = k + 1;
    }
    assert(keys@.take(k as int) =~= keys@);
    responses
}

/// Chooses the nodes to turn to on behalf of a key.
fn choose_for(key: &NodeId, remotes: Vec<(bool, NodeId)>, cap: Option<usize>) -> (chosen: Vec<
    (bool, NodeId),
>)
    ensures
        chosen@ == chosen_for(*key, remotes@, cap_of(cap)),
{
    let kept: Vec<(bool, NodeId)> = unique(remotes);
    let mut items: Vec<(NodeId, (bool, NodeId))> = Vec::new();
    let mut i: usize = 0;
    while i < kept.len()
        invariant
            i <= kept@.len(),
            items@.len() == i,
            forall|j: int|
                0 <= j < i ==> (#[trigger] items@[j]).1 == kept@[j] && be_value(items@[j].0@)
                    == distance(kept@[j].1, *key),
        decreases kept@.len() - i,
    {
        let node: NodeId = RemoteNodeId::from_tag(&kept[i]).unwrap();
        items.push((xor_distance(&node, key), kept[i]));
        i = i + 1;
    }
    assert(with_ranks(items@) =~= remotes_at_distance(kept@, *key));
    let mut chosen: Vec<(bool, NodeId)> = rank_order(items);
    let ghost all = chosen@;
    if let Some(n) = cap {
        if n < chosen.len() {
            chosen.truncate(n);
            assert(chosen@ =~= all.take(n as int));
        }
    }
    chosen
}

/// Decides which nodes to turn to next, and with which keys, once all answers are in.
pub fn regroup(responses: &Vec<(NodeId, RemoteNodeId)>, cap: Option<usize>) -> (groups: Vec<
    (RemoteNodeId, Vec<NodeId>),
>)
    ensures
        are_next_groups(tagged_groups(groups@), tagged(responses@), cap_of(cap)),
{
    let mut offered_nodes: Vec<(NodeId, (bool, NodeId))> = Vec::new();
    let mut i: usize = 0;
    while i < responses.len()
        invariant
            i <= responses@.len(),
            offered_nodes@.len() == i,
            forall|j: int| 0 <= j < i ==> offered_nodes@[j] == #[trigger] tagged(responses@)[j],
        decreases responses@.len() - i,
    {
        offered_nodes.push((responses[i].0, responses[i].1.to_tag()));
        i = i + 1;
    }
    assert(offered_nodes@ =~= tagged(responses@));
    let mut by_key: Vec<(NodeId, Vec<(bool, NodeId)>)> = group_pairs(offered_nodes);
    let ghost contents = group_contents(by_key@);
    let mut pairs: Vec<((bool, NodeId), NodeId)> = Vec::new();
    let mut ordered: Vec<(NodeId, Vec<(bool, NodeId)>)> = Vec::new();
    while by_key.len() > 0
        invariant
            by_key@.len() + ordered@.len() == contents.len(),
            forall|j: int| 0 <= j < by_key@.len() ==> group_contents(by_key@)[j] == contents[j],
            forall|j: int|
                0 <= j < ordered@.len() ==> group_contents(ordered@)[j] == contents[contents.len()
                    - 1 - j],
        decreases by_key@.len(),
    {
        let ghost rest = by_key@;
        let ghost moved = ordered@;
        match by_key.pop() {
            Some(group) => {
                assert(group_contents(rest)[rest.len() - 1] == (group.0, group.1@));
                ordered.push(group);
                assert forall|j: int| 0 <= j < by_key@.len() implies group_contents(by_key@)[j]
                    == contents[j] by {
                    assert(group_contents(by_key@)[j] == group_contents(rest)[j]);
                }
                assert forall|j: int| 0 <= j < ordered@.len() implies group_contents(ordered@)[j]
                    == contents[contents.len() - 1 - j] by {
                    if j < moved.len() {
                        assert(group_contents(ordered@)[j] == group_contents(moved)[j]);
                    }
                }
            },
            None => {},
        }
    }
    assert(reassigned(contents.take(0), cap_of(cap)) =~= pairs@);
    while ordered.len() > 0
        invariant
            ordered@.len() <= contents.len(),
            forall|j: int|
                0 <= j < ordered@.len() ==> group_contents(ordered@)[j] == contents[contents.len()
                    - 1 - j],
            pairs@ == reassigned(contents.take(contents.len() - ordered@.len()), cap_of(cap)),
        decreases ordered@.len(),
    {
        let ghost rest = ordered@;
        let ghost done = contents.len() - rest.len();
        match ordered.pop() {
            Some((key, remotes)) => {
                assert(group_contents(rest)[rest.len() - 1] == (key, remotes@));
                assert(contents[done] == (key, remotes@));
                let ghost before = pairs@;
                let chosen: Vec<(bool, NodeId)> = choose_for(&key, remotes, cap);
                let ghost added = addressed(key, chosen@);
                let mut c: usize = 0;
                while c < chosen.len()
                    invariant
                        c <= chosen@.len(),
                        added == addressed(key, chosen@),
                        pairs@ == before + added.take(c as int),
                    decreases chosen@.len() - c,
                {
                    pairs.push((chosen[c], key));
                    c = c + 1;
                    assert(pairs@ =~= before + added.take(c as int));
                }
                assert(added.take(c as int) =~= added);
                assert(contents.take(done + 1).drop_last() =~= contents.take(done));
                assert(contents.take(done + 1).last() == contents[done]);
                assert forall|j: int| 0 <= j < ordered@.len() implies group_contents(ordered@)[j]
                    == contents[contents.len() - 1 - j] by {
                    assert(group_contents(ordered@)[j] == group_contents(rest)[j]);
                }
            },
            None => {},
        }
    }
    assert(contents.take(contents.len() as int) =~= contents);
    let by_node: Vec<((bool, NodeId), Vec<NodeId>)> = group_pairs(pairs);
    let groups: Vec<(RemoteNodeId, Vec<NodeId>)> = untag(by_node);
    assert(is_grouping(contents, tagged(responses@)));
    groups
}

fn untag(tagged_list: Vec<((bool, NodeId), Vec<NodeId>)>) -> (groups: Vec<
    (RemoteNodeId, Vec<NodeId>),
>)
    ensures
        tagged_groups(groups@) == group_contents(tagged_list@),
{
    let mut rest: Vec<((bool, NodeId), Vec<NodeId>)> = tagged_list;
    let ghost contents = group_contents(rest@);
    let mut reversed: Vec<(RemoteNodeId, Vec<NodeId>)> = Vec::new();
    while rest.len() > 0
        invariant
            rest@.len() + reversed@.len() == contents.len(),
            forall|j: int|
                0 <= j < rest@.len() ==> #[trigger] group_contents(rest@)[j] == contents[j],
            forall|j: int|
                0 <= j < reversed@.len() ==> #[trigger] tagged_groups(reversed@)[j]
                    == contents[contents.len() - 1 - j],
        decreases rest@.len(),
    {
        let ghost before = rest@;
        let ghost moved = reversed@;
        match rest.pop() {
            Some((tag, keys)) => {
                assert(group_contents(before)[before.len() - 1] == (tag, keys@));
                reversed.push((RemoteNodeId::from_tag(&tag), keys));
                assert forall|j: int| 0 <= j < rest@.len() implies #[trigger] group_contents(
                    rest@,
                )[j] == contents[j] by {
                    assert(group_contents(rest@)[j] == group_contents(before)[j]);
                }
                assert forall|j: int| 0 <= j < reversed@.len() implies #[trigger] tagged_groups(
                    reversed@,
                )[j] == contents[contents.len() - 1 - j] by {
                    if j < moved.len() {
                        assert(tagged_groups(reversed@)[j] == tagged_groups(moved)[j]);
                    }
                }
            },
            None => {},
        }
    }
    let mut groups: Vec<(RemoteNodeId, Vec<NodeId>)> = Vec::new();
    while reversed.len() > 0
        invariant
            groups@.len() + reversed@.len() == contents.len(),
            forall|j: int|
                0 <= j < reversed@.len() ==> #[trigger] tagged_groups(reversed@)[j]
                    == contents[contents.len() - 1 - j],
            forall|j: int|
                0 <= j < groups@.len() ==> #[trigger] tagged_groups(groups@)[j] == contents[j],
        decreases reversed@.len(),
    {
        let ghost before = reversed@;
        let ghost moved = groups@;
        match reversed.pop() {
            Some((remote, keys)) => {
                assert(tagged_groups(before)[before.len() - 1] == (remote.tag(), keys@));
                groups.push((remote, keys));
                assert forall|j: int| 0 <= j < reversed@.len() implies #[trigger] tagged_groups(
                    reversed@,
                )[j] == contents[contents.len() - 1 - j] by {
                    assert(tagged_groups(reversed@)[j] == tagged_groups(before)[j]);
                }
                assert forall|j: int| 0 <= j < groups@.len() implies #[trigger] tagged_groups(
                    groups@,
                )[j] == contents[j] by {
                    if j < moved.len() {
                        assert(tagged_groups(groups@)[j] == tagged_groups(moved)[j]);
                    }
                }
            },
            None => {},
        }
    }
    assert(tagged_groups(groups@) =~= contents);
    groups
}

/// The nodes that are asked next are named in the answer and are in the bucket of the key, seen from
/// the node that gave it.
pub(crate) proof fn lemma_to_ask(closer: Seq<NodeId>, remote: NodeId, key: NodeId)
    ensures
        forall|i: int|
            0 <= i < to_ask(closer, remote, key).len() ==> {
                &&& !(#[trigger] to_ask(closer, remote, key)[i]).0
                &&& closer.contains(to_ask(closer, remote, key)[i].1)
                &&& bucket_index(remote, to_ask(closer, remote, key)[i].1) == bucket_index(
                    remote,
                    key,
                )
            },
    decreases closer.len(),
{
    if closer.len() > 0 {
        let front = closer.drop_last();
        let asked = to_ask(closer, remote, key);
        let before = to_ask(front, remote, key);
        lemma_to_ask(front, remote, key);
        assert forall|i: int| 0 <= i < asked.len() implies {
            &&& !(#[trigger] asked[i]).0
            &&& closer.contains(asked[i].1)
            &&& bucket_index(remote, asked[i].1) == bucket_index(remote, key)
        } by {
            if i < before.len() {
                assert(asked[i] == before[i]);
                assert(front.contains(before[i].1));
                let j = choose|j: int| 0 <= j < front.len() && front[j] == before[i].1;
                assert(closer[j] == asked[i].1);
            } else {
                assert(closer[closer.len() - 1] == asked[i].1);
            }
        }
    }
}

/// Asking makes progress: an answer leads, for each key, either to the node that gave it, which is
/// handed the sample, or to named nodes that are strictly closer to the key than that node. There
/// is always at least one of them.
pub proof fn lemma_asking_makes_progress(closer: Seq<NodeId>, remote: NodeId, key: NodeId)
    requires
        !closer.contains(remote),
        key != remote,
    ensures
        next_for(closer, remote, key).len() > 0,
        next_for(closer, remote, key) == seq![(true, remote)] || forall|i: int|
            0 <= i < next_for(closer, remote, key).len() ==> {
                let next = #[trigger] next_for(closer, remote, key)[i];
                !next.0 && closer.contains(next.1) && distance(next.1, key) < distance(remote, key)
            },
{
    let nodes = to_ask(closer, remote, key);
    lemma_to_ask(closer, remote, key);
    assert forall|i: int| 0 <= i < nodes.len() implies distance((#[trigger] nodes[i]).1, key)
        < distance(remote, key) by {
        assert(closer.contains(nodes[i].1));
        lemma_same_bucket_is_closer(remote, nodes[i].1, key);
    }
}

/// Each key of a batch is offered at least one node by each answer.
pub proof fn lemma_each_key_is_offered(
    closer: Seq<NodeId>,
    remote: NodeId,
    keys: Seq<NodeId>,
    key: NodeId,
)
    requires
        keys.contains(key),
    ensures
        exists|p: int|
            0 <= p < offers(closer, remote, keys).len() && (#[trigger] offers(
                closer,
                remote,
                keys,
            )[p]).0 == key,
    decreases keys.len(),
{
    let all = offers(closer, remote, keys);
    let front = offers(closer, remote, keys.drop_last());
    if keys.last() == key {
        assert(all[front.len() as int].0 == key);
    } else {
        let i = choose|i: int| 0 <= i < keys.len() && keys[i] == key;
        assert(keys.drop_last()[i] == key);
        lemma_each_key_is_offered(closer, remote, keys.drop_last(), key);
        let p = choose|p: int| 0 <= p < front.len() && (#[trigger] front[p]).0 == key;
        assert(all[p].0 == key);
    }
}

proof fn lemma_first_occurrences<T>(items: Seq<T>)
    ensures
        first_occurrences(items).no_duplicates(),
        forall|item: T| #[trigger]
            first_occurrences(items).contains(item) <==> items.contains(item),
        items.len() > 0 ==> first_occurrences(items).len() > 0,
{
    lemma_first_occurrences_are_exact(items);
}

/// Which nodes are chosen for a key: each once, only offered ones, no more than allowed, and none
/// of those that were passed over is closer to the key than one that was chosen.
pub proof fn lemma_chosen_for(key: NodeId, remotes: Seq<(bool, NodeId)>, cap: Option<nat>)
    ensures
        chosen_for(key, remotes, cap).no_duplicates(),
        cap matches Some(n) ==> chosen_for(key, remotes, cap).len() <= n,
        remotes.len() > 0 && cap != Some(0nat) ==> chosen_for(key, remotes, cap).len() > 0,
        forall|next: (bool, NodeId)| #[trigger]
            chosen_for(key, remotes, cap).contains(next) ==> remotes.contains(next),
        forall|next: (bool, NodeId), other: (bool, NodeId)|
            #![trigger chosen_for(key, remotes, cap).contains(next), remotes.contains(other)]
            chosen_for(key, remotes, cap).contains(next) && remotes.contains(other)
                && !chosen_for(key, remotes, cap).contains(other) ==> distance(next.1, key)
                <= distance(other.1, key),
{
    broadcast use vstd::seq_lib::group_to_multiset_ensures;

    let distinct = first_occurrences(remotes);
    lemma_first_occurrences(remotes);
    let items = remotes_at_distance(distinct, key);
    lemma_ranked(items);
    lemma_ranked_payloads(items);
    assert(payloads(items) =~= distinct);
    let ordered = payloads(ranked(items));
    distinct.lemma_multiset_has_no_duplicates();
    ordered.lemma_multiset_has_no_duplicates_conv();
    lemma_capped(ordered, cap);
    let chosen = chosen_for(key, remotes, cap);
    assert forall|i: int| 0 <= i < ordered.len() implies (#[trigger] ranked(items)[i]).0
        == distance(ordered[i].1, key) by {
        let item = ranked(items)[i];
        assert(ranked(items).contains(item));
        assert(ranked(items).to_multiset().count(item) > 0);
        assert(items.contains(item));
    }
    assert forall|next: (bool, NodeId)| ordered.contains(next) <==> remotes.contains(next) by {
        assert(ordered.contains(next) <==> ordered.to_multiset().count(next) > 0);
        assert(distinct.contains(next) <==> distinct.to_multiset().count(next) > 0);
    }
    assert(ordered.len() == distinct.len());
    assert forall|next: (bool, NodeId), other: (bool, NodeId)|
        #![trigger chosen.contains(next), remotes.contains(other)]
        chosen.contains(next) && remotes.contains(other) && !chosen.contains(
            other,
        ) implies distance(next.1, key) <= distance(other.1, key) by {
        assert(ordered.contains(other));
        let i = choose|i: int| 0 <= i < chosen.len() && chosen[i] == next;
        let j = choose|j: int| 0 <= j < ordered.len() && ordered[j] == other;
        assert(ordered[i] == next);
        if j < chosen.len() {
            assert(chosen[j] == other);
        }
        assert(ranked(items)[i].0 <= ranked(items)[j].0);
    }
}

proof fn lemma_reassigned_has(
    groups: Seq<(NodeId, Seq<(bool, NodeId)>)>,
    cap: Option<nat>,
    g: int,
    next: (bool, NodeId),
)
    requires
        0 <= g < groups.len(),
        chosen_for(groups[g].0, groups[g].1, cap).contains(next),
    ensures
        exists|p: int|
            0 <= p < reassigned(groups, cap).len() && #[trigger] reassigned(groups, cap)[p] == (
                next,
                groups[g].0,
            ),
    decreases groups.len(),
{
    let all = reassigned(groups, cap);
    let front = reassigned(groups.drop_last(), cap);
    let chosen = chosen_for(groups[g].0, groups[g].1, cap);
    if g == groups.len() - 1 {
        let i = choose|i: int| 0 <= i < chosen.len() && chosen[i] == next;
        assert(all[front.len() + i] == (next, groups[g].0));
    } else {
        lemma_reassigned_has(groups.drop_last(), cap, g, next);
        let p = choose|p: int|
            0 <= p < front.len() && #[trigger] front[p] == (next, groups[g].0);
        assert(all[p] == front[p]);
    }
}

/// No key is lost: a key that was offered a node by some answer goes to at least one of the nodes
/// that are turned to next.
pub proof fn lemma_no_key_is_lost(
    groups: Seq<((bool, NodeId), Seq<NodeId>)>,
    responses: Seq<(NodeId, (bool, NodeId))>,
    cap: Option<nat>,
    p: int,
)
    requires
        are_next_groups(groups, responses, cap),
        cap != Some(0nat),
        0 <= p < responses.len(),
    ensures
        exists|g: int| 0 <= g < groups.len() && (#[trigger] groups[g]).1.contains(responses[p].0),
{
    let key = responses[p].0;
    let by_key = choose|by_key: Seq<(NodeId, Seq<(bool, NodeId)>)>| #[trigger]
        is_grouping(by_key, responses) && is_grouping(groups, reassigned(by_key, cap));
    assert(has_group(by_key, key));
    let k = choose|k: int| 0 <= k < by_key.len() && (#[trigger] by_key[k]).0 == key;
    lemma_chosen_for(key, by_key[k].1, cap);
    let chosen = chosen_for(key, by_key[k].1, cap);
    assert(chosen.contains(chosen[0]));
    lemma_reassigned_has(by_key, cap, k, chosen[0]);
    let pairs = reassigned(by_key, cap);
    let q = choose|q: int| 0 <= q < pairs.len() && #[trigger] pairs[q] == (chosen[0], key);
    lemma_values_contain(pairs, q);
    assert(has_group(groups, pairs[q].0));
    let g = choose|g: int| 0 <= g < groups.len() && (#[trigger] groups[g]).0 == pairs[q].0;
    assert(groups[g].1.contains(key));
}

proof fn lemma_values_of_addressed(
    key: NodeId,
    remotes: Seq<(bool, NodeId)>,
    next: (bool, NodeId),
)
    requires
        remotes.no_duplicates(),
    ensures
        values_of(addressed(key, remotes), next) == (if remotes.contains(next) {
            seq![key]
        } else {
            Seq::<NodeId>::empty()
        }),
    decreases remotes.len(),
{
    let pairs = addressed(key, remotes);
    if remotes.len() > 0 {
        let front = remotes.drop_last();
        assert(pairs.drop_last() =~= addressed(key, front));
        lemma_values_of_addressed(key, front, next);
        if front.contains(next) {
            let i = choose|i: int| 0 <= i < front.len() && front[i] == next;
            assert(remotes[i] == next);
            assert(remotes[remotes.len() - 1] != next);
        } else if remotes.last() == next {
            assert(remotes[remotes.len() - 1] == next);
            assert(values_of(pairs, next) =~= seq![key]);
        } else if remotes.contains(next) {
            let i = choose|i: int| 0 <= i < remotes.len() && remotes[i] == next;
            assert(front[i] == next);
        }
    }
}

proof fn lemma_reassigned_values(
    groups: Seq<(NodeId, Seq<(bool, NodeId)>)>,
    cap: Option<nat>,
    next: (bool, NodeId),
)
    requires
        forall|i: int, j: int|
            0 <= i < j < groups.len() ==> (#[trigger] groups[i]).0 != (#[trigger] groups[j]).0,
    ensures
        values_of(reassigned(groups, cap), next).no_duplicates(),
        forall|i: int|
            0 <= i < values_of(reassigned(groups, cap), next).len() ==> exists|g: int|
                0 <= g < groups.len() && (#[trigger] groups[g]).0 == #[trigger] values_of(
                    reassigned(groups, cap),
                    next,
                )[i] && groups[g].1.contains(next),
    decreases groups.len(),
{
    if groups.len() > 0 {
        let rest = groups.drop_last();
        let last = groups.last();
        assert forall|i: int, j: int| 0 <= i < j < rest.len() implies (#[trigger] rest[i]).0 != (
        #[trigger] rest[j]).0 by {
            assert(groups[i].0 != groups[j].0);
        }
        lemma_reassigned_values(rest, cap, next);
        lemma_chosen_for(last.0, last.1, cap);
        let chosen = chosen_for(last.0, last.1, cap);
        lemma_values_of_addressed(last.0, chosen, next);
        lemma_values_of_concat(reassigned(rest, cap), addressed(last.0, chosen), next);
        let before = values_of(reassigned(rest, cap), next);
        let all = values_of(reassigned(groups, cap), next);
        assert forall|i: int| 0 <= i < all.len() implies exists|g: int|
            0 <= g < groups.len() && (#[trigger] groups[g]).0 == #[trigger] all[i]
                && groups[g].1.contains(next) by {
            if i < before.len() {
                let v = before[i];
                let g = choose|g: int|
                    0 <= g < rest.len() && (#[trigger] rest[g]).0 == v && rest[g].1.contains(next);
                assert(groups[g].0 == all[i]);
            } else {
                assert(chosen.contains(next));
                assert(groups[groups.len() - 1].0 == all[i]);
            }
        }
        assert forall|i: int, j: int|
            0 <= i < all.len() && 0 <= j < all.len() && i != j implies all[i] != all[j] by {
            if i < before.len() && j < before.len() {
                assert(before[i] != before[j]);
            } else if i < before.len() {
                let v = before[i];
                let g = choose|g: int|
                    0 <= g < rest.len() && (#[trigger] rest[g]).0 == v && rest[g].1.contains(next);
                assert(groups[g].0 != groups[groups.len() - 1].0);
            } else if j < before.len() {
                let v = before[j];
                let g = choose|g: int|
                    0 <= g < rest.len() && (#[trigger] rest[g]).0 == v && rest[g].1.contains(next);
                assert(groups[g].0 != groups[groups.len() - 1].0);
            }
        }
    }
}

/// The nodes to turn to next: each once, with at least one key, no key twice, and only with keys
/// that it was offered for.
pub proof fn lemma_next_groups(
    groups: Seq<((bool, NodeId), Seq<NodeId>)>,
    responses: Seq<(NodeId, (bool, NodeId))>,
    cap: Option<nat>,
)
    requires
        are_next_groups(groups, responses, cap),
    ensures
        forall|i: int, j: int|
            0 <= i < j < groups.len() ==> (#[trigger] groups[i]).0 != (#[trigger] groups[j]).0,
        forall|i: int|
            0 <= i < groups.len() ==> (#[trigger] groups[i]).1.len() > 0
                && groups[i].1.no_duplicates(),
        forall|i: int, j: int|
            0 <= i < groups.len() && 0 <= j < groups[i].1.len() ==> responses.contains(
                (#[trigger] groups[i].1[j], groups[i].0),
            ),
{
    let by_key = choose|by_key: Seq<(NodeId, Seq<(bool, NodeId)>)>| #[trigger]
        is_grouping(by_key, responses) && is_grouping(groups, reassigned(by_key, cap));
    assert forall|i: int| 0 <= i < groups.len() implies (#[trigger] groups[i]).1.len() > 0
        && groups[i].1.no_duplicates() by {
        lemma_reassigned_values(by_key, cap, groups[i].0);
    }
    assert forall|i: int, j: int|
        0 <= i < groups.len() && 0 <= j < groups[i].1.len() implies responses.contains(
        (#[trigger] groups[i].1[j], groups[i].0),
    ) by {
        lemma_reassigned_values(by_key, cap, groups[i].0);
        let v = groups[i].1[j];
        assert(values_of(reassigned(by_key, cap), groups[i].0)[j] == v);
        let g = choose|g: int|
            0 <= g < by_key.len() && (#[trigger] by_key[g]).0 == v && by_key[g].1.contains(
                groups[i].0,
            );
        lemma_value_listed(responses, v, groups[i].0);
    }
}

proof fn lemma_value_listed<K, V>(pairs: Seq<(K, V)>, key: K, value: V)
    requires
        values_of(pairs, key).contains(value),
    ensures
        pairs.contains((key, value)),
    decreases pairs.len(),
{
    let all = values_of(pairs, key);
    let i = choose|i: int| 0 <= i < all.len() && all[i] == value;
    if pairs.len() > 0 {
        let front = values_of(pairs.drop_last(), key);
        if i < front.len() {
            assert(front[i] == value);
            lemma_value_listed(pairs.drop_last(), key, value);
            let p = choose|p: int|
                0 <= p < pairs.drop_last().len() && pairs.drop_last()[p] == (key, value);
            assert(pairs[p] == (key, value));
        } else {
            assert(pairs[pairs.len() - 1] == (key, value));
        }
    }
}

/// What an answer means for a key: all named nodes in the bucket of the key are asked, in the order
/// in which they were named, and only if there are none is the node that answered handed the sample.
pub proof fn lemma_answer_for_key(closer: Seq<NodeId>, remote: NodeId, key: NodeId)
    ensures
        ({
            let near = closer.filter(
                |n: NodeId| bucket_index(remote, n) == bucket_index(remote, key),
            );
            &&& near.len() > 0 ==> next_for(closer, remote, key) == near.map_values(
                |n: NodeId| (false, n),
            )
            &&& near.len() == 0 ==> next_for(closer, remote, key) == seq![(true, remote)]
        }),
{
    let near = |n: NodeId| bucket_index(remote, n) == bucket_index(remote, key);
    lemma_to_ask_by(closer, remote, key, near);
    assert(closer.filter(|n: NodeId| bucket_index(remote, n) == bucket_index(remote, key))
        == closer.filter(near));
}

proof fn lemma_to_ask_by(
    closer: Seq<NodeId>,
    remote: NodeId,
    key: NodeId,
    near: spec_fn(NodeId) -> bool,
)
    requires
        forall|n: NodeId| #[trigger]
            near(n) <==> bucket_index(remote, n) == bucket_index(remote, key),
    ensures
        to_ask(closer, remote, key) == closer.filter(near).map_values(|n: NodeId| (false, n)),
    decreases closer.len(),
{
    reveal(Seq::filter);
    if closer.len() > 0 {
        lemma_to_ask_by(closer.drop_last(), remote, key, near);
    }
    assert(to_ask(closer, remote, key) =~= closer.filter(near).map_values(
        |n: NodeId| (false, n),
    ));
}

/// What an answer means for the keys of a batch: each key is offered exactly the nodes that the
/// answer means for it, and no other key is offered any.
pub proof fn lemma_offers_are_exact(
    closer: Seq<NodeId>,
    remote: NodeId,
    keys: Seq<NodeId>,
    key: NodeId,
)
    ensures
        forall|next: (bool, NodeId)| #[trigger]
            offers(closer, remote, keys).contains((key, next)) <==> keys.contains(key) && next_for(
                closer,
                remote,
                key,
            ).contains(next),
        keys.no_duplicates() && keys.contains(key) ==> values_of(offers(closer, remote, keys), key)
            == next_for(closer, remote, key),
    decreases keys.len(),
{
    let all = offers(closer, remote, keys);
    if keys.len() == 0 {
        assert forall|next: (bool, NodeId)| !(#[trigger] all.contains((key, next))) by {}
    } else {
        let rest = keys.drop_last();
        let last = keys.last();
        let front = offers(closer, remote, rest);
        let nodes = next_for(closer, remote, last);
        let added = offered(last, nodes);
        lemma_offers_are_exact(closer, remote, rest, key);
        assert(keys.contains(key) <==> rest.contains(key) || key == last) by {
            if keys.contains(key) && key != last {
                let i = choose|i: int| 0 <= i < keys.len() && keys[i] == key;
                assert(rest[i] == key);
            }
            if rest.contains(key) {
                let i = choose|i: int| 0 <= i < rest.len() && rest[i] == key;
                assert(keys[i] == key);
            }
            assert(keys[keys.len() - 1] == last);
        }
        assert forall|next: (bool, NodeId)| #[trigger] all.contains((key, next)) <==> keys.contains(
            key,
        ) && next_for(closer, remote, key).contains(next) by {
            if all.contains((key, next)) {
                let p = choose|p: int| 0 <= p < all.len() && all[p] == (key, next);
                if p < front.len() {
                    assert(front[p] == (key, next));
                    assert(front.contains((key, next)));
                } else {
                    assert(added[p - front.len()] == (key, next));
                    assert(nodes[p - front.len()] == next);
                }
            }
            if rest.contains(key) && next_for(closer, remote, key).contains(next) {
                assert(front.contains((key, next)));
                let p = choose|p: int| 0 <= p < front.len() && front[p] == (key, next);
                assert(all[p] == (key, next));
            }
            if key == last && nodes.contains(next) {
                let i = choose|i: int| 0 <= i < nodes.len() && nodes[i] == next;
                assert(all[front.len() + i] == (key, next));
            }
        }
        if keys.no_duplicates() && keys.contains(key) {
            assert(rest.no_duplicates());
            lemma_values_of_concat(front, added, key);
            lemma_values_of_offered(last, nodes, key);
            if key == last {
                assert(!rest.contains(key)) by {
                    if rest.contains(key) {
                        let i = choose|i: int| 0 <= i < rest.len() && rest[i] == key;
                        assert(keys[i] == keys[keys.len() - 1]);
                    }
                }
                let before = values_of(front, key);
                if before.len() > 0 {
                    assert(before.contains(before[0]));
                    lemma_value_of_pair(front, key, before[0]);
                    assert(front.contains((key, before[0])));
                }
                assert(values_of(all, key) =~= nodes);
            } else {
                assert(values_of(all, key) =~= values_of(front, key));
            }
        }
    }
}

proof fn lemma_values_of_offered(key: NodeId, remotes: Seq<(bool, NodeId)>, other: NodeId)
    ensures
        values_of(offered(key, remotes), other) == (if other == key {
            remotes
        } else {
            Seq::empty()
        }),
    decreases remotes.len(),
{
    let pairs = offered(key, remotes);
    if remotes.len() > 0 {
        assert(pairs.drop_last() =~= offered(key, remotes.drop_last()));
        lemma_values_of_offered(key, remotes.drop_last(), other);
    }
    assert(values_of(pairs, other) =~= (if other == key {
        remotes
    } else {
        Seq::empty()
    }));
}

/// How many nodes are chosen for a key, and in which order: as many as were offered, and no more
/// than are allowed; all of them where there is no limit. Closer ones come first, and a node that
/// was offered in both ways is taken in the way that was offered first.
pub proof fn lemma_chosen_are_exact(key: NodeId, remotes: Seq<(bool, NodeId)>, cap: Option<nat>)
    ensures
        ({
            let chosen = chosen_for(key, remotes, cap);
            let different = remotes.to_set().len();
            &&& chosen.len() == (match cap {
                Some(n) => if n < different {
                    n
                } else {
                    different
                },
                None => different,
            })
            &&& cap is None || cap->0 >= different ==> chosen.to_set() == remotes.to_set()
            &&& forall|i: int, j: int|
                0 <= i < j < chosen.len() ==> distance((#[trigger] chosen[i]).1, key) < distance(
                    (#[trigger] chosen[j]).1,
                    key,
                ) || chosen[i].1 == chosen[j].1 && comes_first(remotes, chosen[i], chosen[j])
            &&& forall|next: (bool, NodeId), other: (bool, NodeId)|
                #![trigger chosen.contains(next), remotes.contains(other)]
                chosen.contains(next) && remotes.contains(other) && !chosen.contains(other)
                    ==> distance(next.1, key) < distance(other.1, key) || next.1 == other.1
                    && comes_first(remotes, next, other)
        }),
{
    broadcast use vstd::seq_lib::group_to_multiset_ensures;

    let distinct = first_occurrences(remotes);
    lemma_first_occurrences_are_exact(remotes);
    let items = remotes_at_distance(distinct, key);
    let sorted = ranked(items);
    lemma_ranked(items);
    lemma_ranked_payloads(items);
    assert(payloads(items) =~= distinct);
    let ordered = payloads(sorted);
    let chosen = chosen_for(key, remotes, cap);
    assert(ordered.len() == distinct.len());
    assert forall|i: int| 0 <= i < ordered.len() implies (#[trigger] sorted[i]).0 == distance(
        ordered[i].1,
        key,
    ) by {
        assert(sorted.contains(sorted[i]));
        assert(sorted.to_multiset().count(sorted[i]) > 0);
        assert(items.contains(sorted[i]));
    }
    assert forall|next: (bool, NodeId)| #[trigger] ordered.contains(next) <==> remotes.contains(
        next,
    ) by {
        assert(ordered.contains(next) <==> ordered.to_multiset().count(next) > 0);
        assert(distinct.contains(next) <==> distinct.to_multiset().count(next) > 0);
    }
    assert forall|i: int, j: int| 0 <= i < j < ordered.len() implies distance(
        (#[trigger] ordered[i]).1,
        key,
    ) < distance((#[trigger] ordered[j]).1, key) || ordered[i].1 == ordered[j].1 && comes_first(
        remotes,
        ordered[i],
        ordered[j],
    ) by {
        assert(sorted[i].0 <= sorted[j].0);
        if sorted[i].0 == sorted[j].0 {
            lemma_distance_unidirectional(ordered[i].1, ordered[j].1, key);
            lemma_ranked_is_stable(items, i, j);
            let (p, q) = choose|p: int, q: int|
                0 <= p < q < items.len() && (#[trigger] items[p]) == sorted[i] && (
                #[trigger] items[q]) == sorted[j];
            assert(distinct[p] == ordered[i] && distinct[q] == ordered[j]);
            assert(comes_first(remotes, distinct[p], distinct[q]));
        }
    }
    if chosen.len() == ordered.len() {
        assert(chosen =~= ordered);
        assert(chosen.to_set() =~= remotes.to_set());
    }
    assert forall|next: (bool, NodeId), other: (bool, NodeId)|
        #![trigger chosen.contains(next), remotes.contains(other)]
        chosen.contains(next) && remotes.contains(other) && !chosen.contains(
            other,
        ) implies distance(next.1, key) < distance(other.1, key) || next.1 == other.1
        && comes_first(remotes, next, other) by {
        assert(ordered.contains(other));
        let i = choose|i: int| 0 <= i < chosen.len() && chosen[i] == next;
        let j = choose|j: int| 0 <= j < ordered.len() && ordered[j] == other;
        assert(ordered[i] == next);
        if j < chosen.len() {
            assert(chosen[j] == other);
        }
        assert(i < j);
    }
    assert forall|i: int, j: int| 0 <= i < j < chosen.len() implies distance(
        (#[trigger] chosen[i]).1,
        key,
    ) < distance((#[trigger] chosen[j]).1, key) || chosen[i].1 == chosen[j].1 && comes_first(
        remotes,
        chosen[i],
        chosen[j],
    ) by {
        assert(chosen[i] == ordered[i] && chosen[j] == ordered[j]);
    }
}

/// The nodes that were offered for a key.
pub open spec fn offered_for(responses: Seq<(NodeId, (bool, NodeId))>, key: NodeId) -> Set<
    (bool, NodeId),
> {
    Set::new(|next: (bool, NodeId)| responses.contains((key, next)))
}

/// The nodes that are turned to on behalf of a key.
pub open spec fn turned_to(groups: Seq<((bool, NodeId), Seq<NodeId>)>, key: NodeId) -> Set<
    (bool, NodeId),
> {
    Set::new(
        |next: (bool, NodeId)|
            exists|g: int|
                0 <= g < groups.len() && (#[trigger] groups[g]).0 == next && groups[g].1.contains(
                    key,
                ),
    )
}

proof fn lemma_reassigned_from(
    groups: Seq<(NodeId, Seq<(bool, NodeId)>)>,
    cap: Option<nat>,
    p: int,
)
    requires
        0 <= p < reassigned(groups, cap).len(),
    ensures
        exists|g: int|
            0 <= g < groups.len() && (#[trigger] groups[g]).0 == reassigned(groups, cap)[p].1
                && chosen_for(groups[g].0, groups[g].1, cap).contains(reassigned(groups, cap)[p].0),
    decreases groups.len(),
{
    let all = reassigned(groups, cap);
    if groups.len() > 0 {
        let rest = groups.drop_last();
        let front = reassigned(rest, cap);
        let chosen = chosen_for(groups.last().0, groups.last().1, cap);
        if p < front.len() {
            lemma_reassigned_from(rest, cap, p);
            let g = choose|g: int|
                0 <= g < rest.len() && (#[trigger] rest[g]).0 == front[p].1 && chosen_for(
                    rest[g].0,
                    rest[g].1,
                    cap,
                ).contains(front[p].0);
            assert(groups[g] == rest[g]);
            assert(all[p] == front[p]);
        } else {
            assert(chosen[p - front.len()] == all[p].0);
            assert(groups[groups.len() - 1].0 == all[p].1);
        }
    }
}

/// Which nodes are turned to on behalf of a key, once all answers are in: as many of those that were
/// offered for it as are allowed, and all of them where there is no limit; none that was passed over
/// is closer to the key than one that is turned to.
pub proof fn lemma_turned_to(
    groups: Seq<((bool, NodeId), Seq<NodeId>)>,
    responses: Seq<(NodeId, (bool, NodeId))>,
    cap: Option<nat>,
    key: NodeId,
)
    requires
        are_next_groups(groups, responses, cap),
    ensures
        ({
            let takers = turned_to(groups, key);
            let offered = offered_for(responses, key);
            &&& takers.finite()
            &&& offered.finite()
            &&& takers.subset_of(offered)
            &&& takers.len() == (match cap {
                Some(n) => if n < offered.len() {
                    n
                } else {
                    offered.len()
                },
                None => offered.len(),
            })
            &&& cap is None ==> takers == offered
            &&& forall|next: (bool, NodeId), other: (bool, NodeId)|
                #![trigger takers.contains(next), offered.contains(other)]
                takers.contains(next) && offered.contains(other) && !takers.contains(other)
                    ==> distance(next.1, key) <= distance(other.1, key)
        }),
{
    let takers = turned_to(groups, key);
    let offered = offered_for(responses, key);
    let by_key = choose|by_key: Seq<(NodeId, Seq<(bool, NodeId)>)>| #[trigger]
        is_grouping(by_key, responses) && is_grouping(groups, reassigned(by_key, cap));
    let pairs = reassigned(by_key, cap);
    let remotes = values_of(responses, key);
    let chosen = chosen_for(key, remotes, cap);
    lemma_chosen_for(key, remotes, cap);
    lemma_chosen_are_exact(key, remotes, cap);
    assert forall|next: (bool, NodeId)| #[trigger] offered.contains(next) <==> remotes.to_set()
        .contains(next) by {
        lemma_value_of_pair(responses, key, next);
    }
    assert(offered =~= remotes.to_set());
    assert forall|next: (bool, NodeId)| #[trigger] takers.contains(next) <==> chosen.to_set()
        .contains(next) by {
        if takers.contains(next) {
            let g = choose|g: int|
                0 <= g < groups.len() && (#[trigger] groups[g]).0 == next && groups[g].1.contains(
                    key,
                );
            lemma_value_of_pair(pairs, next, key);
            let p = choose|p: int| 0 <= p < pairs.len() && pairs[p] == (next, key);
            lemma_reassigned_from(by_key, cap, p);
            let k = choose|k: int|
                0 <= k < by_key.len() && (#[trigger] by_key[k]).0 == key && chosen_for(
                    by_key[k].0,
                    by_key[k].1,
                    cap,
                ).contains(next);
            assert(by_key[k].1 == remotes);
        }
        if chosen.contains(next) {
            assert(remotes.contains(next));
            lemma_value_of_pair(responses, key, next);
            let p = choose|p: int| 0 <= p < responses.len() && responses[p] == (key, next);
            assert(has_group(by_key, responses[p].0));
            let k = choose|k: int| 0 <= k < by_key.len() && (#[trigger] by_key[k]).0 == key;
            assert(by_key[k].1 == remotes);
            lemma_reassigned_has(by_key, cap, k, next);
            let q = choose|q: int| 0 <= q < pairs.len() && #[trigger] pairs[q] == (next, key);
            lemma_value_of_pair(pairs, next, key);
            assert(pairs.contains((next, key)));
            assert(has_group(groups, pairs[q].0));
            let g = choose|g: int| 0 <= g < groups.len() && (#[trigger] groups[g]).0 == next;
            assert(groups[g].1.contains(key));
        }
    }
    assert(takers =~= chosen.to_set());
    chosen.unique_seq_to_set();
}

/// Nodes to turn to stand in the model for themselves and for whether they are handed samples, one by
/// one and with their keys.
pub proof fn lemma_tags(
    remote: RemoteNodeId,
    responses: Seq<(NodeId, RemoteNodeId)>,
    groups: Seq<(RemoteNodeId, Vec<NodeId>)>,
)
    ensures
        remote matches RemoteNodeId::AskCloser(n) ==> remote.tag() == (false, n),
        remote matches RemoteNodeId::SendSamples(n) ==> remote.tag() == (true, n),
        tagged(responses).len() == responses.len(),
        forall|i: int|
            0 <= i < responses.len() ==> (#[trigger] tagged(responses)[i]).0 == responses[i].0
                && tagged(responses)[i].1 == responses[i].1.tag(),
        tagged_groups(groups).len() == groups.len(),
        forall|i: int|
            0 <= i < groups.len() ==> (#[trigger] tagged_groups(groups)[i]).0 == groups[i].0.tag()
                && tagged_groups(groups)[i].1 == groups[i].1@,
{
}

} // verus!
