//! Which contacts a key is forwarded to.

use vstd::prelude::*;
use crate::args::{BatchingStrategy, DisseminationArgs, ReplicatePolicy, RoutingStrategy};
use crate::grouping::{
    group_contents, group_pairs, lemma_ranked, lemma_ranked_payloads, lemma_values_by,
    lemma_values_contain, lemma_values_witness, payloads, rank_order, ranked, values_of, with_ranks,
};
use crate::ids::{
    bucket_index, bucket_of, distance, lemma_bucket_index_bound, lemma_distance_unidirectional,
    lemma_same_bucket_is_closer, same_id, xor_distance, NodeId, NUM_BUCKETS,
};

verus! {

/// The contacts among `contacts` that belong into one k-bucket of `local`, in order.
pub open spec fn in_bucket(contacts: Seq<NodeId>, local: NodeId, index: nat) -> Seq<NodeId>
    decreases contacts.len(),
{
    if contacts.len() == 0 {
        Seq::empty()
    } else {
        let front = in_bucket(contacts.drop_last(), local, index);
        if bucket_index(local, contacts.last()) == index {
            front.push(contacts.last())
        } else {
            front
        }
    }
}

/// The contents of lists, one after the other.
pub open spec fn concatenated(lists: Seq<Vec<NodeId>>) -> Seq<NodeId>
    decreases lists.len(),
{
    if lists.len() == 0 {
        Seq::empty()
    } else {
        concatenated(lists.drop_last()) + lists.last()@
    }
}

/// The contacts of a node, by k-bucket.
pub struct RoutingTable {
    pub local: NodeId,
    pub buckets: Vec<Vec<NodeId>>,
}

impl RoutingTable {
    /// There is a bucket for each bit, each contact is another node in its own bucket, and no
    /// contact occurs twice.
    pub open spec fn wf(&self) -> bool {
        &&& self.buckets@.len() == NUM_BUCKETS
        &&& forall|i: int| 0 <= i < NUM_BUCKETS ==> (#[trigger] self.buckets@[i])@.no_duplicates()
        &&& forall|i: int, j: int|
            0 <= i < NUM_BUCKETS && 0 <= j < self.buckets@[i]@.len() ==> {
                &&& (#[trigger] self.buckets@[i]@[j]) != self.local
                &&& bucket_index(self.local, self.buckets@[i]@[j]) == i
            }
    }

    /// All contacts, bucket by bucket.
    pub open spec fn contacts(&self) -> Seq<NodeId> {
        concatenated(self.buckets@)
    }

    /// Sorts the contacts of a node into its k-buckets.
    pub fn new(local: NodeId, contacts: &Vec<NodeId>) -> (table: Self)
        requires
            contacts@.no_duplicates(),
            forall|i: int| 0 <= i < contacts@.len() ==> contacts@[i] != local,
        ensures
            table.wf(),
            table.local == local,
            forall|i: int|
                0 <= i < NUM_BUCKETS ==> (#[trigger] table.buckets@[i])@ == in_bucket(
                    contacts@,
                    local,
                    i as nat,
                ),
    {
        let mut buckets: Vec<Vec<NodeId>> = Vec::new();
        let mut b: usize = 0;
        while b < NUM_BUCKETS
            invariant
                b <= NUM_BUCKETS,
                buckets@.len() == b,
                contacts@.no_duplicates(),
                forall|i: int| 0 <= i < contacts@.len() ==> contacts@[i] != local,
                forall|i: int| 0 <= i < b ==> (#[trigger] buckets@[i])@.no_duplicates(),
                forall|i: int|
                    0 <= i < b ==> (#[trigger] buckets@[i])@ == in_bucket(
                        contacts@,
                        local,
                        i as nat,
                    ),
                forall|i: int, j: int|
                    0 <= i < b && 0 <= j < buckets@[i]@.len() ==> {
                        &&& (#[trigger] buckets@[i]@[j]) != local
                        &&& bucket_index(local, buckets@[i]@[j]) == i
                    },
            decreases NUM_BUCKETS - b,
        {
            let mut bucket: Vec<NodeId> = Vec::new();
            let mut c: usize = 0;
            while c < contacts.len()
                invariant
                    c <= contacts@.len(),
                    b < NUM_BUCKETS,
                    forall|i: int| 0 <= i < contacts@.len() ==> contacts@[i] != local,
                    bucket@ == in_bucket(contacts@.take(c as int), local, b as nat),
                    forall|j: int|
                        0 <= j < bucket@.len() ==> (#[trigger] bucket@[j]) != local
                            && bucket_index(local, bucket@[j]) == b,
                decreases contacts@.len() - c,
            {
                assert(contacts@.take(c + 1).drop_last() =~= contacts@.take(c as int));
                if bucket_of(&local, &contacts[c]) == b {
                    bucket.push(contacts[c]);
                }
                c = c + 1;
            }
            assert(contacts@.take(c as int) =~= contacts@);
            proof {
                lemma_in_bucket(contacts@, local, b as nat);
            }
            let ghost before = buckets@;
            buckets.push(bucket);
            assert(forall|i: int| 0 <= i < b ==> #[trigger] buckets@[i] == before[i]);
            b = b + 1;
        }
        RoutingTable { local, buckets }
    }
}

/// `nodes` without one of them.
pub open spec fn without(nodes: Seq<NodeId>, excluded: Option<NodeId>) -> Seq<NodeId>
    decreases nodes.len(),
{
    if nodes.len() == 0 {
        Seq::empty()
    } else {
        let front = without(nodes.drop_last(), excluded);
        if excluded == Some(nodes.last()) {
            front
        } else {
            front.push(nodes.last())
        }
    }
}

/// `nodes` with their distances to a key.
pub open spec fn at_distance(nodes: Seq<NodeId>, key: NodeId) -> Seq<(nat, NodeId)> {
    Seq::new(nodes.len(), |i: int| (distance(nodes[i], key), nodes[i]))
}

/// `nodes` in the order of their distance to a key.
pub open spec fn closest_first(nodes: Seq<NodeId>, key: NodeId) -> Seq<NodeId> {
    payloads(ranked(at_distance(nodes, key)))
}

/// The first items, as many as `cap` allows.
pub open spec fn capped<T>(items: Seq<T>, cap: Option<nat>) -> Seq<T> {
    match cap {
        Some(n) => if n < items.len() {
            items.take(n as int)
        } else {
            items
        },
        None => items,
    }
}

/// The contacts that a key may be forwarded to, in order of preference: those in the bucket of the
/// key, or all contacts and the node itself in the order of their distance to the key.
pub open spec fn candidates(
    table: RoutingTable,
    batching: BatchingStrategy,
    excluded: Option<NodeId>,
    key: NodeId,
) -> Seq<NodeId> {
    match batching {
        BatchingStrategy::BucketWise => without(
            table.buckets@[bucket_index(table.local, key) as int]@,
            excluded,
        ),
        BatchingStrategy::DistanceWise => closest_first(
            without(table.contacts().push(table.local), excluded),
            key,
        ),
    }
}

/// The nodes that a key goes to: the first candidates, or the node itself when its bucket for the
/// key has none.
pub open spec fn targets(
    table: RoutingTable,
    batching: BatchingStrategy,
    excluded: Option<NodeId>,
    cap: Option<nat>,
    key: NodeId,
) -> Seq<NodeId> {
    let chosen = capped(candidates(table, batching, excluded, key), cap);
    if chosen.len() == 0 && batching == BatchingStrategy::BucketWise {
        seq![table.local]
    } else {
        chosen
    }
}

/// A key with each of the nodes that it goes to.
pub open spec fn paired_with(nodes: Seq<NodeId>, key: NodeId) -> Seq<(NodeId, NodeId)> {
    Seq::new(nodes.len(), |i: int| (nodes[i], key))
}

/// Each key with each of the nodes that it goes to, in the order of the keys.
pub open spec fn assignments(
    table: RoutingTable,
    batching: BatchingStrategy,
    excluded: Option<NodeId>,
    cap: Option<nat>,
    keys: Seq<NodeId>,
) -> Seq<(NodeId, NodeId)>
    decreases keys.len(),
{
    if keys.len() == 0 {
        Seq::empty()
    } else {
        assignments(table, batching, excluded, cap, keys.drop_last()) + paired_with(
            targets(table, batching, excluded, cap, keys.last()),
            keys.last(),
        )
    }
}

/// The number of nodes that a key goes to under a replication policy; no number for all nodes.
pub open spec fn replication(args: DisseminationArgs) -> Option<nat> {
    match args.replicate_mode {
        ReplicatePolicy::ReplicateOne => Some(1),
        ReplicatePolicy::ReplicateSome => Some(1 + args.redundancy as nat),
        ReplicatePolicy::ReplicateAll => None,
    }
}

/// The number of nodes that a key is passed on to by a node that was asked for closer ones.
pub open spec fn relay_replication(args: DisseminationArgs) -> Option<nat> {
    match args.routing_strategy {
        RoutingStrategy::Recursive => replication(args),
        RoutingStrategy::Iterative => Some(2),
    }
}

/// An optional number in the model.
pub open spec fn cap_of(cap: Option<usize>) -> Option<nat> {
    match cap {
        Some(n) => Some(n as nat),
        None => None,
    }
}

/// Drops one node from a list.
fn drop_node(nodes: &Vec<NodeId>, excluded: &Option<NodeId>) -> (kept: Vec<NodeId>)
    ensures
        kept@ == without(nodes@, *excluded),
{
    let mut kept: Vec<NodeId> = Vec::new();
    let mut i: usize = 0;
    while i < nodes.len()
        invariant
            i <= nodes@.len(),
            kept@ == without(nodes@.take(i as int), *excluded),
        decreases nodes@.len() - i,
    {
        assert(nodes@.take(i + 1).drop_last() =~= nodes@.take(i as int));
        let skip: bool = match excluded {
            Some(e) => same_id(e, &nodes[i]),
            None => false,
        };
        if !skip {
            kept.push(nodes[i]);
        }
        i = i + 1;
    }
    assert(nodes@.take(i as int) =~= nodes@);
    kept
}

/// Orders nodes by their distance to a key.
pub fn order_by_distance(nodes: &Vec<NodeId>, key: &NodeId) -> (ordered: Vec<NodeId>)
    ensures
        ordered@ == closest_first(nodes@, *key),
{
    let mut items: Vec<(NodeId, NodeId)> = Vec::new();
    let mut i: usize = 0;
    while i < nodes.len()
        invariant
            i <= nodes@.len(),
            items@.len() == i,
            forall|j: int|
                0 <= j < i ==> (#[trigger] items@[j]).1 == nodes@[j] && crate::ids::be_value(
                    items@[j].0@,
                ) == distance(nodes@[j], *key),
        decreases nodes@.len() - i,
    {
        items.push((xor_distance(&nodes[i], key), nodes[i]));
        i = i + 1;
    }
    assert(with_ranks(items@) =~= at_distance(nodes@, *key));
    rank_order(items)
}

/// All contacts of a table, bucket by bucket.
fn all_contacts(table: &RoutingTable) -> (contacts: Vec<NodeId>)
    ensures
        contacts@ == table.contacts(),
{
    let mut contacts: Vec<NodeId> = Vec::new();
    let mut b: usize = 0;
    while b < table.buckets.len()
        invariant
            b <= table.buckets@.len(),
            contacts@ == concatenated(table.buckets@.take(b as int)),
        decreases table.buckets@.len() - b,
    {
        let bucket: &Vec<NodeId> = &table.buckets[b];
        let ghost before = contacts@;
        let mut i: usize = 0;
        while i < bucket.len()
            invariant
                i <= bucket@.len(),
                contacts@ == before + bucket@.take(i as int),
            decreases bucket@.len() - i,
        {
            contacts.push(bucket[i]);
            i = i + 1;
            assert(contacts@ =~= before + bucket@.take(i as int));
        }
        assert(bucket@.take(i as int) =~= bucket@);
        assert(table.buckets@.take(b + 1).drop_last() =~= table.buckets@.take(b as int));
        b = b + 1;
    }
    assert(table.buckets@.take(b as int) =~= table.buckets@);
    contacts
}

/// The nodes that a key goes to.
pub fn choose_targets(
    table: &RoutingTable,
    batching: BatchingStrategy,
    excluded: &Option<NodeId>,
    cap: Option<usize>,
    key: &NodeId,
) -> (chosen: Vec<NodeId>)
    requires
        table.wf(),
        batching == BatchingStrategy::BucketWise ==> *key != table.local,
    ensures
        chosen@ == targets(*table, batching, *excluded, cap_of(cap), *key),
{
    let mut chosen: Vec<NodeId> = match batching {
        BatchingStrategy::BucketWise => {
            let b: usize = bucket_of(&table.local, key);
            drop_node(&table.buckets[b], excluded)
        },
        BatchingStrategy::DistanceWise => {
            let mut view: Vec<NodeId> = all_contacts(table);
            view.push(table.local);
            order_by_distance(&drop_node(&view, excluded), key)
        },
    };
    let ghost all = chosen@;
    if let Some(n) = cap {
        if n < chosen.len() {
            chosen.truncate(n);
            assert(chosen@ =~= all.take(n as int));
        }
    }
    if chosen.len() == 0 && batching == BatchingStrategy::BucketWise {
        chosen.push(table.local);
        assert(chosen@ =~= seq![table.local]);
    }
    chosen
}

/// Pairs each key with the nodes that it goes to.
pub fn assign(
    table: &RoutingTable,
    batching: BatchingStrategy,
    excluded: &Option<NodeId>,
    cap: Option<usize>,
    keys: &Vec<NodeId>,
) -> (pairs: Vec<(NodeId, NodeId)>)
    requires
        table.wf(),
        batching == BatchingStrategy::BucketWise ==> !keys@.contains(table.local),
    ensures
        pairs@ == assignments(*table, batching, *excluded, cap_of(cap), keys@),
{
    let mut pairs: Vec<(NodeId, NodeId)> = Vec::new();
    let mut k: usize = 0;
    while k < keys.len()
        invariant
            k <= keys@.len(),
            table.wf(),
            batching == BatchingStrategy::BucketWise ==> !keys@.contains(table.local),
            pairs@ == assignments(
                *table,
                batching,
                *excluded,
                cap_of(cap),
                keys@.take(k as int),
            ),
        decreases keys@.len() - k,
    {
        assert(keys@.contains(keys@[k as int]));
        let chosen: Vec<NodeId> = choose_targets(table, batching, excluded, cap, &keys[k]);
        let ghost before = pairs@;
        let ghost added = paired_with(chosen@, keys@[k as int]);
        let mut i: usize = 0;
        while i < chosen.len()
            invariant
                i <= chosen@.len(),
                k < keys@.len(),
                added == paired_with(chosen@, keys@[k as int]),
                pairs@ == before + added.take(i as int),
            decreases chosen@.len() - i,
        {
            pairs.push((chosen[i], keys[k]));
            i = i + 1;
            assert(pairs@ =~= before + added.take(i as int));
        }
        assert(added.take(i as int) =~= added);
        assert(keys@.take(k + 1).drop_last() =~= keys@.take(k as int));
        k = k + 1;
    }
    assert(keys@.take(k as int) =~= keys@);
    pairs
}

/// Whether `groups` hold the keys that are assigned to other nodes than `local`: each such node
/// once, with its keys, in any order.
pub open spec fn are_remote_groups(
    groups: Seq<(NodeId, Seq<NodeId>)>,
    pairs: Seq<(NodeId, NodeId)>,
    local: NodeId,
) -> bool {
    &&& forall|i: int, j: int|
        0 <= i < j < groups.len() ==> (#[trigger] groups[i]).0 != (#[trigger] groups[j]).0
    &&& forall|i: int|
        0 <= i < groups.len() ==> {
            &&& (#[trigger] groups[i]).0 != local
            &&& groups[i].1.len() > 0
            &&& groups[i].1 == values_of(pairs, groups[i].0)
        }
    &&& forall|p: int|
        0 <= p < pairs.len() && (#[trigger] pairs[p]).0 != local ==> exists|i: int|
            0 <= i < groups.len() && (#[trigger] groups[i]).0 == pairs[p].0
}

/// Splits assigned keys into those that stay with the node and those of each other node.
pub(crate) fn split_local(pairs: Vec<(NodeId, NodeId)>, local: &NodeId) -> (split: (
    Vec<NodeId>,
    Vec<(NodeId, Vec<NodeId>)>,
))
    ensures
        split.0@ == values_of(pairs@, *local),
        are_remote_groups(group_contents(split.1@), pairs@, *local),
{
    let ghost all = pairs@;
    let mut groups: Vec<(NodeId, Vec<NodeId>)> = group_pairs(pairs);
    let ghost contents = group_contents(groups@);
    let mut kept: Vec<NodeId> = Vec::new();
    let mut others: Vec<(NodeId, Vec<NodeId>)> = Vec::new();
    let ghost mut origin: Seq<int> = Seq::empty();
    while groups.len() > 0
        invariant
            groups@.len() <= contents.len(),
            group_contents(groups@) == contents.take(groups@.len() as int),
            kept@.len() == 0 || exists|j: int|
                groups@.len() <= j < contents.len() && #[trigger] contents[j] == (*local, kept@),
            forall|j: int|
                groups@.len() <= j < contents.len() && (#[trigger] contents[j]).0 == *local
                    ==> kept@ == contents[j].1,
            forall|i: int, j: int|
                0 <= i < j < contents.len() ==> (#[trigger] contents[i]).0 != (
                #[trigger] contents[j]).0,
            origin.len() == others@.len(),
            forall|i: int|
                0 <= i < others@.len() ==> {
                    &&& groups@.len() <= #[trigger] origin[i] < contents.len()
                    &&& contents[origin[i]] == (others@[i].0, others@[i].1@)
                    &&& others@[i].0 != *local
                },
            forall|i: int, j: int|
                0 <= i < j < origin.len() ==> #[trigger] origin[i] > #[trigger] origin[j],
            forall|j: int|
                groups@.len() <= j < contents.len() && (#[trigger] contents[j]).0 != *local
                    ==> origin.contains(j),
        decreases groups@.len(),
    {
        let ghost last = groups@.len() - 1;
        let ghost before = origin;
        assert(group_contents(groups@)[last] == contents[last]);
        match groups.pop() {
            Some((node, keys)) => {
                assert(contents[last] == (node, keys@));
                assert(group_contents(groups@) =~= contents.take(last));
                if same_id(&node, local) {
                    kept = keys;
                } else {
                    others.push((node, keys));
                    proof {
                        origin = origin.push(last);
                        assert forall|j: int|
                            last <= j < contents.len() && (#[trigger] contents[j]).0
                                != *local implies origin.contains(j) by {
                            if j > last {
                                let i = choose|i: int| 0 <= i < before.len() && before[i] == j;
                                assert(origin[i] == j);
                            } else {
                                assert(origin[before.len() as int] == j);
                            }
                        }
                    }
                }
            },
            None => {},
        }
    }
    proof {
        let remote = group_contents(others@);
        assert(forall|i: int|
            0 <= i < remote.len() ==> (#[trigger] remote[i]).0 == others@[i].0 && remote[i].1
                == others@[i].1@);
        if values_of(all, *local).len() > 0 {
            lemma_values_witness(all, *local);
            let p = choose|p: int| 0 <= p < all.len() && (#[trigger] all[p]).0 == *local;
            let j = choose|j: int|
                0 <= j < contents.len() && (#[trigger] contents[j]).0 == all[p].0;
            assert(kept@ == contents[j].1);
        } else if kept@.len() > 0 {
            let j = choose|j: int|
                0 <= j < contents.len() && #[trigger] contents[j] == (*local, kept@);
            assert(contents[j].1 == values_of(all, contents[j].0));
        }
        assert(kept@ =~= values_of(all, *local));
        assert forall|i: int, j: int| 0 <= i < j < remote.len() implies (
        #[trigger] remote[i]).0 != (#[trigger] remote[j]).0 by {
            assert(contents[origin[j]].0 != contents[origin[i]].0);
        }
        assert forall|i: int| 0 <= i < remote.len() implies {
            &&& (#[trigger] remote[i]).0 != *local
            &&& remote[i].1.len() > 0
            &&& remote[i].1 == values_of(all, remote[i].0)
        } by {
            assert(contents[origin[i]].1 == values_of(all, contents[origin[i]].0));
        }
        assert forall|p: int|
            0 <= p < all.len() && (#[trigger] all[p]).0 != *local implies exists|i: int|
            0 <= i < remote.len() && (#[trigger] remote[i]).0 == all[p].0 by {
            let j = choose|j: int|
                0 <= j < contents.len() && (#[trigger] contents[j]).0 == all[p].0;
            assert(origin.contains(j));
            let i = choose|i: int| 0 <= i < origin.len() && origin[i] == j;
            assert(contents[origin[i]].0 == others@[i].0);
            assert(remote[i].0 == all[p].0);
        }
    }
    (kept, others)
}

/// The number of nodes that the originator sends a key to.
pub fn replication_cap(args: &DisseminationArgs) -> (cap: Option<usize>)
    requires
        args.replicate_mode == ReplicatePolicy::ReplicateSome ==> args.redundancy < usize::MAX,
    ensures
        cap_of(cap) == replication(*args),
{
    match args.replicate_mode {
        ReplicatePolicy::ReplicateOne => Some(1),
        ReplicatePolicy::ReplicateSome => Some(1 + args.redundancy),
        ReplicatePolicy::ReplicateAll => None,
    }
}

/// The number of nodes that a node on the way passes a key on to.
pub fn relay_cap(args: &DisseminationArgs) -> (cap: Option<usize>)
    requires
        args.routing_strategy == RoutingStrategy::Recursive && args.replicate_mode
            == ReplicatePolicy::ReplicateSome ==> args.redundancy < usize::MAX,
    ensures
        cap_of(cap) == relay_replication(*args),
{
    match args.routing_strategy {
        RoutingStrategy::Recursive => replication_cap(args),
        RoutingStrategy::Iterative => Some(2),
    }
}

proof fn lemma_in_bucket(contacts: Seq<NodeId>, local: NodeId, index: nat)
    requires
        contacts.no_duplicates(),
    ensures
        in_bucket(contacts, local, index).no_duplicates(),
        forall|n: NodeId|
            in_bucket(contacts, local, index).contains(n) ==> #[trigger] contacts.contains(n),
    decreases contacts.len(),
{
    if contacts.len() > 0 {
        let front = contacts.drop_last();
        let inner = in_bucket(front, local, index);
        lemma_in_bucket(front, local, index);
        assert forall|n: NodeId| front.contains(n) implies contacts.contains(n) && n
            != contacts.last() by {
            let i = choose|i: int| 0 <= i < front.len() && front[i] == n;
            assert(contacts[i] == n);
        }
        assert(contacts.contains(contacts[contacts.len() - 1]));
        assert(!inner.contains(contacts.last())) by {
            if inner.contains(contacts.last()) {
                assert(front.contains(contacts.last()));
            }
        }
        assert forall|n: NodeId|
            in_bucket(contacts, local, index).contains(n) implies #[trigger] contacts.contains(
            n,
        ) by {
            if n != contacts.last() {
                let outer = in_bucket(contacts, local, index);
                let i = choose|i: int| 0 <= i < outer.len() && outer[i] == n;
                assert(inner[i] == n);
                assert(inner.contains(n));
                assert(front.contains(n));
            }
        }
    }
}

proof fn lemma_contacts(table: RoutingTable, count: nat)
    requires
        table.wf(),
        count <= NUM_BUCKETS,
    ensures
        concatenated(table.buckets@.take(count as int)).no_duplicates(),
        forall|n: NodeId| #[trigger]
            concatenated(table.buckets@.take(count as int)).contains(n) ==> n != table.local
                && bucket_index(table.local, n) < count,
    decreases count,
{
    let lists = table.buckets@.take(count as int);
    if count > 0 {
        let front = table.buckets@.take(count - 1);
        let last = table.buckets@[count - 1];
        assert(lists.drop_last() =~= front);
        lemma_contacts(table, (count - 1) as nat);
        assert forall|n: NodeId| #[trigger] last@.contains(n) implies n != table.local
            && bucket_index(table.local, n) == count - 1 by {
            let j = choose|j: int| 0 <= j < last@.len() && last@[j] == n;
            assert(table.buckets@[count - 1]@[j] == n);
        }
        let head = concatenated(front);
        let all = concatenated(lists);
        assert forall|n: NodeId| #[trigger] all.contains(n) implies n != table.local
            && bucket_index(table.local, n) < count by {
            let i = choose|i: int| 0 <= i < all.len() && all[i] == n;
            if i < head.len() {
                assert(head[i] == n);
                assert(head.contains(n));
            } else {
                assert(last@[i - head.len()] == n);
                assert(last@.contains(n));
            }
        }
        assert forall|i: int, j: int|
            0 <= i < all.len() && 0 <= j < all.len() && i != j implies all[i] != all[j] by {
            if i < head.len() {
                assert(head.contains(head[i]));
            } else {
                assert(last@.contains(last@[i - head.len()]));
            }
            if j < head.len() {
                assert(head.contains(head[j]));
            } else {
                assert(last@.contains(last@[j - head.len()]));
            }
        }
    }
}

proof fn lemma_without(nodes: Seq<NodeId>, excluded: Option<NodeId>)
    ensures
        nodes.no_duplicates() ==> without(nodes, excluded).no_duplicates(),
        forall|n: NodeId| #[trigger]
            without(nodes, excluded).contains(n) <==> nodes.contains(n) && excluded != Some(n),
    decreases nodes.len(),
{
    if nodes.len() > 0 {
        let front = nodes.drop_last();
        let inner = without(front, excluded);
        let outer = without(nodes, excluded);
        lemma_without(front, excluded);
        assert forall|n: NodeId| nodes.contains(n) <==> front.contains(n) || n == nodes.last() by {
            if nodes.contains(n) && n != nodes.last() {
                let i = choose|i: int| 0 <= i < nodes.len() && nodes[i] == n;
                assert(front[i] == n);
            }
            if front.contains(n) {
                let i = choose|i: int| 0 <= i < front.len() && front[i] == n;
                assert(nodes[i] == n);
            }
            assert(nodes[nodes.len() - 1] == nodes.last());
        }
        assert forall|n: NodeId| #[trigger]
            outer.contains(n) <==> nodes.contains(n) && excluded != Some(n) by {
            assert(nodes.contains(n) <==> front.contains(n) || n == nodes.last());
            assert(inner.contains(n) <==> front.contains(n) && excluded != Some(n));
            if excluded != Some(nodes.last()) {
                if outer.contains(n) && n != nodes.last() {
                    let i = choose|i: int| 0 <= i < outer.len() && outer[i] == n;
                    assert(inner[i] == n);
                }
                if inner.contains(n) {
                    let i = choose|i: int| 0 <= i < inner.len() && inner[i] == n;
                    assert(outer[i] == n);
                }
                assert(outer[outer.len() - 1] == nodes.last());
            }
        }
        if nodes.no_duplicates() {
            assert(!front.contains(nodes.last())) by {
                if front.contains(nodes.last()) {
                    let i = choose|i: int| 0 <= i < front.len() && front[i] == nodes.last();
                    assert(nodes[i] == nodes[nodes.len() - 1]);
                }
            }
            assert(!inner.contains(nodes.last()));
        }
    } else {
        assert forall|n: NodeId| #[trigger]
            without(nodes, excluded).contains(n) <==> nodes.contains(n) && excluded != Some(n) by {}
    }
}

/// Ordering nodes by their distance to a key keeps the nodes, and puts closer ones first.
pub proof fn lemma_closest_first(nodes: Seq<NodeId>, key: NodeId)
    ensures
        closest_first(nodes, key).len() == nodes.len(),
        closest_first(nodes, key).to_multiset() == nodes.to_multiset(),
        forall|i: int, j: int|
            0 <= i < j < nodes.len() ==> distance(#[trigger] closest_first(nodes, key)[i], key)
                <= distance(#[trigger] closest_first(nodes, key)[j], key),
{
    let items = at_distance(nodes, key);
    lemma_ranked(items);
    lemma_ranked_payloads(items);
    assert(payloads(items) =~= nodes);
    assert forall|i: int| 0 <= i < nodes.len() implies (#[trigger] ranked(items)[i]).0 == distance(
        ranked(items)[i].1,
        key,
    ) by {
        broadcast use vstd::seq_lib::group_to_multiset_ensures;

        let item = ranked(items)[i];
        assert(ranked(items).contains(item));
        assert(ranked(items).to_multiset().count(item) > 0);
        assert(items.contains(item));
    }
}

pub(crate) proof fn lemma_values_of_concat<K, V>(s: Seq<(K, V)>, t: Seq<(K, V)>, key: K)
    ensures
        values_of(s + t, key) == values_of(s, key) + values_of(t, key),
    decreases t.len(),
{
    if t.len() == 0 {
        assert(s + t =~= s);
        assert(values_of(s, key) + values_of(t, key) =~= values_of(s, key));
    } else {
        lemma_values_of_concat(s, t.drop_last(), key);
        assert((s + t).drop_last() =~= s + t.drop_last());
        assert(values_of(s + t, key) =~= values_of(s, key) + values_of(t, key));
    }
}

proof fn lemma_values_of_paired(nodes: Seq<NodeId>, key: NodeId, node: NodeId)
    requires
        nodes.no_duplicates(),
    ensures
        values_of(paired_with(nodes, key), node) == (if nodes.contains(node) {
            seq![key]
        } else {
            Seq::<NodeId>::empty()
        }),
    decreases nodes.len(),
{
    let pairs = paired_with(nodes, key);
    if nodes.len() > 0 {
        let front = nodes.drop_last();
        assert(pairs.drop_last() =~= paired_with(front, key));
        lemma_values_of_paired(front, key, node);
        assert(front.contains(node) ==> nodes.contains(node)) by {
            if front.contains(node) {
                let i = choose|i: int| 0 <= i < front.len() && front[i] == node;
                assert(nodes[i] == node);
            }
        }
        if nodes.last() == node {
            assert(nodes[nodes.len() - 1] == node);
            assert(!front.contains(node)) by {
                if front.contains(node) {
                    let i = choose|i: int| 0 <= i < front.len() && front[i] == node;
                    assert(nodes[i] == nodes[nodes.len() - 1]);
                }
            }
            assert(values_of(pairs, node) =~= seq![key]);
        } else if nodes.contains(node) {
            let i = choose|i: int| 0 <= i < nodes.len() && nodes[i] == node;
            assert(front[i] == node);
        }
    }
}

proof fn lemma_candidates(
    table: RoutingTable,
    batching: BatchingStrategy,
    excluded: Option<NodeId>,
    key: NodeId,
)
    requires
        table.wf(),
        batching == BatchingStrategy::BucketWise ==> key != table.local,
    ensures
        candidates(table, batching, excluded, key).no_duplicates(),
        forall|n: NodeId| #[trigger]
            candidates(table, batching, excluded, key).contains(n) ==> excluded != Some(n),
        batching == BatchingStrategy::BucketWise ==> forall|n: NodeId| #[trigger]
            candidates(table, batching, excluded, key).contains(n) ==> n != table.local
                && distance(n, key) < distance(table.local, key),
        batching == BatchingStrategy::DistanceWise ==> forall|n: NodeId| #[trigger]
            candidates(table, batching, excluded, key).contains(n) <==> (table.contacts().contains(
                n,
            ) || n == table.local) && excluded != Some(n),
{
    match batching {
        BatchingStrategy::BucketWise => {
            lemma_bucket_index_bound(table.local, key);
            let b = bucket_index(table.local, key) as int;
            let bucket = table.buckets@[b]@;
            lemma_without(bucket, excluded);
            assert forall|n: NodeId| #[trigger] without(bucket, excluded).contains(n) implies n
                != table.local && distance(n, key) < distance(table.local, key) by {
                let j = choose|j: int| 0 <= j < bucket.len() && bucket[j] == n;
                assert(table.buckets@[b]@[j] == n);
                lemma_same_bucket_is_closer(table.local, n, key);
            }
        },
        BatchingStrategy::DistanceWise => {
            broadcast use vstd::seq_lib::group_to_multiset_ensures;

            lemma_contacts(table, NUM_BUCKETS as nat);
            assert(table.buckets@.take(NUM_BUCKETS as int) =~= table.buckets@);
            let all = table.contacts().push(table.local);
            assert forall|i: int, j: int|
                0 <= i < all.len() && 0 <= j < all.len() && i != j implies all[i] != all[j] by {
                if i < table.contacts().len() {
                    assert(table.contacts().contains(table.contacts()[i]));
                }
                if j < table.contacts().len() {
                    assert(table.contacts().contains(table.contacts()[j]));
                }
            }
            assert forall|n: NodeId| all.contains(n) <==> table.contacts().contains(n) || n
                == table.local by {
                if table.contacts().contains(n) {
                    let i = choose|i: int|
                        0 <= i < table.contacts().len() && table.contacts()[i] == n;
                    assert(all[i] == n);
                }
                assert(all[all.len() - 1] == table.local);
                if all.contains(n) && n != table.local {
                    let i = choose|i: int| 0 <= i < all.len() && all[i] == n;
                    assert(table.contacts()[i] == n);
                }
            }
            lemma_without(all, excluded);
            let view = without(all, excluded);
            lemma_closest_first(view, key);
            let ordered = closest_first(view, key);
            view.lemma_multiset_has_no_duplicates();
            ordered.lemma_multiset_has_no_duplicates_conv();
            assert forall|n: NodeId| #[trigger] ordered.contains(n) <==> (
            table.contacts().contains(n) || n == table.local) && excluded != Some(n) by {
                assert(ordered.contains(n) <==> ordered.to_multiset().count(n) > 0);
                assert(view.contains(n) <==> view.to_multiset().count(n) > 0);
                assert(all.contains(n) <==> table.contacts().contains(n) || n == table.local);
            }
        },
    }
}

/// Where a key goes: to no node twice, to no more nodes than allowed, and not back to the sender,
/// unless the node keeps the key itself.
pub proof fn lemma_targets(
    table: RoutingTable,
    batching: BatchingStrategy,
    excluded: Option<NodeId>,
    cap: Option<nat>,
    key: NodeId,
)
    requires
        table.wf(),
        batching == BatchingStrategy::BucketWise ==> key != table.local,
    ensures
        targets(table, batching, excluded, cap, key).no_duplicates(),
        cap matches Some(n) ==> n > 0 ==> targets(table, batching, excluded, cap, key).len() <= n,
        forall|n: NodeId| #[trigger]
            targets(table, batching, excluded, cap, key).contains(n) && n != table.local
                ==> excluded != Some(n),
{
    lemma_candidates(table, batching, excluded, key);
    lemma_capped(candidates(table, batching, excluded, key), cap);
    let nodes = targets(table, batching, excluded, cap, key);
    if nodes == seq![table.local] {
        assert forall|n: NodeId| #[trigger] nodes.contains(n) implies n == table.local by {}
    }
}

pub(crate) proof fn lemma_capped<T>(items: Seq<T>, cap: Option<nat>)
    ensures
        items.no_duplicates() ==> capped(items, cap).no_duplicates(),
        forall|item: T| #[trigger] capped(items, cap).contains(item) ==> items.contains(item),
{
    assert forall|item: T| #[trigger] capped(items, cap).contains(item) implies items.contains(
        item,
    ) by {
        let i = choose|i: int| 0 <= i < capped(items, cap).len() && capped(items, cap)[i] == item;
        assert(items[i] == item);
    }
}

/// No key is lost: it goes to at least one node, unless the only node that is left to take it is
/// excluded.
pub proof fn lemma_key_has_target(
    table: RoutingTable,
    batching: BatchingStrategy,
    excluded: Option<NodeId>,
    cap: Option<nat>,
    key: NodeId,
)
    requires
        table.wf(),
        cap != Some(0nat),
        batching == BatchingStrategy::BucketWise ==> key != table.local,
        batching == BatchingStrategy::DistanceWise ==> excluded != Some(table.local),
    ensures
        targets(table, batching, excluded, cap, key).len() > 0,
{
    if batching == BatchingStrategy::DistanceWise {
        lemma_candidates(table, batching, excluded, key);
        assert(candidates(table, batching, excluded, key).contains(table.local));
    }
}

/// Bucket-wise forwarding makes progress: a key either stays with the node or goes to nodes that
/// are all strictly closer to it.
pub proof fn lemma_bucket_wise_progress(
    table: RoutingTable,
    excluded: Option<NodeId>,
    cap: Option<nat>,
    key: NodeId,
)
    requires
        table.wf(),
        key != table.local,
    ensures
        ({
            let nodes = targets(table, BatchingStrategy::BucketWise, excluded, cap, key);
            nodes == seq![table.local] || forall|i: int|
                0 <= i < nodes.len() ==> distance(#[trigger] nodes[i], key) < distance(
                    table.local,
                    key,
                )
        }),
{
    let all = candidates(table, BatchingStrategy::BucketWise, excluded, key);
    let nodes = targets(table, BatchingStrategy::BucketWise, excluded, cap, key);
    lemma_candidates(table, BatchingStrategy::BucketWise, excluded, key);
    lemma_capped(all, cap);
    if nodes != seq![table.local] {
        assert forall|i: int| 0 <= i < nodes.len() implies distance(#[trigger] nodes[i], key)
            < distance(table.local, key) by {
            assert(capped(all, cap).contains(nodes[i]));
            assert(all.contains(nodes[i]));
        }
    }
}

/// Distance-wise forwarding takes the closest nodes: none of the contacts that were passed over,
/// nor the node itself, is closer to the key than one that was taken.
pub proof fn lemma_distance_wise_closest(
    table: RoutingTable,
    excluded: Option<NodeId>,
    cap: Option<nat>,
    key: NodeId,
    taken: NodeId,
    other: NodeId,
)
    requires
        table.wf(),
        targets(table, BatchingStrategy::DistanceWise, excluded, cap, key).contains(taken),
        !targets(table, BatchingStrategy::DistanceWise, excluded, cap, key).contains(other),
        table.contacts().contains(other) || other == table.local,
        excluded != Some(other),
    ensures
        distance(taken, key) < distance(other, key),
{
    let all = candidates(table, BatchingStrategy::DistanceWise, excluded, key);
    let nodes = targets(table, BatchingStrategy::DistanceWise, excluded, cap, key);
    let view = without(table.contacts().push(table.local), excluded);
    lemma_candidates(table, BatchingStrategy::DistanceWise, excluded, key);
    lemma_closest_first(view, key);
    assert(all.contains(other));
    let j = choose|j: int| 0 <= j < all.len() && all[j] == other;
    let i = choose|i: int| 0 <= i < nodes.len() && nodes[i] == taken;
    assert(all[i] == taken);
    if j < nodes.len() {
        assert(nodes[j] == other);
    }
    assert(distance(all[i], key) <= distance(all[j], key));
    if distance(taken, key) == distance(other, key) {
        lemma_distance_unidirectional(taken, other, key);
    }
}

/// No more keys stay with the node itself than there are.
pub(crate) proof fn lemma_kept_bound(
    table: RoutingTable,
    batching: BatchingStrategy,
    excluded: Option<NodeId>,
    cap: Option<nat>,
    keys: Seq<NodeId>,
)
    requires
        table.wf(),
        batching == BatchingStrategy::BucketWise ==> !keys.contains(table.local),
    ensures
        values_of(assignments(table, batching, excluded, cap, keys), table.local).len()
            <= keys.len(),
    decreases keys.len(),
{
    if keys.len() > 0 {
        let front = keys.drop_last();
        assert(batching == BatchingStrategy::BucketWise ==> !front.contains(table.local)) by {
            if front.contains(table.local) {
                let i = choose|i: int| 0 <= i < front.len() && front[i] == table.local;
                assert(keys[i] == table.local);
            }
        }
        lemma_kept_bound(table, batching, excluded, cap, front);
        assert(keys.contains(keys[keys.len() - 1]));
        let nodes = targets(table, batching, excluded, cap, keys.last());
        lemma_values_of_concat(
            assignments(table, batching, excluded, cap, front),
            paired_with(nodes, keys.last()),
            table.local,
        );
        lemma_targets(table, batching, excluded, cap, keys.last());
        lemma_values_of_paired(nodes, keys.last(), table.local);
    }
}

proof fn lemma_assigned(
    table: RoutingTable,
    batching: BatchingStrategy,
    excluded: Option<NodeId>,
    cap: Option<nat>,
    keys: Seq<NodeId>,
    key: NodeId,
    node: NodeId,
)
    requires
        keys.contains(key),
        targets(table, batching, excluded, cap, key).contains(node),
    ensures
        exists|p: int|
            0 <= p < assignments(table, batching, excluded, cap, keys).len()
                && #[trigger] assignments(table, batching, excluded, cap, keys)[p] == (node, key),
    decreases keys.len(),
{
    let all = assignments(table, batching, excluded, cap, keys);
    let front = assignments(table, batching, excluded, cap, keys.drop_last());
    if keys.last() == key {
        let nodes = targets(table, batching, excluded, cap, key);
        let i = choose|i: int| 0 <= i < nodes.len() && nodes[i] == node;
        assert(all[front.len() + i] == (node, key));
    } else {
        let k = choose|k: int| 0 <= k < keys.len() && keys[k] == key;
        assert(keys.drop_last()[k] == key);
        lemma_assigned(table, batching, excluded, cap, keys.drop_last(), key, node);
        let p = choose|p: int| 0 <= p < front.len() && #[trigger] front[p] == (node, key);
        assert(all[p] == front[p]);
    }
}

/// No key is lost in an assignment: each key is among those that are assigned to some node.
pub proof fn lemma_each_key_is_assigned(
    table: RoutingTable,
    batching: BatchingStrategy,
    excluded: Option<NodeId>,
    cap: Option<nat>,
    keys: Seq<NodeId>,
    key: NodeId,
)
    requires
        table.wf(),
        cap != Some(0nat),
        keys.contains(key),
        batching == BatchingStrategy::BucketWise ==> key != table.local,
        batching == BatchingStrategy::DistanceWise ==> excluded != Some(table.local),
    ensures
        exists|p: int|
            0 <= p < assignments(table, batching, excluded, cap, keys).len() && (
            #[trigger] assignments(table, batching, excluded, cap, keys)[p]).1 == key
                && values_of(
                assignments(table, batching, excluded, cap, keys),
                assignments(table, batching, excluded, cap, keys)[p].0,
            ).contains(key),
{
    lemma_key_has_target(table, batching, excluded, cap, key);
    let nodes = targets(table, batching, excluded, cap, key);
    assert(nodes.contains(nodes[0]));
    lemma_assigned(table, batching, excluded, cap, keys, key, nodes[0]);
    let all = assignments(table, batching, excluded, cap, keys);
    let p = choose|p: int| 0 <= p < all.len() && #[trigger] all[p] == (nodes[0], key);
    lemma_values_contain(all, p);
    assert(all[p].1 == key);
}

/// Whether each contact of each node is itself one of the nodes.
pub open spec fn is_network(tables: Map<NodeId, RoutingTable>) -> bool {
    &&& forall|n: NodeId| #[trigger]
        tables.dom().contains(n) ==> tables[n].wf() && tables[n].local == n
    &&& forall|n: NodeId, b: int, c: int|
        tables.dom().contains(n) && 0 <= b < NUM_BUCKETS && 0 <= c < tables[n].buckets@[b]@.len()
            ==> tables.dom().contains(#[trigger] tables[n].buckets@[b]@[c])
}

/// Where a key comes to rest that each node passes on to the first of the nodes that it chooses,
/// not back to the node it came from.
pub open spec fn resting_place(
    tables: Map<NodeId, RoutingTable>,
    batching: BatchingStrategy,
    cap: Option<nat>,
    from: Option<NodeId>,
    node: NodeId,
    key: NodeId,
) -> Option<NodeId>
    decreases distance(node, key),
{
    let nodes = targets(tables[node], batching, from, cap, key);
    if nodes.len() == 0 {
        None
    } else if nodes[0] == node {
        Some(node)
    } else if distance(nodes[0], key) < distance(node, key) {
        resting_place(tables, batching, cap, Some(node), nodes[0], key)
    } else {
        None
    }
}

proof fn lemma_first_target(
    tables: Map<NodeId, RoutingTable>,
    batching: BatchingStrategy,
    cap: Option<nat>,
    from: Option<NodeId>,
    node: NodeId,
    key: NodeId,
)
    requires
        is_network(tables),
        tables.dom().contains(node),
        batching == BatchingStrategy::BucketWise ==> key != node,
        cap != Some(0nat),
        from != Some(node),
    ensures
        ({
            let nodes = targets(tables[node], batching, from, cap, key);
            &&& nodes.len() > 0
            &&& tables.dom().contains(nodes[0])
            &&& nodes[0] == node || distance(nodes[0], key) < distance(node, key)
        }),
{
    let table = tables[node];
    let nodes = targets(table, batching, from, cap, key);
    lemma_key_has_target(table, batching, from, cap, key);
    lemma_candidates(table, batching, from, key);
    let all = candidates(table, batching, from, key);
    if nodes[0] != node {
        assert(all[0] == nodes[0]);
        assert(all.contains(nodes[0]));
        match batching {
            BatchingStrategy::BucketWise => {
                lemma_bucket_index_bound(node, key);
                let b = bucket_index(node, key) as int;
                let bucket = table.buckets@[b]@;
                lemma_without(bucket, from);
                assert(bucket.contains(nodes[0]));
                let c = choose|c: int| 0 <= c < bucket.len() && bucket[c] == nodes[0];
                assert(tables[node].buckets@[b]@[c] == nodes[0]);
            },
            BatchingStrategy::DistanceWise => {
                lemma_closest_first(without(table.contacts().push(node), from), key);
                assert(all.contains(node));
                let i = choose|i: int| 0 <= i < all.len() && all[i] == node;
                assert(distance(all[0], key) <= distance(all[i], key));
                if distance(nodes[0], key) == distance(node, key) {
                    lemma_distance_unidirectional(nodes[0], node, key);
                }
                assert(table.contacts().contains(nodes[0]));
                lemma_contact_in_bucket(table.buckets@, nodes[0]);
                let b = choose|b: int|
                    0 <= b < table.buckets@.len() && (#[trigger] table.buckets@[b])@.contains(
                        nodes[0],
                    );
                let bucket = table.buckets@[b]@;
                let c = choose|c: int| 0 <= c < bucket.len() && bucket[c] == nodes[0];
                assert(tables[node].buckets@[b]@[c] == nodes[0]);
            },
        }
    }
}

proof fn lemma_contact_in_bucket(lists: Seq<Vec<NodeId>>, node: NodeId)
    requires
        concatenated(lists).contains(node),
    ensures
        exists|b: int| 0 <= b < lists.len() && (#[trigger] lists[b])@.contains(node),
    decreases lists.len(),
{
    let all = concatenated(lists);
    let i = choose|i: int| 0 <= i < all.len() && all[i] == node;
    if lists.len() > 0 {
        let front = concatenated(lists.drop_last());
        if i < front.len() {
            assert(front[i] == node);
            lemma_contact_in_bucket(lists.drop_last(), node);
            let b = choose|b: int|
                0 <= b < lists.drop_last().len() && (#[trigger] lists.drop_last()[b])@.contains(
                    node,
                );
            assert(lists[b]@.contains(node));
        } else {
            assert(lists.last()@[i - front.len()] == node);
            assert(lists[lists.len() - 1]@.contains(node));
        }
    }
}

/// Every key comes to rest: a key that the nodes of a network pass on ends at a node that keeps it,
/// which is no farther from the key than the node it started from. Where contacts are matched by
/// k-bucket, the key is not itself the identifier of a node.
pub proof fn lemma_key_comes_to_rest(
    tables: Map<NodeId, RoutingTable>,
    batching: BatchingStrategy,
    cap: Option<nat>,
    from: Option<NodeId>,
    node: NodeId,
    key: NodeId,
)
    requires
        is_network(tables),
        tables.dom().contains(node),
        batching == BatchingStrategy::BucketWise ==> !tables.dom().contains(key),
        cap != Some(0nat),
        from != Some(node),
    ensures
        resting_place(tables, batching, cap, from, node, key) matches Some(place) && {
            &&& tables.dom().contains(place)
            &&& distance(place, key) <= distance(node, key)
            &&& exists|sender: Option<NodeId>| #[trigger]
                targets(tables[place], batching, sender, cap, key).contains(place)
        },
    decreases distance(node, key),
{
    let nodes = targets(tables[node], batching, from, cap, key);
    lemma_first_target(tables, batching, cap, from, node, key);
    if nodes[0] != node {
        lemma_key_comes_to_rest(tables, batching, cap, Some(node), nodes[0], key);
    } else {
        assert(targets(tables[node], batching, from, cap, key).contains(node));
    }
}

/// Nothing is dropped where no node is excluded.
pub(crate) proof fn lemma_without_none(nodes: Seq<NodeId>)
    ensures
        without(nodes, None) == nodes,
    decreases nodes.len(),
{
    if nodes.len() > 0 {
        lemma_without_none(nodes.drop_last());
        assert(without(nodes, None) =~= nodes);
    }
}

/// How many nodes a replication policy sends a key to from its bucket: the first contact, as many
/// more as the redundancy has it, or all of them. A node keeps a key exactly if its bucket is empty.
pub proof fn lemma_replication(table: RoutingTable, args: DisseminationArgs, key: NodeId)
    requires
        table.wf(),
        key != table.local,
    ensures
        ({
            let bucket = table.buckets@[bucket_index(table.local, key) as int]@;
            let nodes = targets(
                table,
                BatchingStrategy::BucketWise,
                None,
                replication(args),
                key,
            );
            &&& nodes == (if bucket.len() == 0 {
                seq![table.local]
            } else {
                match args.replicate_mode {
                    ReplicatePolicy::ReplicateOne => bucket.take(1),
                    ReplicatePolicy::ReplicateSome => if 1 + args.redundancy < bucket.len() {
                        bucket.take(1 + args.redundancy)
                    } else {
                        bucket
                    },
                    ReplicatePolicy::ReplicateAll => bucket,
                }
            })
            &&& nodes.contains(table.local) <==> bucket.len() == 0
        }),
{
    lemma_bucket_index_bound(table.local, key);
    let index = bucket_index(table.local, key) as int;
    let bucket = table.buckets@[index]@;
    lemma_without_none(bucket);
    let nodes = targets(table, BatchingStrategy::BucketWise, None, replication(args), key);
    if bucket.len() == 0 {
        assert(nodes[0] == table.local);
    } else {
        assert(bucket.take(1) =~= capped(bucket, Some(1)));
        assert forall|m: int| 0 <= m < nodes.len() implies nodes[m] != table.local by {
            assert(nodes[m] == table.buckets@[index]@[m]);
        }
    }
}

/// More replicas keep the nodes that fewer replicas have: the nodes for one replica come first
/// among those for some, and these among all.
pub proof fn lemma_more_replicas(
    table: RoutingTable,
    batching: BatchingStrategy,
    excluded: Option<NodeId>,
    redundancy: nat,
    key: NodeId,
)
    ensures
        targets(table, batching, excluded, Some(1), key).is_prefix_of(
            targets(table, batching, excluded, Some(1 + redundancy), key),
        ),
        targets(table, batching, excluded, Some(1 + redundancy), key).is_prefix_of(
            targets(table, batching, excluded, None, key),
        ),
{
    let all = candidates(table, batching, excluded, key);
    let one = capped(all, Some(1));
    let some = capped(all, Some(1 + redundancy));
    assert(one.is_prefix_of(some)) by {
        assert(one =~= some.subrange(0, one.len() as int));
    }
    assert(some.is_prefix_of(all)) by {
        assert(some =~= all.subrange(0, some.len() as int));
    }
    let local = seq![table.local];
    assert(local.is_prefix_of(local)) by {
        assert(local =~= local.subrange(0, 1));
    }
}

proof fn lemma_in_bucket_by(
    contacts: Seq<NodeId>,
    local: NodeId,
    index: nat,
    belongs: spec_fn(NodeId) -> bool,
)
    requires
        forall|c: NodeId| #[trigger] belongs(c) <==> bucket_index(local, c) == index,
    ensures
        in_bucket(contacts, local, index) == contacts.filter(belongs),
    decreases contacts.len(),
{
    reveal(Seq::filter);
    if contacts.len() > 0 {
        lemma_in_bucket_by(contacts.drop_last(), local, index, belongs);
    }
    assert(in_bucket(contacts, local, index) =~= contacts.filter(belongs));
}

/// A k-bucket holds exactly the contacts at its distance: all of them, in their order, and no
/// others.
pub proof fn lemma_bucket_is_exact(contacts: Seq<NodeId>, local: NodeId, index: nat)
    ensures
        in_bucket(contacts, local, index) == contacts.filter(
            |c: NodeId| bucket_index(local, c) == index,
        ),
{
    lemma_in_bucket_by(contacts, local, index, |c: NodeId| bucket_index(local, c) == index);
}

proof fn lemma_without_by(
    nodes: Seq<NodeId>,
    excluded: Option<NodeId>,
    stays: spec_fn(NodeId) -> bool,
)
    requires
        forall|n: NodeId| #[trigger] stays(n) <==> excluded != Some(n),
    ensures
        without(nodes, excluded) == nodes.filter(stays),
    decreases nodes.len(),
{
    reveal(Seq::filter);
    if nodes.len() > 0 {
        lemma_without_by(nodes.drop_last(), excluded, stays);
    }
    assert(without(nodes, excluded) =~= nodes.filter(stays));
}

/// The contacts of a table are those in its buckets, each of them.
pub proof fn lemma_contacts_are_all(table: RoutingTable, node: NodeId)
    ensures
        table.contacts().contains(node) <==> exists|b: int|
            0 <= b < table.buckets@.len() && (#[trigger] table.buckets@[b])@.contains(node),
{
    lemma_concatenated_has(table.buckets@, node);
    if table.contacts().contains(node) {
        lemma_contact_in_bucket(table.buckets@, node);
    }
}

proof fn lemma_concatenated_has(lists: Seq<Vec<NodeId>>, node: NodeId)
    ensures
        (exists|b: int| 0 <= b < lists.len() && (#[trigger] lists[b])@.contains(node))
            ==> concatenated(lists).contains(node),
    decreases lists.len(),
{
    if exists|b: int| 0 <= b < lists.len() && (#[trigger] lists[b])@.contains(node) {
        let b = choose|b: int| 0 <= b < lists.len() && (#[trigger] lists[b])@.contains(node);
        let front = lists.drop_last();
        let all = concatenated(lists);
        if b < front.len() {
            assert(front[b]@.contains(node));
            lemma_concatenated_has(front, node);
            let i = choose|i: int|
                0 <= i < concatenated(front).len() && concatenated(front)[i] == node;
            assert(all[i] == node);
        } else {
            let i = choose|i: int| 0 <= i < lists.last()@.len() && lists.last()@[i] == node;
            assert(all[concatenated(front).len() + i] == node);
        }
    }
}

/// Where a key goes by k-bucket, whichever node is left out: to exactly as many of the contacts that
/// are left in its bucket as are allowed, the first ones, and to all of them where there is no
/// limit. Only where none is left, or none is allowed, does it stay with the node.
pub proof fn lemma_bucket_wise_targets(
    table: RoutingTable,
    excluded: Option<NodeId>,
    cap: Option<nat>,
    key: NodeId,
)
    ensures
        ({
            let bucket = table.buckets@[bucket_index(table.local, key) as int]@;
            let left = bucket.filter(|c: NodeId| excluded != Some(c));
            let nodes = targets(table, BatchingStrategy::BucketWise, excluded, cap, key);
            &&& left.len() == 0 || cap == Some(0nat) ==> nodes == seq![table.local]
            &&& left.len() > 0 && cap is None ==> nodes == left
            &&& left.len() > 0 && cap is Some && cap->0 > 0 ==> {
                &&& nodes.len() == (if cap->0 < left.len() {
                    cap->0
                } else {
                    left.len()
                })
                &&& nodes.is_prefix_of(left)
            }
        }),
{
    let bucket = table.buckets@[bucket_index(table.local, key) as int]@;
    let left = bucket.filter(|c: NodeId| excluded != Some(c));
    let nodes = targets(table, BatchingStrategy::BucketWise, excluded, cap, key);
    lemma_without_by(bucket, excluded, |c: NodeId| excluded != Some(c));
    assert(candidates(table, BatchingStrategy::BucketWise, excluded, key) == left);
    if left.len() > 0 && cap is Some && cap->0 > 0 {
        assert(nodes =~= left.subrange(0, nodes.len() as int));
    }
}

/// How a relay replicates a key by k-bucket: leaving out the sender, it goes to the first contact of
/// the bucket, to as many more as the redundancy has it, or to all of them, as the policy says. A
/// node that is asked for closer nodes names at most two.
pub proof fn lemma_relay_replication(
    table: RoutingTable,
    args: DisseminationArgs,
    from: NodeId,
    key: NodeId,
)
    ensures
        ({
            let bucket = table.buckets@[bucket_index(table.local, key) as int]@;
            let left = bucket.filter(|c: NodeId| c != from);
            let nodes = targets(
                table,
                BatchingStrategy::BucketWise,
                Some(from),
                relay_replication(args),
                key,
            );
            let allowed: int = match (args.routing_strategy, args.replicate_mode) {
                (RoutingStrategy::Iterative, _) => 2,
                (RoutingStrategy::Recursive, ReplicatePolicy::ReplicateOne) => 1,
                (RoutingStrategy::Recursive, ReplicatePolicy::ReplicateSome) => 1
                    + args.redundancy,
                (RoutingStrategy::Recursive, ReplicatePolicy::ReplicateAll) => left.len() as int,
            };
            &&& left.len() == 0 ==> nodes == seq![table.local]
            &&& left.len() > 0 ==> nodes == left.take(
                if allowed < left.len() {
                    allowed
                } else {
                    left.len() as int
                },
            )
        }),
{
    let bucket = table.buckets@[bucket_index(table.local, key) as int]@;
    let left = bucket.filter(|c: NodeId| c != from);
    lemma_bucket_wise_targets(table, Some(from), relay_replication(args), key);
    lemma_without_by(bucket, Some(from), |c: NodeId| c != from);
    lemma_without_by(bucket, Some(from), |c: NodeId| Some(from) != Some(c));
    let nodes = targets(
        table,
        BatchingStrategy::BucketWise,
        Some(from),
        relay_replication(args),
        key,
    );
    assert(left.take(left.len() as int) =~= left);
    if left.len() > 0 && nodes.len() < left.len() {
        assert(nodes =~= left.take(nodes.len() as int));
    }
}

/// Where a key goes by distance: the nodes come in the order of their distance to it, each of them
/// a contact or the node itself but not the one that is left out, and they are as many as are
/// allowed and as there are.
pub proof fn lemma_distance_wise_targets(
    table: RoutingTable,
    excluded: Option<NodeId>,
    cap: Option<nat>,
    key: NodeId,
)
    requires
        table.wf(),
    ensures
        ({
            let nodes = targets(table, BatchingStrategy::DistanceWise, excluded, cap, key);
            let view = table.contacts().push(table.local).filter(|c: NodeId| excluded != Some(c));
            &&& nodes.no_duplicates()
            &&& nodes.len() == (match cap {
                Some(n) => if n < view.len() {
                    n
                } else {
                    view.len()
                },
                None => view.len(),
            })
            &&& forall|i: int, j: int|
                0 <= i < j < nodes.len() ==> distance(#[trigger] nodes[i], key) < distance(
                    #[trigger] nodes[j],
                    key,
                )
            &&& forall|n: NodeId| #[trigger]
                nodes.contains(n) ==> view.contains(n)
            &&& forall|n: NodeId, m: NodeId|
                #![trigger nodes.contains(n), view.contains(m)]
                nodes.contains(n) && view.contains(m) && !nodes.contains(m) ==> distance(n, key)
                    < distance(m, key)
        }),
{
    broadcast use vstd::seq_lib::group_to_multiset_ensures;

    let nodes = targets(table, BatchingStrategy::DistanceWise, excluded, cap, key);
    let all = table.contacts().push(table.local);
    let view = all.filter(|c: NodeId| excluded != Some(c));
    lemma_without_by(all, excluded, |c: NodeId| excluded != Some(c));
    lemma_candidates(table, BatchingStrategy::DistanceWise, excluded, key);
    lemma_targets(table, BatchingStrategy::DistanceWise, excluded, cap, key);
    lemma_closest_first(view, key);
    let ordered = closest_first(view, key);
    assert forall|n: NodeId| #[trigger] ordered.contains(n) <==> view.contains(n) by {
        assert(ordered.contains(n) <==> ordered.to_multiset().count(n) > 0);
        assert(view.contains(n) <==> view.to_multiset().count(n) > 0);
    }
    assert forall|i: int, j: int| 0 <= i < j < nodes.len() implies distance(
        #[trigger] nodes[i],
        key,
    ) < distance(#[trigger] nodes[j], key) by {
        assert(nodes[i] == ordered[i] && nodes[j] == ordered[j]);
        if distance(nodes[i], key) == distance(nodes[j], key) {
            lemma_distance_unidirectional(nodes[i], nodes[j], key);
        }
    }
    assert forall|n: NodeId| #[trigger] nodes.contains(n) implies view.contains(n) by {
        let i = choose|i: int| 0 <= i < nodes.len() && nodes[i] == n;
        assert(ordered[i] == n);
        assert(ordered.contains(n));
    }
    assert forall|n: NodeId, m: NodeId|
        #![trigger nodes.contains(n), view.contains(m)]
        nodes.contains(n) && view.contains(m) && !nodes.contains(m) implies distance(n, key)
        < distance(m, key) by {
        assert(ordered.contains(m));
        let i = choose|i: int| 0 <= i < nodes.len() && nodes[i] == n;
        let j = choose|j: int| 0 <= j < ordered.len() && ordered[j] == m;
        assert(ordered[i] == n);
        if j < nodes.len() {
            assert(nodes[j] == m);
        }
        assert(distance(ordered[i], key) <= distance(ordered[j], key));
        if distance(n, key) == distance(m, key) {
            lemma_distance_unidirectional(n, m, key);
        }
    }
}

proof fn lemma_assigned_by(
    table: RoutingTable,
    batching: BatchingStrategy,
    excluded: Option<NodeId>,
    cap: Option<nat>,
    keys: Seq<NodeId>,
    node: NodeId,
    takes: spec_fn(NodeId) -> bool,
)
    requires
        table.wf(),
        batching == BatchingStrategy::BucketWise ==> !keys.contains(table.local),
        forall|k: NodeId| #[trigger]
            takes(k) <==> targets(table, batching, excluded, cap, k).contains(node),
    ensures
        values_of(assignments(table, batching, excluded, cap, keys), node) == keys.filter(takes),
    decreases keys.len(),
{
    reveal(Seq::filter);
    let all = values_of(assignments(table, batching, excluded, cap, keys), node);
    if keys.len() > 0 {
        let front = keys.drop_last();
        let last = keys.last();
        assert(!(batching == BatchingStrategy::BucketWise) || !front.contains(table.local)) by {
            if front.contains(table.local) {
                let i = choose|i: int| 0 <= i < front.len() && front[i] == table.local;
                assert(keys[i] == table.local);
            }
        }
        lemma_assigned_by(table, batching, excluded, cap, front, node, takes);
        assert(keys.contains(keys[keys.len() - 1]));
        let nodes = targets(table, batching, excluded, cap, last);
        lemma_targets(table, batching, excluded, cap, last);
        lemma_values_of_concat(
            assignments(table, batching, excluded, cap, front),
            paired_with(nodes, last),
            node,
        );
        lemma_values_of_paired(nodes, last, node);
        assert(takes(last) <==> nodes.contains(node));
    }
    assert(all =~= keys.filter(takes));
}

/// Which keys fall to a node: exactly those that go to it, each as often as it was given, in their
/// order.
pub proof fn lemma_keys_of_a_node(
    table: RoutingTable,
    batching: BatchingStrategy,
    excluded: Option<NodeId>,
    cap: Option<nat>,
    keys: Seq<NodeId>,
    node: NodeId,
)
    requires
        table.wf(),
        batching == BatchingStrategy::BucketWise ==> !keys.contains(table.local),
    ensures
        values_of(assignments(table, batching, excluded, cap, keys), node) == keys.filter(
            |k: NodeId| targets(table, batching, excluded, cap, k).contains(node),
        ),
{
    lemma_assigned_by(
        table,
        batching,
        excluded,
        cap,
        keys,
        node,
        |k: NodeId| targets(table, batching, excluded, cap, k).contains(node),
    );
}

/// A node is assigned some key exactly if some key goes to it.
pub proof fn lemma_assigned_nodes(
    table: RoutingTable,
    batching: BatchingStrategy,
    excluded: Option<NodeId>,
    cap: Option<nat>,
    keys: Seq<NodeId>,
    node: NodeId,
)
    requires
        table.wf(),
        batching == BatchingStrategy::BucketWise ==> !keys.contains(table.local),
    ensures
        values_of(assignments(table, batching, excluded, cap, keys), node).len() > 0 <==> exists|
            i: int,
        |
            0 <= i < keys.len() && targets(
                table,
                batching,
                excluded,
                cap,
                #[trigger] keys[i],
            ).contains(node),
{
    let takes = |k: NodeId| targets(table, batching, excluded, cap, k).contains(node);
    let taken = keys.filter(takes);
    lemma_assigned_by(table, batching, excluded, cap, keys, node, takes);
    if taken.len() > 0 {
        keys.lemma_filter_pred(takes, 0);
        keys.lemma_filter_contains_rev(takes, taken[0]);
        assert(taken.contains(taken[0]));
        let i = choose|i: int| 0 <= i < keys.len() && keys[i] == taken[0];
        assert(targets(table, batching, excluded, cap, keys[i]).contains(node));
    }
    if exists|i: int|
        0 <= i < keys.len() && targets(table, batching, excluded, cap, #[trigger] keys[i]).contains(
            node,
        ) {
        let i = choose|i: int|
            0 <= i < keys.len() && targets(
                table,
                batching,
                excluded,
                cap,
                #[trigger] keys[i],
            ).contains(node);
        assert(takes(keys[i]));
        keys.lemma_filter_contains(takes, i);
    }
}

/// A replication policy allows one node, one and as many more as the redundancy has it, or any
/// number. A node that is asked for closer nodes names two of each bucket, whatever the policy.
pub proof fn lemma_policies(args: DisseminationArgs, cap: Option<usize>)
    ensures
        args.replicate_mode == ReplicatePolicy::ReplicateOne ==> replication(args) == Some(1nat),
        args.replicate_mode == ReplicatePolicy::ReplicateSome ==> replication(args) is Some
            && replication(args)->0 == 1 + args.redundancy,
        args.replicate_mode == ReplicatePolicy::ReplicateAll ==> replication(args) is None,
        args.routing_strategy == RoutingStrategy::Recursive ==> relay_replication(args)
            == replication(args),
        args.routing_strategy == RoutingStrategy::Iterative ==> relay_replication(args) == Some(
            2nat,
        ),
        cap is None ==> cap_of(cap) is None,
        cap matches Some(n) ==> cap_of(cap) is Some && cap_of(cap)->0 == n,
{
}

/// What is handed to other nodes: each node other than this one that some key is assigned to has one
/// group, no other node has one, and a group holds all keys that are assigned to its node, in order.
pub proof fn lemma_remote_groups(
    groups: Seq<(NodeId, Seq<NodeId>)>,
    pairs: Seq<(NodeId, NodeId)>,
    local: NodeId,
    group: int,
)
    requires
        are_remote_groups(groups, pairs, local),
    ensures
        forall|i: int, j: int|
            0 <= i < groups.len() && 0 <= j < groups.len() && (#[trigger] groups[i]).0 == (
            #[trigger] groups[j]).0 ==> i == j,
        0 <= group < groups.len() ==> groups[group].0 != local && (exists|p: int|
            0 <= p < pairs.len() && (#[trigger] pairs[p]).0 == groups[group].0),
        0 <= group < groups.len() ==> groups[group].1 == pairs.filter(
            |pair: (NodeId, NodeId)| pair.0 == groups[group].0,
        ).map_values(|pair: (NodeId, NodeId)| pair.1),
        forall|p: int|
            0 <= p < pairs.len() && (#[trigger] pairs[p]).0 != local ==> exists|i: int|
                0 <= i < groups.len() && (#[trigger] groups[i]).0 == pairs[p].0,
{
    if 0 <= group < groups.len() {
        lemma_values_by(
            pairs,
            groups[group].0,
            |pair: (NodeId, NodeId)| pair.0 == groups[group].0,
        );
        lemma_values_witness(pairs, groups[group].0);
    }
}

} // verus!
