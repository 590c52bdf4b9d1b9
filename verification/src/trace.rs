//! Where a sample was to be found that a validator did not find.

use vstd::prelude::*;
use vstd::arithmetic::power2::pow2;
use crate::collections::KeyedMap;
use crate::grouping::{
    group_contents, group_pairs, has_group, in_order, lemma_ranked, lemma_ranked_is_stable,
    lemma_ranked_payloads, lemma_value_of_pair, lemma_values_contain, lemma_values_witness, payloads, rank_order, ranked,
    values_of, with_ranks,
};
use crate::ids::{
    distance, floor_log2, lemma_bucket_index_bound, lemma_distance_zero, lemma_floor_log2,
    lists_id, log2_distance, NodeId,
};
use crate::iterative::lists_of;

verus! {

/// The nodes whose records a node has.
#[derive(Debug)]
pub struct Records {
    pub node: NodeId,
    pub known: Vec<NodeId>,
}

/// The nodes that have the record of `node`, in their order.
pub open spec fn known_by(records: Seq<Records>, node: NodeId) -> Seq<NodeId>
    decreases records.len(),
{
    if records.len() == 0 {
        Seq::empty()
    } else {
        let front = known_by(records.drop_last(), node);
        if records.last().known@.contains(node) {
            front.push(records.last().node)
        } else {
            front
        }
    }
}

/// Each listed node with the nodes that have its record.
pub open spec fn knowledge(records: Seq<Records>) -> Seq<(NodeId, Seq<NodeId>)> {
    Seq::new(records.len(), |i: int| (records[i].node, known_by(records, records[i].node)))
}

/// Lists one after the other.
pub open spec fn flattened(lists: Seq<Seq<NodeId>>) -> Seq<NodeId>
    decreases lists.len(),
{
    if lists.len() == 0 {
        Seq::empty()
    } else {
        flattened(lists.drop_last()) + lists.last()
    }
}

fn find_known_by(records: &Vec<Records>, node: &NodeId) -> (found: Vec<NodeId>)
    ensures
        found@ == known_by(records@, *node),
{
    let mut found: Vec<NodeId> = Vec::new();
    let mut i: usize = 0;
    while i < records.len()
        invariant
            i <= records@.len(),
            found@ == known_by(records@.take(i as int), *node),
        decreases records@.len() - i,
    {
        assert(records@.take(i + 1).drop_last() =~= records@.take(i as int));
        if lists_id(&records[i].known, node) {
            found.push(records[i].node);
        }
        i = i + 1;
    }
    assert(records@.take(i as int) =~= records@);
    found
}

/// The contents of lists.
pub open spec fn contents(lists: Seq<Vec<NodeId>>) -> Seq<Seq<NodeId>> {
    Seq::new(lists.len(), |i: int| lists[i]@)
}

proof fn lemma_values_contents(pairs: Seq<(NodeId, Vec<NodeId>)>, node: NodeId)
    ensures
        contents(values_of(pairs, node)) == values_of(group_contents(pairs), node),
    decreases pairs.len(),
{
    if pairs.len() > 0 {
        lemma_values_contents(pairs.drop_last(), node);
        assert(group_contents(pairs).drop_last() =~= group_contents(pairs.drop_last()));
    }
    assert(contents(values_of(pairs, node)) =~= values_of(group_contents(pairs), node));
}

fn flatten(lists: &Vec<Vec<NodeId>>) -> (flat: Vec<NodeId>)
    ensures
        flat@ == flattened(contents(lists@)),
{
    let mut flat: Vec<NodeId> = Vec::new();
    let mut i: usize = 0;
    while i < lists.len()
        invariant
            i <= lists@.len(),
            flat@ == flattened(contents(lists@).take(i as int)),
        decreases lists@.len() - i,
    {
        let ghost before = flat@;
        let list: &Vec<NodeId> = &lists[i];
        let mut j: usize = 0;
        while j < list.len()
            invariant
                j <= list@.len(),
                flat@ =~= before + list@.take(j as int),
            decreases list@.len() - j,
        {
            flat.push(list[j]);
            j = j + 1;
        }
        assert(list@.take(j as int) =~= list@);
        assert(contents(lists@).take(i + 1).drop_last() =~= contents(lists@).take(i as int));
        i = i + 1;
    }
    assert(contents(lists@).take(i as int) =~= contents(lists@));
    flat
}

/// The nodes that have the record of each listed node.
pub fn nodes_by_node(records: &Vec<Records>) -> (map: KeyedMap<NodeId, Vec<NodeId>>)
    ensures
        map.wf(),
        forall|n: NodeId| #[trigger]
            lists_of(map@).dom().contains(n) <==> values_of(knowledge(records@), n).len() > 0,
        forall|n: NodeId| #[trigger]
            lists_of(map@).dom().contains(n) ==> lists_of(map@)[n] == flattened(
                values_of(knowledge(records@), n),
            ),
{
    let mut pairs: Vec<(NodeId, Vec<NodeId>)> = Vec::new();
    let mut i: usize = 0;
    while i < records.len()
        invariant
            i <= records@.len(),
            pairs@.len() == i,
            forall|j: int|
                0 <= j < i ==> (#[trigger] pairs@[j]).0 == records@[j].node && pairs@[j].1@
                    == known_by(records@, records@[j].node),
        decreases records@.len() - i,
    {
        pairs.push((records[i].node, find_known_by(records, &records[i].node)));
        i = i + 1;
    }
    let ghost all = pairs@;
    assert(group_contents(all) =~= knowledge(records@));
    let groups: Vec<(NodeId, Vec<Vec<NodeId>>)> = group_pairs(pairs);
    let ghost grouped = group_contents(groups@);
    let mut map: KeyedMap<NodeId, Vec<NodeId>> = KeyedMap::new();
    let mut g: usize = 0;
    while g < groups.len()
        invariant
            g <= groups@.len(),
            grouped == group_contents(groups@),
            forall|a: int, b: int|
                0 <= a < b < grouped.len() ==> (#[trigger] grouped[a]).0 != (
                #[trigger] grouped[b]).0,
            map.wf(),
            forall|n: NodeId| #[trigger]
                map@.dom().contains(n) <==> exists|h: int|
                    0 <= h < g && (#[trigger] grouped[h]).0 == n,
            forall|h: int|
                0 <= h < g ==> map@[(#[trigger] grouped[h]).0]@ == flattened(
                    contents(grouped[h].1),
                ),
        decreases groups@.len() - g,
    {
        let ghost before = map@;
        let flat: Vec<NodeId> = flatten(&groups[g].1);
        assert(grouped[g as int] == (groups@[g as int].0, groups@[g as int].1@));
        map.insert(groups[g].0, flat);
        proof {
            assert forall|n: NodeId| #[trigger] map@.dom().contains(n) <==> exists|h: int|
                0 <= h < g + 1 && (#[trigger] grouped[h]).0 == n by {
                if before.dom().contains(n) {
                    let h = choose|h: int| 0 <= h < g && (#[trigger] grouped[h]).0 == n;
                    assert(grouped[h].0 == n);
                }
                assert(grouped[g as int].0 == groups@[g as int].0);
            }
            assert forall|h: int| 0 <= h < g + 1 implies map@[(#[trigger] grouped[h]).0]@
                == flattened(contents(grouped[h].1)) by {
                if h < g {
                    assert(grouped[h].0 != grouped[g as int].0);
                }
            }
        }
        g = g + 1;
    }
    proof {
        assert forall|n: NodeId| #[trigger] lists_of(map@).dom().contains(n) <==> values_of(
            knowledge(records@),
            n,
        ).len() > 0 by {
            lemma_values_contents(all, n);
            if map@.dom().contains(n) {
                let h = choose|h: int| 0 <= h < grouped.len() && (#[trigger] grouped[h]).0 == n;
                assert(grouped[h].1 == values_of(all, n));
            }
            if values_of(all, n).len() > 0 {
                lemma_values_witness(all, n);
                let p = choose|p: int| 0 <= p < all.len() && (#[trigger] all[p]).0 == n;
                assert(has_group(grouped, all[p].0));
            }
        }
        assert forall|n: NodeId| #[trigger] lists_of(map@).dom().contains(n) implies lists_of(
            map@,
        )[n] == flattened(values_of(knowledge(records@), n)) by {
            lemma_values_contents(all, n);
            let h = choose|h: int| 0 <= h < grouped.len() && (#[trigger] grouped[h]).0 == n;
            assert(grouped[h].1 == values_of(all, n));
        }
    }
    map
}

/// Nodes with the logarithms of their distances to a key, as ranks and in the items.
pub open spec fn at_log_distance(nodes: Seq<NodeId>, key: NodeId) -> Seq<(nat, (NodeId, u64))> {
    Seq::new(
        nodes.len(),
        |i: int|
            {
                let log = floor_log2(distance(nodes[i], key)) + 1;
                (log, (nodes[i], log as u64))
            },
    )
}

/// Nodes with the logarithms of their distances to a key, in the order of these.
pub fn by_log_distance(nodes: &Vec<NodeId>, key: &NodeId) -> (ordered: Vec<(NodeId, u64)>)
    requires
        !nodes@.contains(*key),
    ensures
        ordered@ == payloads(ranked(at_log_distance(nodes@, *key))),
{
    let mut items: Vec<(u64, (NodeId, u64))> = Vec::new();
    let mut i: usize = 0;
    while i < nodes.len()
        invariant
            i <= nodes@.len(),
            !nodes@.contains(*key),
            items@.len() == i,
            forall|j: int|
                0 <= j < i ==> {
                    let log = floor_log2(distance(nodes@[j], *key)) + 1;
                    &&& (#[trigger] items@[j]).0 == log
                    &&& items@[j].1 == (nodes@[j], log as u64)
                },
        decreases nodes@.len() - i,
    {
        assert(nodes@.contains(nodes@[i as int]));
        proof {
            lemma_distance_zero(nodes@[i as int], *key);
            lemma_bucket_index_bound(nodes@[i as int], *key);
        }
        let log: u64 = match log2_distance(&nodes[i], key) {
            Some(log) => log,
            None => 0,
        };
        items.push((log, (nodes[i], log)));
        i = i + 1;
    }
    assert(with_ranks(items@) =~= at_log_distance(nodes@, *key));
    rank_order(items)
}

/// Which nodes have the record of a node: exactly those that list it, in their order.
pub proof fn lemma_known_by_is_exact(records: Seq<Records>, node: NodeId)
    ensures
        known_by(records, node) == records.filter(
            |r: Records| r.known@.contains(node),
        ).map_values(|r: Records| r.node),
    decreases records.len(),
{
    reveal(Seq::filter);
    if records.len() > 0 {
        lemma_known_by_is_exact(records.drop_last(), node);
    }
    assert(known_by(records, node) =~= records.filter(
        |r: Records| r.known@.contains(node),
    ).map_values(|r: Records| r.node));
}

/// Every node that is listed, and no other, is looked up; and where it is listed once, what is found
/// are the nodes that have its record.
pub proof fn lemma_nodes_by_node(records: Seq<Records>, node: NodeId)
    ensures
        values_of(knowledge(records), node).len() > 0 <==> exists|i: int|
            0 <= i < records.len() && (#[trigger] records[i]).node == node,
        (exists|i: int|
            0 <= i < records.len() && (#[trigger] records[i]).node == node && forall|j: int|
                0 <= j < records.len() && j != i ==> (#[trigger] records[j]).node != node)
            ==> flattened(values_of(knowledge(records), node)) == known_by(records, node),
        forall|n: NodeId| #[trigger]
            flattened(values_of(knowledge(records), node)).contains(n) ==> known_by(
                records,
                node,
            ).contains(n),
{
    let pairs = knowledge(records);
    let found = values_of(pairs, node);
    if found.len() > 0 {
        lemma_values_witness(pairs, node);
        let p = choose|p: int| 0 <= p < pairs.len() && (#[trigger] pairs[p]).0 == node;
        assert(records[p].node == node);
    }
    if exists|i: int| 0 <= i < records.len() && (#[trigger] records[i]).node == node {
        let i = choose|i: int| 0 <= i < records.len() && (#[trigger] records[i]).node == node;
        assert(pairs[i].0 == node);
        lemma_values_contain(pairs, i);
    }
    if exists|i: int|
        0 <= i < records.len() && (#[trigger] records[i]).node == node && forall|j: int|
            0 <= j < records.len() && j != i ==> (#[trigger] records[j]).node != node {
        let i = choose|i: int|
            0 <= i < records.len() && (#[trigger] records[i]).node == node && forall|j: int|
                0 <= j < records.len() && j != i ==> (#[trigger] records[j]).node != node;
        assert forall|j: int| 0 <= j < pairs.len() && j != i implies (#[trigger] pairs[j]).0
            != node by {
            assert(records[j].node != node);
        }
        assert(pairs[i] == (node, known_by(records, node)));
        lemma_only_value(pairs, node, i);
        assert(found =~= seq![known_by(records, node)]);
        assert(found.drop_last() =~= Seq::<Seq<NodeId>>::empty());
        assert(flattened(found.drop_last()) =~= Seq::<NodeId>::empty());
        assert(flattened(found) =~= known_by(records, node));
    }
    assert forall|n: NodeId| #[trigger] flattened(found).contains(n) implies known_by(
        records,
        node,
    ).contains(n) by {
        lemma_flattened_from(found, n);
        let l = choose|l: int| 0 <= l < found.len() && (#[trigger] found[l]).contains(n);
        assert(found.contains(found[l]));
        lemma_value_of_pair(pairs, node, found[l]);
        let p = choose|p: int| 0 <= p < pairs.len() && pairs[p] == (node, found[l]);
        assert(records[p].node == node);
    }
}

proof fn lemma_only_value<V>(pairs: Seq<(NodeId, V)>, key: NodeId, index: int)
    requires
        0 <= index < pairs.len(),
        pairs[index].0 == key,
        forall|j: int| 0 <= j < pairs.len() && j != index ==> (#[trigger] pairs[j]).0 != key,
    ensures
        values_of(pairs, key) == seq![pairs[index].1],
    decreases pairs.len(),
{
    let rest = pairs.drop_last();
    if index < rest.len() {
        assert(forall|j: int| 0 <= j < rest.len() ==> #[trigger] rest[j] == pairs[j]);
        lemma_only_value(rest, key, index);
        assert(pairs[pairs.len() - 1].0 != key);
    } else {
        if values_of(rest, key).len() > 0 {
            lemma_values_witness(rest, key);
            let p = choose|p: int| 0 <= p < rest.len() && (#[trigger] rest[p]).0 == key;
            assert(pairs[p].0 != key);
        }
        assert(values_of(pairs, key) =~= seq![pairs[index].1]);
    }
}

proof fn lemma_flattened_from(lists: Seq<Seq<NodeId>>, node: NodeId)
    requires
        flattened(lists).contains(node),
    ensures
        exists|l: int| 0 <= l < lists.len() && (#[trigger] lists[l]).contains(node),
    decreases lists.len(),
{
    let all = flattened(lists);
    let i = choose|i: int| 0 <= i < all.len() && all[i] == node;
    if lists.len() > 0 {
        let front = flattened(lists.drop_last());
        if i < front.len() {
            assert(front[i] == node);
            lemma_flattened_from(lists.drop_last(), node);
            let l = choose|l: int|
                0 <= l < lists.drop_last().len() && (#[trigger] lists.drop_last()[l]).contains(
                    node,
                );
            assert(lists[l].contains(node));
        } else {
            assert(lists.last()[i - front.len()] == node);
            assert(lists[lists.len() - 1].contains(node));
        }
    }
}

/// Nodes are listed by the logarithm of their distance to a key: all of them, each with the number of
/// bits of its distance, and the nearest first. Nodes with the same number stay in their order.
pub proof fn lemma_by_log_distance(nodes: Seq<NodeId>, key: NodeId)
    requires
        !nodes.contains(key),
    ensures
        ({
            let ordered = payloads(ranked(at_log_distance(nodes, key)));
            &&& ordered.len() == nodes.len()
            &&& ordered.map_values(|item: (NodeId, u64)| item.0).to_multiset()
                == nodes.to_multiset()
            &&& forall|i: int|
                0 <= i < ordered.len() ==> {
                    let item = #[trigger] ordered[i];
                    &&& item.1 > 0
                    &&& pow2((item.1 - 1) as nat) <= distance(item.0, key) < pow2(item.1 as nat)
                }
            &&& forall|i: int, j: int|
                0 <= i < j < ordered.len() ==> (#[trigger] ordered[i]).1 < (
                #[trigger] ordered[j]).1 || ordered[i].1 == ordered[j].1 && in_order(
                    nodes,
                    ordered[i].0,
                    ordered[j].0,
                )
        }),
{
    broadcast use vstd::seq_lib::group_to_multiset_ensures;

    let items = at_log_distance(nodes, key);
    let sorted = ranked(items);
    let ordered = payloads(sorted);
    lemma_ranked(items);
    lemma_ranked_payloads(items);
    assert forall|i: int| 0 <= i < items.len() implies {
        let item = (#[trigger] items[i]).1;
        &&& items[i].0 == item.1
        &&& item.1 > 0
        &&& pow2((item.1 - 1) as nat) <= distance(item.0, key) < pow2(item.1 as nat)
    } by {
        assert(nodes.contains(nodes[i]));
        lemma_distance_zero(nodes[i], key);
        lemma_bucket_index_bound(nodes[i], key);
        lemma_floor_log2(distance(nodes[i], key));
    }
    assert forall|i: int| 0 <= i < sorted.len() implies {
        let item = #[trigger] ordered[i];
        &&& sorted[i].0 == item.1
        &&& item.1 > 0
        &&& pow2((item.1 - 1) as nat) <= distance(item.0, key) < pow2(item.1 as nat)
    } by {
        assert(sorted.contains(sorted[i]));
        assert(sorted.to_multiset().count(sorted[i]) > 0);
        assert(items.contains(sorted[i]));
        let p = choose|p: int| 0 <= p < items.len() && items[p] == sorted[i];
        assert(items[p].1 == ordered[i]);
    }
    assert forall|i: int, j: int| 0 <= i < j < ordered.len() implies (#[trigger] ordered[i]).1 < (
    #[trigger] ordered[j]).1 || ordered[i].1 == ordered[j].1 && in_order(
        nodes,
        ordered[i].0,
        ordered[j].0,
    ) by {
        assert(sorted[i].0 <= sorted[j].0);
        if sorted[i].0 == sorted[j].0 {
            lemma_ranked_is_stable(items, i, j);
            let (p, q) = choose|p: int, q: int|
                0 <= p < q < items.len() && (#[trigger] items[p]) == sorted[i] && (
                #[trigger] items[q]) == sorted[j];
            assert(nodes[p] == ordered[i].0 && nodes[q] == ordered[j].0);
        }
    }
    let name = |item: (NodeId, u64)| item.0;
    lemma_same_items_same_names(ordered, payloads(items));
    assert(payloads(items).map_values(name) =~= nodes);
}

proof fn lemma_same_items_same_names(first: Seq<(NodeId, u64)>, second: Seq<(NodeId, u64)>)
    requires
        first.to_multiset() == second.to_multiset(),
    ensures
        first.map_values(|item: (NodeId, u64)| item.0).to_multiset() == second.map_values(
            |item: (NodeId, u64)| item.0,
        ).to_multiset(),
    decreases first.len(),
{
    broadcast use vstd::seq_lib::group_to_multiset_ensures;

    let name = |item: (NodeId, u64)| item.0;
    assert(first.len() == first.to_multiset().len());
    assert(second.len() == second.to_multiset().len());
    if first.len() == 0 {
        assert(first.map_values(name) =~= second.map_values(name));
    } else {
        let last = first.last();
        assert(first.contains(first[first.len() - 1]));
        assert(first.to_multiset().count(last) > 0);
        assert(second.contains(last));
        let i = choose|i: int| 0 <= i < second.len() && second[i] == last;
        let rest = second.remove(i);
        assert(first =~= first.drop_last().push(last));
        assert(first.drop_last().to_multiset() =~= first.to_multiset().remove(last));
        assert(rest.to_multiset() =~= second.to_multiset().remove(last));
        lemma_same_items_same_names(first.drop_last(), rest);
        assert(first.map_values(name) =~= first.drop_last().map_values(name).push(last.0));
        assert(rest.map_values(name) =~= second.map_values(name).remove(i));
        let names = second.map_values(name);
        assert(names[i] == last.0);
        assert(names.remove(i).to_multiset() =~= names.to_multiset().remove(last.0));
        assert(names.contains(names[i]));
        assert(names.to_multiset().count(last.0) > 0);
        assert(first.map_values(name).to_multiset() =~= names.to_multiset());
    }
}

} // verus!
