//! Where the samples are after a dissemination.

use vstd::prelude::*;
use crate::collections::KeyedMap;
use crate::ids::NodeId;
use crate::iterative::{list_under, lists_of};

verus! {

/// The samples that a node has stored, by their keys.
#[derive(Debug)]
pub struct Holding {
    pub node: NodeId,
    pub keys: Vec<NodeId>,
}

/// The number of samples of each node that has any. Of two entries for one node the later counts.
pub open spec fn key_counts(holdings: Seq<Holding>) -> Map<NodeId, usize>
    decreases holdings.len(),
{
    if holdings.len() == 0 {
        Map::empty()
    } else {
        let front = key_counts(holdings.drop_last());
        if holdings.last().keys@.len() == 0 {
            front
        } else {
            front.insert(holdings.last().node, holdings.last().keys@.len() as usize)
        }
    }
}

/// Lists of nodes by key, with a node added for each of `keys`.
pub open spec fn with_holder(
    lists: Map<NodeId, Seq<NodeId>>,
    keys: Seq<NodeId>,
    node: NodeId,
) -> Map<NodeId, Seq<NodeId>>
    decreases keys.len(),
{
    if keys.len() == 0 {
        lists
    } else {
        let front = with_holder(lists, keys.drop_last(), node);
        front.insert(keys.last(), list_under(front, keys.last()).push(node))
    }
}

/// The nodes that have stored each key, in their order.
pub open spec fn holder_lists(holdings: Seq<Holding>) -> Map<NodeId, Seq<NodeId>>
    decreases holdings.len(),
{
    if holdings.len() == 0 {
        Map::empty()
    } else {
        with_holder(
            holder_lists(holdings.drop_last()),
            holdings.last().keys@,
            holdings.last().node,
        )
    }
}

/// The sum of the values of a map.
pub open spec fn sum_of<K>(values: Map<K, nat>) -> nat
    decreases values.dom().len(),
{
    if values.dom().finite() && values.dom().len() > 0 {
        let k = values.dom().choose();
        values[k] + sum_of(values.remove(k))
    } else {
        0
    }
}

/// Counts as numbers.
pub open spec fn numbers<K>(counts: Map<K, usize>) -> Map<K, nat> {
    counts.map_values(|n: usize| n as nat)
}

/// The lengths of lists.
pub open spec fn lengths<K, T>(lists: Map<K, Seq<T>>) -> Map<K, nat> {
    lists.map_values(|list: Seq<T>| list.len())
}

/// How many samples nodes have stored in all.
pub open spec fn stored_total(holdings: Seq<Holding>) -> nat
    decreases holdings.len(),
{
    if holdings.len() == 0 {
        0
    } else {
        stored_total(holdings.drop_last()) + holdings.last().keys@.len()
    }
}

/// Those of `keys` that no node has stored, in their order.
pub open spec fn not_stored(
    keys: Seq<NodeId>,
    lists: Map<NodeId, Seq<NodeId>>,
) -> Seq<NodeId>
    decreases keys.len(),
{
    if keys.len() == 0 {
        Seq::empty()
    } else {
        let front = not_stored(keys.drop_last(), lists);
        if lists.dom().contains(keys.last()) {
            front
        } else {
            front.push(keys.last())
        }
    }
}

/// What nodes have stored, by node and by key.
pub struct Tally {
    pub keys_per_node: KeyedMap<NodeId, usize>,
    pub nodes_per_key: KeyedMap<NodeId, Vec<NodeId>>,
}

impl Tally {
    /// The maps are well-formed.
    pub open spec fn wf(&self) -> bool {
        self.keys_per_node.wf() && self.nodes_per_key.wf()
    }

    /// Counts what nodes have stored.
    pub fn new(holdings: &Vec<Holding>) -> (tally: Self)
        ensures
            tally.wf(),
            tally.keys_per_node@ == key_counts(holdings@),
            lists_of(tally.nodes_per_key@) == holder_lists(holdings@),
    {
        let mut keys_per_node: KeyedMap<NodeId, usize> = KeyedMap::new();
        let mut nodes_per_key: KeyedMap<NodeId, Vec<NodeId>> = KeyedMap::new();
        assert(lists_of(nodes_per_key@) =~= holder_lists(holdings@.take(0)));
        let mut i: usize = 0;
        while i < holdings.len()
            invariant
                i <= holdings@.len(),
                keys_per_node.wf(),
                nodes_per_key.wf(),
                keys_per_node@ == key_counts(holdings@.take(i as int)),
                lists_of(nodes_per_key@) == holder_lists(holdings@.take(i as int)),
            decreases holdings@.len() - i,
        {
            assert(holdings@.take(i + 1).drop_last() =~= holdings@.take(i as int));
            let holding: &Holding = &holdings[i];
            if holding.keys.len() > 0 {
                keys_per_node.insert(holding.node, holding.keys.len());
            }
            add_holder(&mut nodes_per_key, &holding.keys, holding.node);
            i = i + 1;
        }
        assert(holdings@.take(i as int) =~= holdings@);
        Tally { keys_per_node, nodes_per_key }
    }

    /// How many samples are stored in all nodes together.
    pub fn keys_stored_total(&self) -> (total: usize)
        requires
            self.wf(),
            sum_of(numbers(self.keys_per_node@)) <= usize::MAX,
        ensures
            total == sum_of(numbers(self.keys_per_node@)),
    {
        let ghost listed = self.keys_per_node.listed();
        let mut total: usize = 0;
        let mut i: usize = 0;
        proof {
            lemma_sum_listed(&self.keys_per_node);
        }
        while i < self.keys_per_node.len()
            invariant
                i <= listed.len(),
                self.wf(),
                listed == self.keys_per_node.listed(),
                total == sum_listed(listed.take(i as int)),
                sum_listed(listed) <= usize::MAX,
            decreases listed.len() - i,
        {
            assert(listed.take(i + 1).drop_last() =~= listed.take(i as int));
            proof {
                lemma_sum_listed_prefix(listed, i + 1);
            }
            total = total + self.keys_per_node.entry(i).1;
            i = i + 1;
        }
        assert(listed.take(i as int) =~= listed);
        total
    }

    /// The number of samples that are stored somewhere.
    pub fn unique_keys_stored(&self) -> (count: usize)
        requires
            self.wf(),
        ensures
            count == lists_of(self.nodes_per_key@).dom().len(),
    {
        assert(lists_of(self.nodes_per_key@).dom() =~= self.nodes_per_key@.dom());
        self.nodes_per_key.len()
    }

    /// The samples that are stored nowhere.
    pub fn missing_keys(&self, keys: &Vec<NodeId>) -> (missing: Vec<NodeId>)
        requires
            self.wf(),
        ensures
            missing@ == not_stored(keys@, lists_of(self.nodes_per_key@)),
    {
        let mut missing: Vec<NodeId> = Vec::new();
        let mut i: usize = 0;
        while i < keys.len()
            invariant
                i <= keys@.len(),
                self.wf(),
                missing@ == not_stored(keys@.take(i as int), lists_of(self.nodes_per_key@)),
            decreases keys@.len() - i,
        {
            assert(keys@.take(i + 1).drop_last() =~= keys@.take(i as int));
            if !self.nodes_per_key.contains(&keys[i]) {
                missing.push(keys[i]);
            }
            i = i + 1;
        }
        assert(keys@.take(i as int) =~= keys@);
        missing
    }
}

fn add_holder(lists: &mut KeyedMap<NodeId, Vec<NodeId>>, keys: &Vec<NodeId>, node: NodeId)
    requires
        old(lists).wf(),
    ensures
        final(lists).wf(),
        lists_of(final(lists)@) == with_holder(lists_of(old(lists)@), keys@, node),
{
    let ghost before = lists@;
    let mut i: usize = 0;
    while i < keys.len()
        invariant
            i <= keys@.len(),
            lists.wf(),
            lists_of(lists@) == with_holder(lists_of(before), keys@.take(i as int), node),
        decreases keys@.len() - i,
    {
        assert(keys@.take(i + 1).drop_last() =~= keys@.take(i as int));
        let ghost now = lists@;
        let mut list: Vec<NodeId> = match lists.remove(&keys[i]) {
            Some(list) => list,
            None => Vec::new(),
        };
        assert(list@ =~= list_under(lists_of(now), keys@[i as int]));
        list.push(node);
        let ghost added = list@;
        lists.insert(keys[i], list);
        assert(lists_of(lists@) =~= lists_of(now).insert(keys@[i as int], added));
        i = i + 1;
    }
    assert(keys@.take(i as int) =~= keys@);
}

spec fn sum_listed(entries: Seq<(NodeId, usize)>) -> nat
    decreases entries.len(),
{
    if entries.len() == 0 {
        0
    } else {
        sum_listed(entries.drop_last()) + entries.last().1 as nat
    }
}

proof fn lemma_sum_listed_prefix(entries: Seq<(NodeId, usize)>, n: int)
    requires
        0 <= n <= entries.len(),
    ensures
        sum_listed(entries.take(n)) <= sum_listed(entries),
    decreases entries.len(),
{
    if n == entries.len() {
        assert(entries.take(n) =~= entries);
    } else {
        lemma_sum_listed_prefix(entries.drop_last(), n);
        assert(entries.drop_last().take(n) =~= entries.take(n));
    }
}

/// The sum of the values of a map is one value and the sum of the others, whichever value it is.
pub proof fn lemma_sum_remove<K>(values: Map<K, nat>, key: K)
    requires
        values.dom().finite(),
        values.dom().contains(key),
    ensures
        sum_of(values) == values[key] + sum_of(values.remove(key)),
    decreases values.dom().len(),
{
    let c = values.dom().choose();
    if c != key {
        lemma_sum_remove(values.remove(c), key);
        lemma_sum_remove(values.remove(key), c);
        assert(values.remove(c).remove(key) =~= values.remove(key).remove(c));
    }
}

proof fn lemma_sum_insert<K>(values: Map<K, nat>, key: K, value: nat)
    requires
        values.dom().finite(),
    ensures
        sum_of(values.insert(key, value)) == (if values.dom().contains(key) {
            (sum_of(values) - values[key] + value) as nat
        } else {
            sum_of(values) + value
        }),
        values.dom().contains(key) ==> values[key] <= sum_of(values),
{
    lemma_sum_remove(values.insert(key, value), key);
    assert(values.insert(key, value).remove(key) =~= values.remove(key));
    if values.dom().contains(key) {
        lemma_sum_remove(values, key);
    } else {
        assert(values.remove(key) =~= values);
    }
}

proof fn lemma_sum_listed(counts: &KeyedMap<NodeId, usize>)
    requires
        counts.wf(),
    ensures
        sum_listed(counts.listed()) == sum_of(numbers(counts@)),
{
    counts.lemma_listed();
    let listed = counts.listed();
    assert forall|i: int, j: int| 0 <= i < j < listed.len() implies (#[trigger] listed[i]).0 != (
    #[trigger] listed[j]).0 by {}
    assert(numbers(counts@).dom() =~= counts@.dom());
    lemma_sum_entries(listed, numbers(counts@));
}

proof fn lemma_sum_entries(entries: Seq<(NodeId, usize)>, values: Map<NodeId, nat>)
    requires
        forall|i: int, j: int|
            0 <= i < j < entries.len() ==> (#[trigger] entries[i]).0 != (#[trigger] entries[j]).0,
        forall|i: int|
            0 <= i < entries.len() ==> values.dom().contains((#[trigger] entries[i]).0)
                && values[entries[i].0] == entries[i].1,
        forall|k: NodeId| #[trigger]
            values.dom().contains(k) ==> exists|i: int|
                0 <= i < entries.len() && (#[trigger] entries[i]).0 == k,
        values.dom().finite(),
    ensures
        sum_listed(entries) == sum_of(values),
    decreases entries.len(),
{
    if entries.len() == 0 {
        assert(values.dom() =~= Set::empty());
    } else {
        let front = entries.drop_last();
        let last = entries.last();
        let rest = values.remove(last.0);
        assert(entries[entries.len() - 1] == last);
        assert forall|i: int| 0 <= i < front.len() implies rest.dom().contains(
            (#[trigger] front[i]).0,
        ) && rest[front[i].0] == front[i].1 by {
            assert(front[i] == entries[i]);
            assert(entries[i].0 != entries[entries.len() - 1].0);
        }
        assert forall|k: NodeId| #[trigger] rest.dom().contains(k) implies exists|i: int|
            0 <= i < front.len() && (#[trigger] front[i]).0 == k by {
            assert(values.dom().contains(k));
            let i = choose|i: int| 0 <= i < entries.len() && (#[trigger] entries[i]).0 == k;
            assert(front[i].0 == k);
        }
        assert forall|i: int, j: int| 0 <= i < j < front.len() implies (#[trigger] front[i]).0 != (
        #[trigger] front[j]).0 by {
            assert(entries[i].0 != entries[j].0);
        }
        lemma_sum_entries(front, rest);
        lemma_sum_remove(values, last.0);
    }
}

proof fn lemma_key_counts(holdings: Seq<Holding>)
    ensures
        key_counts(holdings).dom().finite(),
        forall|n: NodeId| #[trigger]
            key_counts(holdings).dom().contains(n) ==> exists|i: int|
                0 <= i < holdings.len() && (#[trigger] holdings[i]).node == n,
    decreases holdings.len(),
{
    if holdings.len() > 0 {
        let front = holdings.drop_last();
        lemma_key_counts(front);
        assert forall|n: NodeId| #[trigger] key_counts(holdings).dom().contains(n) implies exists|
            i: int,
        | 0 <= i < holdings.len() && (#[trigger] holdings[i]).node == n by {
            if key_counts(front).dom().contains(n) {
                let i = choose|i: int| 0 <= i < front.len() && (#[trigger] front[i]).node == n;
                assert(holdings[i].node == n);
            } else {
                assert(holdings[holdings.len() - 1].node == n);
            }
        }
    }
}

proof fn lemma_with_holder(lists: Map<NodeId, Seq<NodeId>>, keys: Seq<NodeId>, node: NodeId)
    requires
        lists.dom().finite(),
    ensures
        with_holder(lists, keys, node).dom().finite(),
        sum_of(lengths(with_holder(lists, keys, node))) == sum_of(lengths(lists)) + keys.len(),
        with_holder(lists, keys, node).dom() == lists.dom().union(keys.to_set()),
    decreases keys.len(),
{
    if keys.len() == 0 {
        assert(lists.dom().union(keys.to_set()) =~= lists.dom());
    } else {
        let rest = keys.drop_last();
        let last = keys.last();
        lemma_with_holder(lists, rest, node);
        let front = with_holder(lists, rest, node);
        let after = with_holder(lists, keys, node);
        let grown = list_under(front, last).push(node);
        assert(lengths(front).dom() =~= front.dom());
        assert(lengths(after) =~= lengths(front).insert(last, grown.len()));
        lemma_sum_insert(lengths(front), last, grown.len());
        assert forall|k: NodeId| #[trigger] keys.to_set().contains(k) <==> rest.to_set().contains(k)
            || k == last by {
            if keys.contains(k) {
                let i = choose|i: int| 0 <= i < keys.len() && keys[i] == k;
                if i < rest.len() {
                    assert(rest[i] == k);
                }
            }
            if rest.contains(k) {
                let i = choose|i: int| 0 <= i < rest.len() && rest[i] == k;
                assert(keys[i] == k);
            }
            assert(keys[keys.len() - 1] == last);
        }
        assert(after.dom() =~= lists.dom().union(keys.to_set()));
    }
}

/// The overhead is the same by node and by key: where each node is listed once, the samples that
/// the nodes have stored are as many as the places where the samples are stored.
pub proof fn lemma_overhead_by_node_and_key(holdings: Seq<Holding>)
    requires
        forall|i: int, j: int|
            0 <= i < j < holdings.len() ==> (#[trigger] holdings[i]).node != (
            #[trigger] holdings[j]).node,
    ensures
        sum_of(numbers(key_counts(holdings))) == stored_total(holdings),
        sum_of(lengths(holder_lists(holdings))) == stored_total(holdings),
        holder_lists(holdings).dom().finite(),
    decreases holdings.len(),
{
    if holdings.len() == 0 {
        assert(numbers(key_counts(holdings)).dom() =~= Set::empty());
        assert(lengths(holder_lists(holdings)).dom() =~= Set::empty());
    } else {
        let front = holdings.drop_last();
        let last = holdings.last();
        assert forall|i: int, j: int| 0 <= i < j < front.len() implies (
        #[trigger] front[i]).node != (#[trigger] front[j]).node by {
            assert(holdings[i].node != holdings[j].node);
        }
        lemma_overhead_by_node_and_key(front);
        lemma_key_counts(front);
        lemma_with_holder(holder_lists(front), last.keys@, last.node);
        let counts = numbers(key_counts(front));
        assert(counts.dom() =~= key_counts(front).dom());
        assert(!counts.dom().contains(last.node)) by {
            if key_counts(front).dom().contains(last.node) {
                let i = choose|i: int|
                    0 <= i < front.len() && (#[trigger] front[i]).node == last.node;
                assert(holdings[i].node != holdings[holdings.len() - 1].node);
            }
        }
        if last.keys@.len() > 0 {
            assert(last.keys@.len() == last.keys.len());
            assert(numbers(key_counts(holdings)) =~= counts.insert(
                last.node,
                last.keys@.len(),
            ));
            lemma_sum_insert(counts, last.node, last.keys@.len());
        }
    }
}

/// A sample is listed as stored exactly if some node has stored it.
pub proof fn lemma_listed_keys(holdings: Seq<Holding>, key: NodeId)
    ensures
        holder_lists(holdings).dom().contains(key) <==> exists|i: int|
            0 <= i < holdings.len() && (#[trigger] holdings[i]).keys@.contains(key),
        holder_lists(holdings).dom().finite(),
    decreases holdings.len(),
{
    if holdings.len() > 0 {
        let front = holdings.drop_last();
        let last = holdings.last();
        lemma_listed_keys(front, key);
        lemma_with_holder(holder_lists(front), last.keys@, last.node);
        if holder_lists(front).dom().contains(key) {
            let i = choose|i: int|
                0 <= i < front.len() && (#[trigger] front[i]).keys@.contains(key);
            assert(holdings[i].keys@.contains(key));
        }
        if last.keys@.contains(key) {
            assert(holdings[holdings.len() - 1].keys@.contains(key));
        }
        if exists|i: int| 0 <= i < holdings.len() && (#[trigger] holdings[i]).keys@.contains(key) {
            let i = choose|i: int|
                0 <= i < holdings.len() && (#[trigger] holdings[i]).keys@.contains(key);
            if i < front.len() {
                assert(front[i].keys@.contains(key));
            }
        }
    }
}

proof fn lemma_with_holder_lists(
    lists: Map<NodeId, Seq<NodeId>>,
    keys: Seq<NodeId>,
    node: NodeId,
    key: NodeId,
    holder: NodeId,
)
    ensures
        list_under(with_holder(lists, keys, node), key).contains(holder) <==> list_under(
            lists,
            key,
        ).contains(holder) || holder == node && keys.contains(key),
    decreases keys.len(),
{
    if keys.len() > 0 {
        let rest = keys.drop_last();
        let last = keys.last();
        lemma_with_holder_lists(lists, rest, node, key, holder);
        let front = with_holder(lists, rest, node);
        let before = list_under(front, key);
        let after = list_under(with_holder(lists, keys, node), key);
        if rest.contains(key) {
            let i = choose|i: int| 0 <= i < rest.len() && rest[i] == key;
            assert(keys[i] == key);
        }
        if keys.contains(key) && key != last {
            let i = choose|i: int| 0 <= i < keys.len() && keys[i] == key;
            assert(rest[i] == key);
        }
        if key == last {
            assert(keys[keys.len() - 1] == key);
            assert(after == before.push(node));
            if before.contains(holder) {
                let i = choose|i: int| 0 <= i < before.len() && before[i] == holder;
                assert(after[i] == holder);
            }
            if after.contains(holder) {
                let i = choose|i: int| 0 <= i < after.len() && after[i] == holder;
                if i < before.len() {
                    assert(before[i] == holder);
                }
            }
            assert(after[after.len() - 1] == node);
        } else {
            assert(after == before);
        }
    }
}

proof fn lemma_holders(holdings: Seq<Holding>, node: NodeId, key: NodeId)
    ensures
        list_under(holder_lists(holdings), key).contains(node) <==> exists|i: int|
            0 <= i < holdings.len() && (#[trigger] holdings[i]).node == node
                && holdings[i].keys@.contains(key),
    decreases holdings.len(),
{
    if holdings.len() > 0 {
        let front = holdings.drop_last();
        let last = holdings.last();
        lemma_holders(front, node, key);
        lemma_with_holder_lists(holder_lists(front), last.keys@, last.node, key, node);
        if exists|i: int|
            0 <= i < front.len() && (#[trigger] front[i]).node == node && front[i].keys@.contains(
                key,
            ) {
            let i = choose|i: int|
                0 <= i < front.len() && (#[trigger] front[i]).node == node
                    && front[i].keys@.contains(key);
            assert(holdings[i].node == node && holdings[i].keys@.contains(key));
        }
        if exists|i: int|
            0 <= i < holdings.len() && (#[trigger] holdings[i]).node == node
                && holdings[i].keys@.contains(key) {
            let i = choose|i: int|
                0 <= i < holdings.len() && (#[trigger] holdings[i]).node == node
                    && holdings[i].keys@.contains(key);
            if i < front.len() {
                assert(front[i].node == node && front[i].keys@.contains(key));
            }
        }
        if last.node == node && last.keys@.contains(key) {
            assert(holdings[holdings.len() - 1].node == node);
        }
    }
}

proof fn lemma_count_of(holdings: Seq<Holding>, i: int)
    requires
        forall|a: int, b: int|
            0 <= a < b < holdings.len() ==> (#[trigger] holdings[a]).node != (
            #[trigger] holdings[b]).node,
        0 <= i < holdings.len(),
    ensures
        key_counts(holdings).dom().contains(holdings[i].node) <==> holdings[i].keys@.len() > 0,
        holdings[i].keys@.len() > 0 ==> key_counts(holdings)[holdings[i].node]
            == holdings[i].keys@.len(),
    decreases holdings.len(),
{
    let front = holdings.drop_last();
    let last = holdings.last();
    lemma_key_counts(front);
    if i < front.len() {
        assert forall|a: int, b: int| 0 <= a < b < front.len() implies (
        #[trigger] front[a]).node != (#[trigger] front[b]).node by {
            assert(holdings[a].node != holdings[b].node);
        }
        lemma_count_of(front, i);
        assert(front[i] == holdings[i]);
        assert(holdings[i].node != holdings[holdings.len() - 1].node);
    } else {
        assert(last.keys@.len() == last.keys.len());
        if key_counts(front).dom().contains(last.node) {
            let j = choose|j: int| 0 <= j < front.len() && (#[trigger] front[j]).node == last.node;
            assert(holdings[j].node != holdings[holdings.len() - 1].node);
        }
    }
}

proof fn lemma_with_holder_apart(
    lists: Map<NodeId, Seq<NodeId>>,
    keys: Seq<NodeId>,
    node: NodeId,
    key: NodeId,
)
    requires
        keys.no_duplicates(),
        list_under(lists, key).no_duplicates(),
        !list_under(lists, key).contains(node),
        lists.dom().contains(key) ==> lists[key].len() > 0,
    ensures
        ({
            let after = with_holder(lists, keys, node);
            &&& list_under(after, key).no_duplicates()
            &&& after.dom().contains(key) ==> after[key].len() > 0
            &&& !keys.contains(key) ==> list_under(after, key) == list_under(lists, key)
        }),
    decreases keys.len(),
{
    if keys.len() > 0 {
        let rest = keys.drop_last();
        assert(rest.no_duplicates());
        lemma_with_holder_apart(lists, rest, node, key);
        if rest.contains(key) {
            let i = choose|i: int| 0 <= i < rest.len() && rest[i] == key;
            assert(keys[i] == key);
            assert(keys[keys.len() - 1] != key);
        }
        if key == keys.last() {
            assert(keys[keys.len() - 1] == key);
            let before = list_under(lists, key);
            assert(!rest.contains(key));
            assert(before.push(node).no_duplicates());
        }
    }
}

/// No list of a tally is empty, and none has a node twice, if each node is listed once and with no
/// key twice.
pub proof fn lemma_lists_are_proper(holdings: Seq<Holding>, key: NodeId)
    requires
        forall|a: int, b: int|
            0 <= a < b < holdings.len() ==> (#[trigger] holdings[a]).node != (
            #[trigger] holdings[b]).node,
        forall|a: int| 0 <= a < holdings.len() ==> (#[trigger] holdings[a]).keys@.no_duplicates(),
    ensures
        holder_lists(holdings).dom().contains(key) ==> holder_lists(holdings)[key].len() > 0
            && holder_lists(holdings)[key].no_duplicates(),
    decreases holdings.len(),
{
    if holdings.len() > 0 {
        let front = holdings.drop_last();
        let last = holdings.last();
        assert forall|a: int, b: int| 0 <= a < b < front.len() implies (
        #[trigger] front[a]).node != (#[trigger] front[b]).node by {
            assert(holdings[a].node != holdings[b].node);
        }
        assert forall|a: int| 0 <= a < front.len() implies (
        #[trigger] front[a]).keys@.no_duplicates() by {
            assert(holdings[a].keys@.no_duplicates());
        }
        lemma_lists_are_proper(front, key);
        lemma_holders(front, last.node, key);
        if list_under(holder_lists(front), key).contains(last.node) {
            let i = choose|i: int|
                0 <= i < front.len() && (#[trigger] front[i]).node == last.node
                    && front[i].keys@.contains(key);
            assert(holdings[i].node != holdings[holdings.len() - 1].node);
        }
        assert(holdings[holdings.len() - 1].keys@.no_duplicates());
        lemma_with_holder_apart(holder_lists(front), last.keys@, last.node, key);
    }
}

/// The two sides of a tally say the same: a node is listed under a key exactly if the key is one of
/// those that the node has stored, and the count of a node is the number of keys that it is listed
/// under. Each node is listed once, with no key twice.
pub proof fn lemma_tally_sides_agree(holdings: Seq<Holding>, i: int)
    requires
        forall|a: int, b: int|
            0 <= a < b < holdings.len() ==> (#[trigger] holdings[a]).node != (
            #[trigger] holdings[b]).node,
        0 <= i < holdings.len(),
        holdings[i].keys@.no_duplicates(),
    ensures
        forall|key: NodeId| #[trigger]
            list_under(holder_lists(holdings), key).contains(holdings[i].node)
                <==> holdings[i].keys@.contains(key),
        key_counts(holdings).dom().contains(holdings[i].node) <==> holdings[i].keys@.len() > 0,
        holdings[i].keys@.len() > 0 ==> key_counts(holdings)[holdings[i].node] == Set::new(
            |key: NodeId|
                list_under(holder_lists(holdings), key).contains(holdings[i].node),
        ).len(),
{
    let node = holdings[i].node;
    let keys = holdings[i].keys@;
    assert forall|key: NodeId| #[trigger]
        list_under(holder_lists(holdings), key).contains(node) <==> keys.contains(key) by {
        lemma_holders(holdings, node, key);
        if keys.contains(key) {
            assert(holdings[i].node == node && holdings[i].keys@.contains(key));
        }
        if list_under(holder_lists(holdings), key).contains(node) {
            let j = choose|j: int|
                0 <= j < holdings.len() && (#[trigger] holdings[j]).node == node
                    && holdings[j].keys@.contains(key);
            if j < i {
                assert(holdings[j].node != holdings[i].node);
            } else if i < j {
                assert(holdings[i].node != holdings[j].node);
            }
        }
    }
    lemma_count_of(holdings, i);
    keys.unique_seq_to_set();
    let listed = Set::new(
        |key: NodeId| list_under(holder_lists(holdings), key).contains(node),
    );
    assert(listed =~= keys.to_set());
}

/// Which samples are missing: exactly those of the given keys that no node has stored, each as often
/// as it was given, in their order.
pub proof fn lemma_missing_keys_are_exact(keys: Seq<NodeId>, lists: Map<NodeId, Seq<NodeId>>)
    ensures
        not_stored(keys, lists) == keys.filter(|k: NodeId| !lists.dom().contains(k)),
    decreases keys.len(),
{
    reveal(Seq::filter);
    if keys.len() > 0 {
        lemma_missing_keys_are_exact(keys.drop_last(), lists);
    }
    assert(not_stored(keys, lists) =~= keys.filter(|k: NodeId| !lists.dom().contains(k)));
}

/// Which nodes have stored a sample: exactly those that hold its key, in the order in which they are
/// listed.
pub proof fn lemma_holders_are_exact(holdings: Seq<Holding>, key: NodeId)
    requires
        forall|a: int| 0 <= a < holdings.len() ==> (#[trigger] holdings[a]).keys@.no_duplicates(),
    ensures
        list_under(holder_lists(holdings), key) == holdings.filter(
            |h: Holding| h.keys@.contains(key),
        ).map_values(|h: Holding| h.node),
        holder_lists(holdings).dom().contains(key) <==> exists|a: int|
            0 <= a < holdings.len() && (#[trigger] holdings[a]).keys@.contains(key),
    decreases holdings.len(),
{
    reveal(Seq::filter);
    lemma_listed_keys(holdings, key);
    let all = list_under(holder_lists(holdings), key);
    if holdings.len() > 0 {
        let rest = holdings.drop_last();
        let last = holdings.last();
        assert(forall|a: int| 0 <= a < rest.len() ==> #[trigger] rest[a] == holdings[a]);
        lemma_holders_are_exact(rest, key);
        assert(holdings[holdings.len() - 1].keys@.no_duplicates());
        lemma_with_holder_adds(holder_lists(rest), last.keys@, last.node, key);
    }
    assert(all =~= holdings.filter(|h: Holding| h.keys@.contains(key)).map_values(
        |h: Holding| h.node,
    ));
}

proof fn lemma_with_holder_adds(
    lists: Map<NodeId, Seq<NodeId>>,
    keys: Seq<NodeId>,
    node: NodeId,
    key: NodeId,
)
    requires
        keys.no_duplicates(),
    ensures
        list_under(with_holder(lists, keys, node), key) == (if keys.contains(key) {
            list_under(lists, key).push(node)
        } else {
            list_under(lists, key)
        }),
    decreases keys.len(),
{
    if keys.len() > 0 {
        let rest = keys.drop_last();
        assert(rest.no_duplicates());
        lemma_with_holder_adds(lists, rest, node, key);
        if rest.contains(key) {
            let i = choose|i: int| 0 <= i < rest.len() && rest[i] == key;
            assert(keys[i] == key);
            assert(keys[keys.len() - 1] != key);
        } else if keys.last() == key {
            assert(keys[keys.len() - 1] == key);
        } else if keys.contains(key) {
            let i = choose|i: int| 0 <= i < keys.len() && keys[i] == key;
            assert(rest[i] == key);
        }
    }
}

/// How many samples each node has: as many as it holds, for exactly the nodes that hold any.
pub proof fn lemma_key_counts_are_exact(holdings: Seq<Holding>, node: NodeId)
    requires
        forall|a: int, b: int|
            0 <= a < b < holdings.len() ==> (#[trigger] holdings[a]).node != (
            #[trigger] holdings[b]).node,
    ensures
        key_counts(holdings).dom().contains(node) <==> exists|a: int|
            0 <= a < holdings.len() && (#[trigger] holdings[a]).node == node
                && holdings[a].keys@.len() > 0,
        forall|a: int|
            0 <= a < holdings.len() && (#[trigger] holdings[a]).node == node
                && holdings[a].keys@.len() > 0 ==> key_counts(holdings)[node]
                == holdings[a].keys@.len(),
    decreases holdings.len(),
{
    if holdings.len() > 0 {
        let rest = holdings.drop_last();
        let last = holdings.last();
        assert(forall|a: int| 0 <= a < rest.len() ==> #[trigger] rest[a] == holdings[a]);
        lemma_key_counts_are_exact(rest, node);
        assert(last.keys@.len() == last.keys.len());
        if key_counts(rest).dom().contains(node) {
            let a = choose|a: int|
                0 <= a < rest.len() && (#[trigger] rest[a]).node == node && rest[a].keys@.len() > 0;
            assert(holdings[a].node == node);
            assert(holdings[a].node != holdings[holdings.len() - 1].node);
        }
        if last.node == node && last.keys@.len() > 0 {
            assert(holdings[holdings.len() - 1].node == node);
        }
        if exists|a: int|
            0 <= a < holdings.len() && (#[trigger] holdings[a]).node == node
                && holdings[a].keys@.len() > 0 {
            let a = choose|a: int|
                0 <= a < holdings.len() && (#[trigger] holdings[a]).node == node
                    && holdings[a].keys@.len() > 0;
            if a < rest.len() {
                assert(rest[a].node == node);
            }
        }
        assert forall|a: int|
            0 <= a < holdings.len() && (#[trigger] holdings[a]).node == node
                && holdings[a].keys@.len() > 0 implies key_counts(holdings)[node]
            == holdings[a].keys@.len() by {
            if a < rest.len() {
                assert(rest[a].node == node);
                assert(holdings[a].node != holdings[holdings.len() - 1].node);
            }
        }
    }
}

/// A sum is nothing for no values, and grows by each value that is added.
pub proof fn lemma_sum_grows<K>(values: Map<K, nat>, key: K, value: nat)
    requires
        values.dom().finite(),
        !values.dom().contains(key),
    ensures
        sum_of(Map::<K, nat>::empty()) == 0,
        sum_of(values.insert(key, value)) == sum_of(values) + value,
{
    assert(Map::<K, nat>::empty().dom() =~= Set::empty());
    lemma_sum_remove(values.insert(key, value), key);
    assert(values.insert(key, value).remove(key) =~= values);
}

/// The samples that nodes have stored in all are as many as the nodes hold, added up node by node.
pub proof fn lemma_stored_total_is_exact(holdings: Seq<Holding>, more: Holding)
    ensures
        stored_total(Seq::<Holding>::empty()) == 0,
        stored_total(holdings.push(more)) == stored_total(holdings) + more.keys@.len(),
{
    assert(holdings.push(more).drop_last() =~= holdings);
}

} // verus!
