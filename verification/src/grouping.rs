//! Grouping, ranking and removing duplicates.

use vstd::prelude::*;
use itertools::Itertools;
use crate::ids::{be_value, NodeId};

verus! {

/// A plain value whose equality compares what it holds, so that values can be grouped by it.
pub(crate) trait GroupKey: Eq + std::hash::Hash {

}

impl GroupKey for usize {

}

impl GroupKey for NodeId {

}

impl GroupKey for (bool, NodeId) {

}

/// The values that `pairs` give to a key, in order.
pub open spec fn values_of<K, V>(pairs: Seq<(K, V)>, key: K) -> Seq<V>
    decreases pairs.len(),
{
    if pairs.len() == 0 {
        Seq::empty()
    } else {
        let front = values_of(pairs.drop_last(), key);
        if pairs.last().0 == key {
            front.push(pairs.last().1)
        } else {
            front
        }
    }
}

/// Whether `groups` hold each key of `pairs` once, with the values that `pairs` give to it. The
/// order of the groups is left open.
pub open spec fn is_grouping<K, V>(groups: Seq<(K, Seq<V>)>, pairs: Seq<(K, V)>) -> bool {
    &&& forall|i: int, j: int|
        0 <= i < j < groups.len() ==> (#[trigger] groups[i]).0 != (#[trigger] groups[j]).0
    &&& forall|i: int|
        0 <= i < groups.len() ==> (#[trigger] groups[i]).1.len() > 0 && groups[i].1 == values_of(
            pairs,
            groups[i].0,
        )
    &&& forall|p: int| 0 <= p < pairs.len() ==> has_group(groups, (#[trigger] pairs[p]).0)
}

/// Whether there is a group for a key.
pub open spec fn has_group<K, V>(groups: Seq<(K, Seq<V>)>, key: K) -> bool {
    exists|i: int| 0 <= i < groups.len() && (#[trigger] groups[i]).0 == key
}

/// A key that has values occurs in the pairs.
pub proof fn lemma_values_witness<K, V>(pairs: Seq<(K, V)>, key: K)
    requires
        values_of(pairs, key).len() > 0,
    ensures
        exists|p: int| 0 <= p < pairs.len() && (#[trigger] pairs[p]).0 == key,
    decreases pairs.len(),
{
    if pairs.len() > 0 {
        if pairs.last().0 == key {
            assert(pairs[pairs.len() - 1].0 == key);
        } else {
            lemma_values_witness(pairs.drop_last(), key);
            let p = choose|p: int|
                0 <= p < pairs.drop_last().len() && (#[trigger] pairs.drop_last()[p]).0 == key;
            assert(pairs[p].0 == key);
        }
    }
}

/// A key has all the values that pairs give to it.
pub proof fn lemma_values_contain<K, V>(pairs: Seq<(K, V)>, p: int)
    requires
        0 <= p < pairs.len(),
    ensures
        values_of(pairs, pairs[p].0).contains(pairs[p].1),
    decreases pairs.len(),
{
    let (key, value) = pairs[p];
    let all = values_of(pairs, key);
    if p == pairs.len() - 1 {
        assert(all[all.len() - 1] == value);
    } else {
        let front = pairs.drop_last();
        lemma_values_contain(front, p);
        let before = values_of(front, key);
        let i = choose|i: int| 0 <= i < before.len() && before[i] == value;
        assert(all[i] == value);
    }
}

/// Groups with the contents of their vectors.
pub open spec fn group_contents<K, V>(groups: Seq<(K, Vec<V>)>) -> Seq<(K, Seq<V>)> {
    Seq::new(groups.len(), |i: int| (groups[i].0, groups[i].1@))
}

/// Groups the values of pairs by their keys, from `itertools::Itertools::into_group_map`: each
/// key once, with its values in the order of the pairs. The hash map that it returns is walked
/// here, so that the order of the groups is left open.
#[verifier::external_body]
pub(crate) fn group_pairs<K: GroupKey, V>(pairs: Vec<(K, V)>) -> (groups: Vec<(K, Vec<V>)>)
    ensures
        is_grouping(group_contents(groups@), pairs@),
{
    pairs.into_iter().into_group_map().into_iter().collect()
}

/// The items of `items` that do not occur earlier in it, in order.
pub open spec fn first_occurrences<T>(items: Seq<T>) -> Seq<T>
    decreases items.len(),
{
    if items.len() == 0 {
        Seq::empty()
    } else {
        let front = first_occurrences(items.drop_last());
        if items.drop_last().contains(items.last()) {
            front
        } else {
            front.push(items.last())
        }
    }
}

/// Drops the items that occurred before, from `itertools::Itertools::unique`: the first
/// occurrence of each item stays, in order.
#[verifier::external_body]
pub(crate) fn unique(items: Vec<(bool, NodeId)>) -> (kept: Vec<(bool, NodeId)>)
    ensures
        kept@ == first_occurrences(items@),
{
    items.into_iter().unique().collect()
}

/// The items of one rank, in order.
pub open spec fn of_rank<T>(items: Seq<(nat, T)>, rank: nat) -> Seq<(nat, T)>
    decreases items.len(),
{
    if items.len() == 0 {
        Seq::empty()
    } else {
        let front = of_rank(items.drop_last(), rank);
        if items.last().0 == rank {
            front.push(items.last())
        } else {
            front
        }
    }
}

/// Whether the ranks never fall.
pub open spec fn ascending<T>(items: Seq<(nat, T)>) -> bool {
    forall|i: int, j: int|
        0 <= i < j < items.len() ==> (#[trigger] items[i]).0 <= (#[trigger] items[j]).0
}

/// Whether `sorted` holds the items of `items` in ascending rank, with items of one rank in the
/// order that they had.
pub open spec fn is_stable_sort<T>(sorted: Seq<(nat, T)>, items: Seq<(nat, T)>) -> bool {
    &&& ascending(sorted)
    &&& forall|rank: nat| #[trigger] of_rank(sorted, rank) == of_rank(items, rank)
}

/// A plain value that items can be sorted by.
pub(crate) trait Rank: Copy + Ord {
    /// The number that the value stands for.
    spec fn number(&self) -> nat;
}

impl Rank for NodeId {
    open spec fn number(&self) -> nat {
        be_value(self@)
    }
}

impl Rank for u64 {
    open spec fn number(&self) -> nat {
        *self as nat
    }
}

/// Items with the numbers of their ranks.
pub(crate) open spec fn with_ranks<R: Rank, T>(items: Seq<(R, T)>) -> Seq<(nat, T)> {
    Seq::new(items.len(), |i: int| (items[i].0.number(), items[i].1))
}

/// Sorts items by rank, from `itertools::Itertools::sorted_by_key`: a stable sort in the order of
/// the keys. They are numbers, or 32-byte arrays, which compare byte by byte from the front and so
/// in the order of the numbers that they spell.
#[verifier::external_body]
fn sort_by_rank<R: Rank, T>(items: Vec<(R, T)>) -> (sorted: Vec<(R, T)>)
    ensures
        is_stable_sort(with_ranks(sorted@), with_ranks(items@)),
{
    items.into_iter().sorted_by_key(|item| item.0).collect()
}

/// Inserts an item behind the items whose rank is not greater.
pub open spec fn insert_ranked<T>(sorted: Seq<(nat, T)>, item: (nat, T)) -> Seq<(nat, T)>
    decreases sorted.len(),
{
    if sorted.len() == 0 || sorted.last().0 <= item.0 {
        sorted.push(item)
    } else {
        insert_ranked(sorted.drop_last(), item).push(sorted.last())
    }
}

/// Items in ascending rank; items of one rank keep their order.
pub open spec fn ranked<T>(items: Seq<(nat, T)>) -> Seq<(nat, T)>
    decreases items.len(),
{
    if items.len() == 0 {
        Seq::empty()
    } else {
        insert_ranked(ranked(items.drop_last()), items.last())
    }
}

proof fn lemma_of_rank_push<T>(items: Seq<(nat, T)>, item: (nat, T), rank: nat)
    ensures
        of_rank(items.push(item), rank) == (if item.0 == rank {
            of_rank(items, rank).push(item)
        } else {
            of_rank(items, rank)
        }),
{
    assert(items.push(item).drop_last() =~= items);
}

proof fn lemma_insert_ranked<T>(sorted: Seq<(nat, T)>, item: (nat, T))
    requires
        ascending(sorted),
    ensures
        ascending(insert_ranked(sorted, item)),
        insert_ranked(sorted, item).len() == sorted.len() + 1,
        forall|rank: nat| #[trigger]
            of_rank(insert_ranked(sorted, item), rank) == of_rank(sorted.push(item), rank),
        insert_ranked(sorted, item).last().0 == (if sorted.len() > 0 && sorted.last().0 > item.0 {
            sorted.last().0
        } else {
            item.0
        }),
        insert_ranked(sorted, item).to_multiset() == sorted.to_multiset().insert(item),
    decreases sorted.len(),
{
    broadcast use vstd::seq_lib::group_to_multiset_ensures;

    if sorted.len() == 0 || sorted.last().0 <= item.0 {
        assert(forall|i: int| 0 <= i < sorted.len() ==> (#[trigger] sorted[i]).0 <= item.0);
    } else {
        let front = sorted.drop_last();
        let last = sorted.last();
        assert(forall|i: int| 0 <= i < front.len() ==> #[trigger] front[i] == sorted[i]);
        lemma_insert_ranked(front, item);
        let inner = insert_ranked(front, item);
        if front.len() > 0 {
            assert(front.last() == sorted[sorted.len() - 2]);
        }
        assert(inner.last().0 <= last.0);
        assert forall|i: int| 0 <= i < inner.len() implies (#[trigger] inner[i]).0 <= last.0 by {
            assert(inner[i].0 <= inner[inner.len() - 1].0);
        }
        assert forall|rank: nat| #[trigger]
            of_rank(insert_ranked(sorted, item), rank) == of_rank(sorted.push(item), rank) by {
            lemma_of_rank_push(inner, last, rank);
            lemma_of_rank_push(front, item, rank);
            lemma_of_rank_push(sorted, item, rank);
            assert(of_rank(inner, rank) == of_rank(front.push(item), rank));
        }
        assert(sorted =~= front.push(last));
        assert(sorted.to_multiset() =~= front.to_multiset().insert(last));
        assert(inner.push(last).to_multiset() =~= sorted.to_multiset().insert(item));
    }
}

/// `ranked` is a stable sort: it keeps the items and orders them by rank.
pub proof fn lemma_ranked<T>(items: Seq<(nat, T)>)
    ensures
        is_stable_sort(ranked(items), items),
        ranked(items).len() == items.len(),
        ranked(items).to_multiset() == items.to_multiset(),
    decreases items.len(),
{
    broadcast use vstd::seq_lib::group_to_multiset_ensures;

    if items.len() > 0 {
        let front = items.drop_last();
        let last = items.last();
        lemma_ranked(front);
        lemma_insert_ranked(ranked(front), last);
        assert forall|rank: nat| #[trigger]
            of_rank(ranked(items), rank) == of_rank(items, rank) by {
            lemma_of_rank_push(ranked(front), last, rank);
            lemma_of_rank_push(front, last, rank);
            assert(items =~= front.push(last));
            assert(of_rank(ranked(items), rank) == of_rank(ranked(front).push(last), rank));
            assert(of_rank(ranked(front), rank) == of_rank(front, rank));
        }
        assert(items =~= front.push(last));
        assert(ranked(items).to_multiset() =~= items.to_multiset());
    } else {
        assert(ranked(items) =~= items);
    }
}

proof fn lemma_of_rank_witness<T>(items: Seq<(nat, T)>, rank: nat)
    requires
        of_rank(items, rank).len() > 0,
    ensures
        exists|i: int| 0 <= i < items.len() && (#[trigger] items[i]).0 == rank,
    decreases items.len(),
{
    if items.len() > 0 {
        if items.last().0 == rank {
            assert(items[items.len() - 1].0 == rank);
        } else {
            lemma_of_rank_witness(items.drop_last(), rank);
            let i = choose|i: int|
                0 <= i < items.drop_last().len() && (#[trigger] items.drop_last()[i]).0 == rank;
            assert(items[i].0 == rank);
        }
    }
}

proof fn lemma_same_ranks<T>(s: Seq<(nat, T)>, t: Seq<(nat, T)>)
    requires
        ascending(s),
        ascending(t),
        forall|rank: nat| #[trigger] of_rank(s, rank) == of_rank(t, rank),
    ensures
        s == t,
    decreases s.len(),
{
    if s.len() == 0 {
        if t.len() > 0 {
            assert(of_rank(s, t.last().0).len() == 0);
            assert(of_rank(t, t.last().0).len() > 0);
        }
        assert(s =~= t);
    } else {
        let d = s.last().0;
        assert(of_rank(s, d).len() > 0);
        assert(of_rank(t, d).len() > 0);
        lemma_of_rank_witness(t, d);
        let i = choose|i: int| 0 <= i < t.len() && (#[trigger] t[i]).0 == d;
        let e = t.last().0;
        assert(of_rank(t, e).len() > 0);
        assert(of_rank(s, e).len() > 0);
        lemma_of_rank_witness(s, e);
        let j = choose|j: int| 0 <= j < s.len() && (#[trigger] s[j]).0 == e;
        assert(s[j].0 <= s[s.len() - 1].0);
        assert(t[i].0 <= t[t.len() - 1].0);
        assert(d == e);
        assert(of_rank(s, d).last() == s.last());
        assert(of_rank(t, d).last() == t.last());
        let fs = s.drop_last();
        let ft = t.drop_last();
        assert(forall|k: int| 0 <= k < fs.len() ==> #[trigger] fs[k] == s[k]);
        assert(forall|k: int| 0 <= k < ft.len() ==> #[trigger] ft[k] == t[k]);
        assert forall|rank: nat| #[trigger] of_rank(fs, rank) == of_rank(ft, rank) by {
            assert(of_rank(s, rank) == of_rank(t, rank));
            if rank == d {
                assert(of_rank(fs, rank) =~= of_rank(s, rank).drop_last());
                assert(of_rank(ft, rank) =~= of_rank(t, rank).drop_last());
            }
        }
        lemma_same_ranks(fs, ft);
        assert(s =~= fs.push(s.last()));
        assert(t =~= ft.push(t.last()));
    }
}

/// A stable sort of `items` is `ranked(items)`.
pub proof fn lemma_stable_sort_unique<T>(sorted: Seq<(nat, T)>, items: Seq<(nat, T)>)
    requires
        is_stable_sort(sorted, items),
    ensures
        sorted == ranked(items),
{
    lemma_ranked(items);
    lemma_same_ranks(sorted, ranked(items));
}

/// The payloads of ranked items.
pub open spec fn payloads<T>(items: Seq<(nat, T)>) -> Seq<T> {
    Seq::new(items.len(), |i: int| items[i].1)
}

proof fn lemma_insert_ranked_payloads<T>(sorted: Seq<(nat, T)>, item: (nat, T))
    ensures
        payloads(insert_ranked(sorted, item)).to_multiset() == payloads(
            sorted,
        ).to_multiset().insert(item.1),
    decreases sorted.len(),
{
    broadcast use vstd::seq_lib::group_to_multiset_ensures;

    if sorted.len() == 0 || sorted.last().0 <= item.0 {
        assert(payloads(sorted.push(item)) =~= payloads(sorted).push(item.1));
    } else {
        let front = sorted.drop_last();
        let last = sorted.last();
        lemma_insert_ranked_payloads(front, item);
        let inner = insert_ranked(front, item);
        assert(payloads(inner.push(last)) =~= payloads(inner).push(last.1));
        assert(payloads(sorted) =~= payloads(front).push(last.1));
        assert(payloads(insert_ranked(sorted, item)).to_multiset() =~= payloads(
            sorted,
        ).to_multiset().insert(item.1));
    }
}

/// Ranking keeps the payloads.
pub proof fn lemma_ranked_payloads<T>(items: Seq<(nat, T)>)
    ensures
        payloads(ranked(items)).to_multiset() == payloads(items).to_multiset(),
    decreases items.len(),
{
    broadcast use vstd::seq_lib::group_to_multiset_ensures;

    if items.len() > 0 {
        lemma_ranked_payloads(items.drop_last());
        lemma_insert_ranked_payloads(ranked(items.drop_last()), items.last());
        assert(payloads(items) =~= payloads(items.drop_last()).push(items.last().1));
        assert(payloads(ranked(items)).to_multiset() =~= payloads(items).to_multiset());
    } else {
        assert(payloads(ranked(items)) =~= payloads(items));
    }
}

/// Orders the payloads of items by ascending rank.
pub(crate) fn rank_order<R: Rank, T: Copy>(items: Vec<(R, T)>) -> (ordered: Vec<T>)
    ensures
        ordered@ == payloads(ranked(with_ranks(items@))),
{
    let ghost before = with_ranks(items@);
    let sorted: Vec<(R, T)> = sort_by_rank(items);
    proof {
        lemma_stable_sort_unique(with_ranks(sorted@), before);
    }
    let mut ordered: Vec<T> = Vec::new();
    let mut i: usize = 0;
    while i < sorted.len()
        invariant
            i <= sorted@.len(),
            ordered@.len() == i,
            forall|j: int| 0 <= j < i ==> ordered@[j] == sorted@[j].1,
        decreases sorted@.len() - i,
    {
        ordered.push(sorted[i].1);
        i = i + 1;
    }
    assert(ordered@ =~= payloads(with_ranks(sorted@)));
    ordered
}

/// The values of a key are those of the pairs with the key, each of them, in the order of the pairs.
pub proof fn lemma_values_are_exact<K, V>(pairs: Seq<(K, V)>, key: K)
    ensures
        values_of(pairs, key) == pairs.filter(|pair: (K, V)| pair.0 == key).map_values(
            |pair: (K, V)| pair.1,
        ),
    decreases pairs.len(),
{
    reveal(Seq::filter);
    if pairs.len() > 0 {
        lemma_values_are_exact(pairs.drop_last(), key);
    }
    assert(values_of(pairs, key) =~= pairs.filter(|pair: (K, V)| pair.0 == key).map_values(
        |pair: (K, V)| pair.1,
    ));
}

/// A key has a value exactly if some pair gives it to the key.
pub proof fn lemma_value_of_pair<K, V>(pairs: Seq<(K, V)>, key: K, value: V)
    ensures
        values_of(pairs, key).contains(value) <==> pairs.contains((key, value)),
    decreases pairs.len(),
{
    let all = values_of(pairs, key);
    if pairs.len() > 0 {
        let rest = pairs.drop_last();
        let front = values_of(rest, key);
        lemma_value_of_pair(rest, key, value);
        if all.contains(value) {
            let i = choose|i: int| 0 <= i < all.len() && all[i] == value;
            if i < front.len() {
                assert(front[i] == value);
                let p = choose|p: int| 0 <= p < rest.len() && rest[p] == (key, value);
                assert(pairs[p] == (key, value));
            } else {
                assert(pairs[pairs.len() - 1] == (key, value));
            }
        }
        if pairs.contains((key, value)) {
            let p = choose|p: int| 0 <= p < pairs.len() && pairs[p] == (key, value);
            if p < rest.len() {
                assert(rest[p] == (key, value));
                let i = choose|i: int| 0 <= i < front.len() && front[i] == value;
                assert(all[i] == value);
            } else {
                assert(all[all.len() - 1] == value);
            }
        }
    }
}

/// Groups hold all that the pairs say: there is a group for a key exactly if some pair has the key,
/// and it has as many values as there are such pairs.
pub proof fn lemma_groups_are_exact<K, V>(groups: Seq<(K, Seq<V>)>, pairs: Seq<(K, V)>, key: K)
    requires
        is_grouping(groups, pairs),
    ensures
        (exists|g: int| 0 <= g < groups.len() && (#[trigger] groups[g]).0 == key) <==> (exists|
            p: int,
        |
            0 <= p < pairs.len() && (#[trigger] pairs[p]).0 == key),
        forall|g: int, h: int|
            0 <= g < groups.len() && 0 <= h < groups.len() && (#[trigger] groups[g]).0 == (
            #[trigger] groups[h]).0 ==> g == h,
        forall|g: int|
            0 <= g < groups.len() ==> (#[trigger] groups[g]).1 == pairs.filter(
                |pair: (K, V)| pair.0 == groups[g].0,
            ).map_values(|pair: (K, V)| pair.1),
{
    assert forall|g: int| 0 <= g < groups.len() implies (#[trigger] groups[g]).1 == pairs.filter(
        |pair: (K, V)| pair.0 == groups[g].0,
    ).map_values(|pair: (K, V)| pair.1) by {
        lemma_values_by(pairs, groups[g].0, |pair: (K, V)| pair.0 == groups[g].0);
        assert(values_of(pairs, groups[g].0) =~= pairs.filter(
            |pair: (K, V)| pair.0 == groups[g].0,
        ).map_values(|pair: (K, V)| pair.1));
    }
    if exists|g: int| 0 <= g < groups.len() && (#[trigger] groups[g]).0 == key {
        lemma_values_witness(pairs, key);
    }
    if exists|p: int| 0 <= p < pairs.len() && (#[trigger] pairs[p]).0 == key {
        let p = choose|p: int| 0 <= p < pairs.len() && (#[trigger] pairs[p]).0 == key;
        assert(has_group(groups, pairs[p].0));
    }
}

/// The values under a key are those of the pairs that a test tells to have it, in order.
pub proof fn lemma_values_by<K, V>(pairs: Seq<(K, V)>, key: K, has_key: spec_fn((K, V)) -> bool)
    requires
        forall|pair: (K, V)| #[trigger] has_key(pair) <==> pair.0 == key,
    ensures
        values_of(pairs, key) == pairs.filter(has_key).map_values(|pair: (K, V)| pair.1),
    decreases pairs.len(),
{
    reveal(Seq::filter);
    if pairs.len() > 0 {
        lemma_values_by(pairs.drop_last(), key, has_key);
    }
    assert(values_of(pairs, key) =~= pairs.filter(has_key).map_values(|pair: (K, V)| pair.1));
}

/// What stays when repeated items are dropped: each item once, and of two items the one that comes
/// first stays first.
pub proof fn lemma_first_occurrences_are_exact<T>(items: Seq<T>)
    ensures
        first_occurrences(items).no_duplicates(),
        forall|item: T| #[trigger]
            first_occurrences(items).contains(item) <==> items.contains(item),
        first_occurrences(items).len() == items.to_set().len(),
        forall|i: int, j: int|
            0 <= i < j < first_occurrences(items).len() ==> comes_first(
                items,
                #[trigger] first_occurrences(items)[i],
                #[trigger] first_occurrences(items)[j],
            ),
        items.len() > 0 ==> first_occurrences(items).len() > 0,
    decreases items.len(),
{
    let kept = first_occurrences(items);
    if items.len() > 0 {
        let rest = items.drop_last();
        let front = first_occurrences(rest);
        lemma_first_occurrences_are_exact(rest);
        assert forall|item: T| #[trigger] kept.contains(item) <==> items.contains(item) by {
            if items.contains(item) {
                let i = choose|i: int| 0 <= i < items.len() && items[i] == item;
                if i < rest.len() {
                    assert(rest[i] == item);
                }
                if rest.contains(item) {
                    assert(front.contains(item));
                    let j = choose|j: int| 0 <= j < front.len() && front[j] == item;
                    assert(kept[j] == item);
                } else {
                    assert(kept[kept.len() - 1] == item);
                }
            }
            if kept.contains(item) {
                let j = choose|j: int| 0 <= j < kept.len() && kept[j] == item;
                if j < front.len() {
                    assert(front[j] == item);
                    assert(front.contains(item));
                    let i = choose|i: int| 0 <= i < rest.len() && rest[i] == item;
                    assert(items[i] == item);
                } else {
                    assert(items[items.len() - 1] == item);
                }
            }
        }
        assert forall|i: int, j: int|
            0 <= i < kept.len() && 0 <= j < kept.len() && i != j implies kept[i] != kept[j] by {
            if i < front.len() && j < front.len() {
                assert(front[i] != front[j]);
            } else if i < front.len() {
                assert(front.contains(front[i]));
            } else if j < front.len() {
                assert(front.contains(front[j]));
            }
        }
        assert forall|i: int, j: int| 0 <= i < j < kept.len() implies comes_first(
            items,
            #[trigger] kept[i],
            #[trigger] kept[j],
        ) by {
            assert(kept[i] == front[i]);
            if j < front.len() {
                assert(kept[j] == front[j]);
                let p = choose|p: int|
                    0 <= p < rest.len() && (#[trigger] rest[p]) == front[i] && !rest.take(
                        p,
                    ).contains(front[j]);
                assert(items.take(p) =~= rest.take(p));
                assert(items[p] == kept[i]);
            } else {
                assert(front.contains(front[i]));
                let p = choose|p: int| 0 <= p < rest.len() && rest[p] == front[i];
                if items.take(p).contains(kept[j]) {
                    let q = choose|q: int| 0 <= q < p && items.take(p)[q] == kept[j];
                    assert(rest[q] == kept[j]);
                }
                assert(items[p] == kept[i]);
            }
        }
        assert(items[items.len() - 1] == items.last());
        assert(kept.contains(items.last()));
    }
    assert(kept.to_set() =~= items.to_set());
    kept.unique_seq_to_set();
}

/// Whether an item occurs before any occurrence of another one.
pub open spec fn comes_first<T>(items: Seq<T>, item: T, other: T) -> bool {
    exists|p: int|
        0 <= p < items.len() && (#[trigger] items[p]) == item && !items.take(p).contains(other)
}

/// Whether two items occur in this order.
pub open spec fn in_order<T>(items: Seq<T>, first: T, second: T) -> bool {
    exists|i: int, j: int|
        0 <= i < j < items.len() && (#[trigger] items[i]) == first && (#[trigger] items[j])
            == second
}

proof fn lemma_of_rank_order<T>(items: Seq<(nat, T)>, first: (nat, T), second: (nat, T))
    requires
        first.0 == second.0,
    ensures
        in_order(items, first, second) <==> in_order(of_rank(items, first.0), first, second),
        of_rank(items, first.0).contains(first) <==> items.contains(first),
    decreases items.len(),
{
    let rank = first.0;
    let listed = of_rank(items, rank);
    if items.len() > 0 {
        let rest = items.drop_last();
        let front = of_rank(rest, rank);
        lemma_of_rank_order(rest, first, second);
        if items.contains(first) {
            let i = choose|i: int| 0 <= i < items.len() && items[i] == first;
            if i < rest.len() {
                assert(rest[i] == first);
                let a = choose|a: int| 0 <= a < front.len() && front[a] == first;
                assert(listed[a] == first);
            } else {
                assert(listed[listed.len() - 1] == first);
            }
        }
        if listed.contains(first) {
            let a = choose|a: int| 0 <= a < listed.len() && listed[a] == first;
            if a < front.len() {
                assert(front[a] == first);
                let i = choose|i: int| 0 <= i < rest.len() && rest[i] == first;
                assert(items[i] == first);
            } else {
                assert(items[items.len() - 1] == first);
            }
        }
        if in_order(items, first, second) {
            let (i, j) = choose|i: int, j: int|
                0 <= i < j < items.len() && (#[trigger] items[i]) == first && (
                #[trigger] items[j]) == second;
            if j < rest.len() {
                assert(rest[i] == first && rest[j] == second);
                let (a, b) = choose|a: int, b: int|
                    0 <= a < b < front.len() && (#[trigger] front[a]) == first && (
                    #[trigger] front[b]) == second;
                assert(listed[a] == first && listed[b] == second);
            } else {
                assert(rest[i] == first);
                let a = choose|a: int| 0 <= a < front.len() && front[a] == first;
                assert(listed[a] == first && listed[listed.len() - 1] == second);
            }
        }
        if in_order(listed, first, second) {
            let (a, b) = choose|a: int, b: int|
                0 <= a < b < listed.len() && (#[trigger] listed[a]) == first && (
                #[trigger] listed[b]) == second;
            if b < front.len() {
                assert(front[a] == first && front[b] == second);
                let (i, j) = choose|i: int, j: int|
                    0 <= i < j < rest.len() && (#[trigger] rest[i]) == first && (
                    #[trigger] rest[j]) == second;
                assert(items[i] == first && items[j] == second);
            } else {
                assert(front[a] == first);
                let i = choose|i: int| 0 <= i < rest.len() && rest[i] == first;
                assert(items[i] == first && items[items.len() - 1] == second);
            }
        }
    }
}

/// Items of one rank stay in the order that they had.
pub proof fn lemma_ranked_is_stable<T>(items: Seq<(nat, T)>, i: int, j: int)
    requires
        0 <= i < j < items.len(),
        ranked(items)[i].0 == ranked(items)[j].0,
    ensures
        in_order(items, ranked(items)[i], ranked(items)[j]),
{
    lemma_ranked(items);
    let sorted = ranked(items);
    assert(in_order(sorted, sorted[i], sorted[j]));
    lemma_of_rank_order(sorted, sorted[i], sorted[j]);
    lemma_of_rank_order(items, sorted[i], sorted[j]);
    assert(of_rank(sorted, sorted[i].0) == of_rank(items, sorted[i].0));
}

} // verus!
