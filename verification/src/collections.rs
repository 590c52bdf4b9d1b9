//! Maps keyed by identifiers.

use vstd::prelude::*;
use crate::ids::{same_id, NodeId};

verus! {

/// A value that a [`KeyedMap`] can be keyed by.
pub trait MapKey: Sized {
    /// What the key stands for.
    type Model;

    /// The mathematical value of the key.
    spec fn model(&self) -> Self::Model;

    /// Whether two keys stand for the same thing.
    fn same(&self, other: &Self) -> (same: bool)
        ensures
            same == (self.model() == other.model()),
    ;
}

impl MapKey for u16 {
    type Model = u16;

    open spec fn model(&self) -> u16 {
        *self
    }

    fn same(&self, other: &Self) -> (same: bool) {
        *self == *other
    }
}

impl MapKey for NodeId {
    type Model = NodeId;

    open spec fn model(&self) -> NodeId {
        *self
    }

    fn same(&self, other: &Self) -> (same: bool) {
        same_id(self, other)
    }
}

impl MapKey for Vec<u8> {
    type Model = Seq<u8>;

    open spec fn model(&self) -> Seq<u8> {
        self@
    }

    fn same(&self, other: &Self) -> (same: bool) {
        if self.len() != other.len() {
            return false;
        }
        let mut i: usize = 0;
        while i < self.len()
            invariant
                i <= self.len(),
                self.len() == other.len(),
                forall|j: int| 0 <= j < i ==> self@[j] == other@[j],
            decreases self.len() - i,
        {
            if self[i] != other[i] {
                return false;
            }
            i = i + 1;
        }
        assert(self@ =~= other@);
        true
    }
}

/// The map that a list of entries with different keys stands for.
pub open spec fn map_of<K: MapKey, V>(entries: Seq<(K, V)>) -> Map<K::Model, V>
    decreases entries.len(),
{
    if entries.len() == 0 {
        Map::empty()
    } else {
        map_of(entries.drop_last()).insert(entries.last().0.model(), entries.last().1)
    }
}

/// Whether no two entries have the same key.
pub open spec fn distinct_keys<K: MapKey, V>(entries: Seq<(K, V)>) -> bool {
    forall|i: int, j: int|
        0 <= i < j < entries.len() ==> (#[trigger] entries[i]).0.model() != (
        #[trigger] entries[j]).0.model()
}

proof fn lemma_map_of<K: MapKey, V>(entries: Seq<(K, V)>)
    requires
        distinct_keys(entries),
    ensures
        map_of(entries).dom().finite(),
        map_of(entries).dom().len() == entries.len(),
        forall|i: int|
            0 <= i < entries.len() ==> map_of(entries).dom().contains(
                (#[trigger] entries[i]).0.model(),
            ) && map_of(entries)[entries[i].0.model()] == entries[i].1,
        forall|k: K::Model|
            #[trigger] map_of(entries).dom().contains(k) ==> exists|i: int|
                0 <= i < entries.len() && (#[trigger] entries[i]).0.model() == k,
    decreases entries.len(),
{
    if entries.len() > 0 {
        let front = entries.drop_last();
        let last = entries.last();
        assert(forall|i: int| 0 <= i < front.len() ==> #[trigger] front[i] == entries[i]);
        lemma_map_of(front);
        assert(!map_of(front).dom().contains(last.0.model())) by {
            if map_of(front).dom().contains(last.0.model()) {
                let i = choose|i: int|
                    0 <= i < front.len() && (#[trigger] front[i]).0.model() == last.0.model();
                assert(entries[i].0.model() == entries[entries.len() - 1].0.model());
            }
        }
        assert forall|i: int| 0 <= i < entries.len() implies map_of(entries).dom().contains(
            (#[trigger] entries[i]).0.model(),
        ) && map_of(entries)[entries[i].0.model()] == entries[i].1 by {
            if i < front.len() {
                assert(front[i] == entries[i]);
                assert(entries[i].0.model() != entries[entries.len() - 1].0.model());
            }
        }
        assert forall|k: K::Model| #[trigger] map_of(entries).dom().contains(k) implies exists|
            i: int,
        | 0 <= i < entries.len() && (#[trigger] entries[i]).0.model() == k by {
            if k == last.0.model() {
                assert(entries[entries.len() - 1].0.model() == k);
            } else {
                assert(map_of(front).dom().contains(k));
                let i = choose|i: int| 0 <= i < front.len() && (#[trigger] front[i]).0.model() == k;
                assert(entries[i].0.model() == k);
            }
        }
    }
}

/// A map from identifiers to values.
pub struct KeyedMap<K, V> {
    entries: Vec<(K, V)>,
}

impl<K: MapKey, V> View for KeyedMap<K, V> {
    type V = Map<K::Model, V>;

    closed spec fn view(&self) -> Map<K::Model, V> {
        map_of(self.entries@)
    }
}

impl<K: MapKey, V> KeyedMap<K, V> {
    /// No key occurs twice.
    pub closed spec fn wf(&self) -> bool {
        distinct_keys(self.entries@)
    }

    /// The entries, in the order in which they are kept.
    pub closed spec fn listed(&self) -> Seq<(K, V)> {
        self.entries@
    }

    /// An empty map.
    pub fn new() -> (map: Self)
        ensures
            map.wf(),
            map@ == Map::<K::Model, V>::empty(),
    {
        KeyedMap { entries: Vec::new() }
    }

    /// The keys of a well-formed map are finitely many, and the listed entries are exactly its
    /// keys with their values.
    pub proof fn lemma_listed(&self)
        requires
            self.wf(),
        ensures
            self@.dom().finite(),
            self@.dom().len() == self.listed().len(),
            distinct_keys(self.listed()),
            forall|i: int|
                0 <= i < self.listed().len() ==> self@.dom().contains(
                    (#[trigger] self.listed()[i]).0.model(),
                ) && self@[self.listed()[i].0.model()] == self.listed()[i].1,
            forall|k: K::Model|
                #[trigger] self@.dom().contains(k) ==> exists|i: int|
                    0 <= i < self.listed().len() && (#[trigger] self.listed()[i]).0.model() == k,
    {
        lemma_map_of(self.entries@);
    }

    fn position(&self, key: &K) -> (found: Option<usize>)
        requires
            self.wf(),
        ensures
            found is Some <==> self@.dom().contains(key.model()),
            found matches Some(i) ==> i < self.entries@.len() && self.entries@[i as int].0.model()
                == key.model() && self.entries@[i as int].1 == self@[key.model()],
    {
        proof {
            lemma_map_of(self.entries@);
        }
        let mut i: usize = 0;
        while i < self.entries.len()
            invariant
                i <= self.entries@.len(),
                distinct_keys(self.entries@),
                forall|j: int|
                    0 <= j < i ==> (#[trigger] self.entries@[j]).0.model() != key.model(),
            decreases self.entries@.len() - i,
        {
            if self.entries[i].0.same(key) {
                proof {
                    lemma_map_of(self.entries@);
                }
                return Some(i);
            }
            i = i + 1;
        }
        None
    }

    /// The value under a key.
    pub fn get(&self, key: &K) -> (value: Option<&V>)
        requires
            self.wf(),
        ensures
            value is Some <==> self@.dom().contains(key.model()),
            value matches Some(v) ==> *v == self@[key.model()],
    {
        match self.position(key) {
            Some(i) => Some(&self.entries[i].1),
            None => None,
        }
    }

    /// Whether there is a value under a key.
    pub fn contains(&self, key: &K) -> (found: bool)
        requires
            self.wf(),
        ensures
            found == self@.dom().contains(key.model()),
    {
        self.position(key).is_some()
    }

    /// The number of keys.
    pub fn len(&self) -> (count: usize)
        requires
            self.wf(),
        ensures
            count == self@.dom().len(),
            self@.dom().finite(),
            count == self.listed().len(),
    {
        proof {
            lemma_map_of(self.entries@);
        }
        self.entries.len()
    }

    /// The listed entry at an index.
    pub fn entry(&self, index: usize) -> (entry: &(K, V))
        requires
            index < self.listed().len(),
        ensures
            *entry == self.listed()[index as int],
    {
        &self.entries[index]
    }

    /// Takes the value out from under a key.
    pub fn remove(&mut self, key: &K) -> (value: Option<V>)
        requires
            old(self).wf(),
        ensures
            final(self).wf(),
            final(self)@ == old(self)@.remove(key.model()),
            value is Some <==> old(self)@.dom().contains(key.model()),
            value matches Some(v) ==> v == old(self)@[key.model()],
    {
        let ghost before = self.entries@;
        match self.position(key) {
            Some(i) => {
                let (_, value) = self.entries.remove(i);
                proof {
                    let after = self.entries@;
                    assert(after =~= before.remove(i as int));
                    assert forall|p: int, q: int| 0 <= p < q < after.len() implies (
                    #[trigger] after[p]).0.model() != (#[trigger] after[q]).0.model() by {
                        let p0 = if p < i { p } else { p + 1 };
                        let q0 = if q < i { q } else { q + 1 };
                        assert(after[p] == before[p0]);
                        assert(after[q] == before[q0]);
                    }
                    lemma_map_of(before);
                    lemma_map_of(after);
                    assert forall|k: K::Model|
                        map_of(after).dom().contains(k) == map_of(before).remove(
                            key.model(),
                        ).dom().contains(k) by {
                        if map_of(after).dom().contains(k) {
                            let p = choose|p: int|
                                0 <= p < after.len() && (#[trigger] after[p]).0.model() == k;
                            let p0 = if p < i { p } else { p + 1 };
                            assert(after[p] == before[p0]);
                            assert(before[i as int].0.model() == key.model());
                        }
                        if map_of(before).dom().contains(k) && k != key.model() {
                            let p0 = choose|p: int|
                                0 <= p < before.len() && (#[trigger] before[p]).0.model() == k;
                            let p = if p0 < i { p0 } else { p0 - 1 };
                            assert(after[p] == before[p0]);
                        }
                    }
                    assert forall|k: K::Model| map_of(after).dom().contains(k) implies map_of(
                        after,
                    )[k] == map_of(before)[k] by {
                        let p = choose|p: int|
                            0 <= p < after.len() && (#[trigger] after[p]).0.model() == k;
                        let p0 = if p < i { p } else { p + 1 };
                        assert(after[p] == before[p0]);
                    }
                    assert(map_of(after) =~= map_of(before).remove(key.model()));
                }
                Some(value)
            },
            None => {
                assert(self@ =~= self@.remove(key.model()));
                None
            },
        }
    }

    /// Puts a value under a key, in place of the one that was there.
    pub fn insert(&mut self, key: K, value: V)
        requires
            old(self).wf(),
        ensures
            final(self).wf(),
            final(self)@ == old(self)@.insert(key.model(), value),
    {
        let _ = self.remove(&key);
        let ghost middle = self.entries@;
        proof {
            lemma_map_of(middle);
        }
        self.entries.push((key, value));
        proof {
            let after = self.entries@;
            assert(after.drop_last() =~= middle);
            assert forall|p: int, q: int| 0 <= p < q < after.len() implies (
            #[trigger] after[p]).0.model() != (#[trigger] after[q]).0.model() by {
                assert(after[p] == middle[p]);
                assert(map_of(middle).dom().contains(middle[p].0.model()));
                if q < middle.len() {
                    assert(after[q] == middle[q]);
                }
            }
            assert(self@ =~= old(self)@.insert(key.model(), value));
        }
    }
}

} // verus!
