//! Dissemination with iterative routing: the originator asks for closer nodes until there are none,
//! and hands the samples to the closest ones itself.

use vstd::prelude::*;
use std::collections::VecDeque;
use crate::allocation::{
    cap_of, choose_targets, lemma_without_none, replication, replication_cap, targets,
    RoutingTable,
};
use crate::args::{BatchingStrategy, DisseminationArgs, ReplicatePolicy};
use crate::closer::{
    are_next_groups, lemma_offers_are_exact, next_for, offer, offers, regroup, tagged,
    tagged_groups, RemoteNodeId,
};
use crate::collections::{KeyedMap, MapKey};
use crate::grouping::{
    group_contents, group_pairs, has_group, is_grouping, lemma_values_contain, values_of,
};
use crate::ids::{bucket_index, bucket_of, lemma_bucket_index_bound, lists_id, same_id, NodeId};
use crate::messages::{
    dissemination_protocol, dissemination_protocol_id, sample_contents, DisseminationMsg, Message,
};
use crate::node::{counted_all, has_room, payloads_for, with_payload, DASNode};

verus! {

/// A request on its way to a node.
#[derive(Debug)]
pub struct Outbound {
    pub to: NodeId,
    pub protocol: Vec<u8>,
    pub request_id: u16,
    pub batch_id: u16,
    pub message: DisseminationMsg,
}

/// A request on its way to a node, in the model.
pub ghost struct Departing {
    pub to: NodeId,
    pub protocol: Seq<u8>,
    pub request_id: u16,
    pub batch_id: u16,
    pub message: Message,
}

impl View for Outbound {
    type V = Departing;

    open spec fn view(&self) -> Departing {
        Departing {
            to: self.to,
            protocol: self.protocol@,
            request_id: self.request_id,
            batch_id: self.batch_id,
            message: self.message@,
        }
    }
}

/// Requests in the model.
pub open spec fn departing(requests: Seq<Outbound>) -> Seq<Departing> {
    Seq::new(requests.len(), |i: int| requests[i]@)
}

/// Sets by key, with one more item under a key.
pub open spec fn with_item<K, T>(sets: Map<K, Set<T>>, key: K, item: T) -> Map<K, Set<T>> {
    sets.insert(key, set_under(sets, key).insert(item))
}

/// The set under a key, empty where there is none.
pub open spec fn set_under<K, T>(sets: Map<K, Set<T>>, key: K) -> Set<T> {
    if sets.dom().contains(key) {
        sets[key]
    } else {
        Set::empty()
    }
}

/// The list under a key, empty where there is none.
pub open spec fn list_under<K, T>(lists: Map<K, Seq<T>>, key: K) -> Seq<T> {
    if lists.dom().contains(key) {
        lists[key]
    } else {
        Seq::empty()
    }
}

/// Those of `keys` that are not in `seen`, each once, in their order.
pub open spec fn unseen(keys: Seq<NodeId>, seen: Set<NodeId>) -> Seq<NodeId>
    decreases keys.len(),
{
    if keys.len() == 0 {
        Seq::empty()
    } else {
        let front = unseen(keys.drop_last(), seen);
        if seen.contains(keys.last()) || front.contains(keys.last()) {
            front
        } else {
            front.push(keys.last())
        }
    }
}

/// How far a dissemination has come.
#[verifier::ext_equal]
pub ghost struct Progress {
    /// The requests that wait for an answer.
    pub pending: Set<u16>,
    /// The keys of each batch.
    pub keys_per_batch: Map<u16, Seq<NodeId>>,
    /// The requests of each batch that were not answered yet.
    pub requests_per_batch: Map<u16, Set<u16>>,
    /// The nodes that owe an answer, each with the request.
    pub requests_per_node: Map<NodeId, u16>,
    /// What the answers so far offer for the keys of each batch.
    pub responses_per_batch: Map<u16, Seq<(NodeId, (bool, NodeId))>>,
    /// The requests that wait for their turn.
    pub outbound: Seq<Departing>,
    /// The keys whose samples were addressed to each node.
    pub addressed: Map<NodeId, Set<NodeId>>,
}

impl Progress {
    /// Before anything was sent.
    pub open spec fn start() -> Progress {
        Progress {
            pending: Set::empty(),
            keys_per_batch: Map::empty(),
            requests_per_batch: Map::empty(),
            requests_per_node: Map::empty(),
            responses_per_batch: Map::empty(),
            outbound: Seq::empty(),
            addressed: Map::empty(),
        }
    }

    /// After the first request of a batch to a node was sent.
    pub open spec fn opened(self, batch_id: u16, request_id: u16, to: NodeId) -> Progress {
        Progress {
            pending: self.pending.insert(request_id),
            requests_per_node: self.requests_per_node.insert(to, request_id),
            requests_per_batch: with_item(self.requests_per_batch, batch_id, request_id),
            ..self
        }
    }

    /// After a request was answered by a node for good.
    pub open spec fn settled(self, request_id: u16, from: NodeId) -> Progress {
        Progress {
            pending: self.pending.remove(request_id),
            requests_per_node: self.requests_per_node.remove(from),
            ..self
        }
    }

    /// After a request was given up.
    pub open spec fn without_request(self, request_id: u16) -> Progress {
        Progress { pending: self.pending.remove(request_id), ..self }
    }

    /// After the answer to a request of a batch was noted.
    pub open spec fn noted(
        self,
        request_id: u16,
        batch_id: u16,
        from: NodeId,
        closer: Seq<NodeId>,
    ) -> Progress {
        Progress {
            requests_per_batch: self.requests_per_batch.insert(
                batch_id,
                self.requests_per_batch[batch_id].remove(request_id),
            ),
            responses_per_batch: self.responses_per_batch.insert(
                batch_id,
                self.offers_with(batch_id, from, closer),
            ),
            ..self
        }
    }

    /// What all answers offer for the keys of a batch, with one more answer.
    pub open spec fn offers_with(
        self,
        batch_id: u16,
        from: NodeId,
        closer: Seq<NodeId>,
    ) -> Seq<(NodeId, (bool, NodeId))> {
        list_under(self.responses_per_batch, batch_id) + offers(
            closer,
            from,
            self.keys_per_batch[batch_id],
        )
    }

    /// After all answers to a batch were taken up.
    pub open spec fn closed(self, batch_id: u16) -> Progress {
        Progress { responses_per_batch: self.responses_per_batch.remove(batch_id), ..self }
    }

    /// Those of `keys` whose samples were not addressed to a node before.
    pub open spec fn fresh(self, node: NodeId, keys: Seq<NodeId>) -> Seq<NodeId> {
        if self.addressed.dom().contains(node) {
            unseen(keys, self.addressed[node])
        } else {
            keys
        }
    }

    /// After `keys` were lined up for a node, under the identifiers of a request and of a batch.
    /// Nothing is lined up for the originator itself, nor samples that the node was sent before.
    pub open spec fn lined_up(
        self,
        local: NodeId,
        next: (bool, NodeId),
        keys: Seq<NodeId>,
        ids: (u16, u16),
    ) -> Progress {
        let known = Progress { keys_per_batch: self.keys_per_batch.insert(ids.1, keys), ..self };
        if next.0 {
            let fresh = self.fresh(next.1, keys);
            let marked = Progress {
                addressed: self.addressed.insert(
                    next.1,
                    set_under(self.addressed, next.1).union(keys.to_set()),
                ),
                ..known
            };
            if fresh.len() == 0 || next.1 == local {
                marked
            } else {
                Progress {
                    outbound: self.outbound.push(
                        Departing {
                            to: next.1,
                            protocol: dissemination_protocol(),
                            request_id: ids.0,
                            batch_id: ids.1,
                            message: Message::Samples(with_payload(fresh)),
                        },
                    ),
                    ..marked
                }
            }
        } else if keys.len() == 0 || next.1 == local {
            known
        } else {
            Progress {
                requests_per_batch: with_item(self.requests_per_batch, ids.1, ids.0),
                outbound: self.outbound.push(
                    Departing {
                        to: next.1,
                        protocol: dissemination_protocol(),
                        request_id: ids.0,
                        batch_id: ids.1,
                        message: Message::Keys(ids.0, keys),
                    },
                ),
                ..known
            }
        }
    }

    /// After the keys of several groups were lined up, one group after the other.
    pub open spec fn lined_up_all(
        self,
        local: NodeId,
        groups: Seq<((bool, NodeId), Seq<NodeId>)>,
        ids: Seq<(u16, u16)>,
    ) -> Progress
        decreases groups.len(),
    {
        if groups.len() == 0 {
            self
        } else {
            let last = groups.len() - 1;
            self.lined_up_all(local, groups.drop_last(), ids).lined_up(
                local,
                groups[last].0,
                groups[last].1,
                ids[last],
            )
        }
    }

    /// Whether the request at the head of the line can leave: fewer requests wait for an answer
    /// than may, and none to its node.
    pub open spec fn can_send(self, parallelism: nat) -> bool {
        &&& self.pending.len() < parallelism
        &&& self.outbound.len() > 0
        &&& !self.requests_per_node.dom().contains(self.outbound[0].to)
    }

    /// After the next turn: the request at the head of the line leaves if it can, and goes to the
    /// end of the line if only its node is busy.
    pub open spec fn advanced(self, parallelism: nat) -> Progress {
        if self.can_send(parallelism) {
            Progress {
                pending: self.pending.insert(self.outbound[0].request_id),
                requests_per_node: self.requests_per_node.insert(
                    self.outbound[0].to,
                    self.outbound[0].request_id,
                ),
                outbound: self.outbound.drop_first(),
                ..self
            }
        } else if self.pending.len() < parallelism && self.outbound.len() > 0 {
            Progress { outbound: self.outbound.drop_first().push(self.outbound[0]), ..self }
        } else {
            self
        }
    }

    /// Whether an answer to a request is awaited from a node.
    pub open spec fn awaits(self, request_id: u16, from: NodeId) -> bool {
        self.pending.contains(request_id) && self.requests_per_node.dom().contains(from)
    }

    /// Whether an answer with closer nodes makes sense: it is one to a request of a known batch,
    /// and if the request is still open, the answer is awaited and neither it nor the keys of the
    /// batch name the node that it came from.
    pub open spec fn accepts(
        self,
        request_id: u16,
        batch_id: u16,
        from: NodeId,
        closer: Seq<NodeId>,
    ) -> bool {
        &&& self.requests_per_batch.dom().contains(batch_id)
        &&& self.requests_per_batch[batch_id].contains(request_id) ==> {
            &&& self.awaits(request_id, from)
            &&& self.keys_per_batch.dom().contains(batch_id)
            &&& !closer.contains(from)
            &&& !self.keys_per_batch[batch_id].contains(from)
        }
    }

    /// Whether nothing is left to be sent or answered.
    pub open spec fn is_done(self) -> bool {
        self.pending.len() == 0 && self.outbound.len() == 0
    }
}

/// Sets by key, in the model.
pub open spec fn sets_of<K, T: MapKey>(sets: Map<K, KeyedMap<T, ()>>) -> Map<K, Set<T::Model>> {
    sets.map_values(|set: KeyedMap<T, ()>| set@.dom())
}

/// Lists by key, in the model.
pub open spec fn lists_of<K, T>(lists: Map<K, Vec<T>>) -> Map<K, Seq<T>> {
    lists.map_values(|list: Vec<T>| list@)
}

/// Responses by key, in the model.
pub open spec fn responses_of<K>(lists: Map<K, Vec<(NodeId, RemoteNodeId)>>) -> Map<
    K,
    Seq<(NodeId, (bool, NodeId))>,
> {
    lists.map_values(|list: Vec<(NodeId, RemoteNodeId)>| tagged(list@))
}

/// Whether all sets of a map are well-formed.
pub open spec fn sets_wf<K: MapKey, T: MapKey>(sets: KeyedMap<K, KeyedMap<T, ()>>) -> bool {
    &&& sets.wf()
    &&& forall|k: K::Model| #[trigger] sets@.dom().contains(k) ==> sets@[k].wf()
}

fn copy_ids(ids: &Vec<NodeId>) -> (copy: Vec<NodeId>)
    ensures
        copy@ == ids@,
{
    let mut copy: Vec<NodeId> = Vec::new();
    let mut i: usize = 0;
    while i < ids.len()
        invariant
            i <= ids@.len(),
            copy@ =~= ids@.take(i as int),
        decreases ids@.len() - i,
    {
        copy.push(ids[i]);
        i = i + 1;
    }
    assert(ids@.take(i as int) =~= ids@);
    copy
}

fn add_item(sets: &mut KeyedMap<u16, KeyedMap<u16, ()>>, key: u16, item: u16)
    requires
        sets_wf(*old(sets)),
    ensures
        sets_wf(*final(sets)),
        sets_of(final(sets)@) == with_item(sets_of(old(sets)@), key, item),
{
    let ghost before = sets@;
    let mut set: KeyedMap<u16, ()> = match sets.remove(&key) {
        Some(set) => set,
        None => KeyedMap::new(),
    };
    assert(set@.dom() =~= set_under(sets_of(before), key));
    set.insert(item, ());
    assert(set@.dom() =~= set_under(sets_of(before), key).insert(item));
    sets.insert(key, set);
    assert(sets_of(sets@) =~= with_item(sets_of(before), key, item));
}

fn add_ids(set: &mut KeyedMap<NodeId, ()>, keys: &Vec<NodeId>)
    requires
        old(set).wf(),
    ensures
        final(set).wf(),
        final(set)@.dom() == old(set)@.dom().union(keys@.to_set()),
{
    let ghost before = set@.dom();
    let mut i: usize = 0;
    assert(before =~= before.union(keys@.take(0).to_set()));
    while i < keys.len()
        invariant
            i <= keys@.len(),
            set.wf(),
            set@.dom() == before.union(keys@.take(i as int).to_set()),
        decreases keys@.len() - i,
    {
        let ghost seen = keys@.take(i as int);
        set.insert(keys[i], ());
        proof {
            let now = keys@.take(i + 1);
            assert(now =~= seen.push(keys@[i as int]));
            assert forall|k: NodeId| now.to_set().contains(k) == seen.to_set().insert(
                keys@[i as int],
            ).contains(k) by {
                if seen.contains(k) {
                    let j = choose|j: int| 0 <= j < seen.len() && seen[j] == k;
                    assert(now[j] == k);
                }
                if k == keys@[i as int] {
                    assert(now[i as int] == k);
                }
            }
            assert(set@.dom() =~= before.union(now.to_set()));
        }
        i = i + 1;
    }
    assert(keys@.take(i as int) =~= keys@);
}

fn select_unseen(keys: &Vec<NodeId>, seen: &KeyedMap<NodeId, ()>) -> (fresh: Vec<NodeId>)
    requires
        seen.wf(),
    ensures
        fresh@ == unseen(keys@, seen@.dom()),
{
    let mut fresh: Vec<NodeId> = Vec::new();
    let mut i: usize = 0;
    while i < keys.len()
        invariant
            i <= keys@.len(),
            seen.wf(),
            fresh@ == unseen(keys@.take(i as int), seen@.dom()),
        decreases keys@.len() - i,
    {
        assert(keys@.take(i + 1).drop_last() =~= keys@.take(i as int));
        if !seen.contains(&keys[i]) && !lists_id(&fresh, &keys[i]) {
            fresh.push(keys[i]);
        }
        i = i + 1;
    }
    assert(keys@.take(i as int) =~= keys@);
    fresh
}

/// What the originator does next.
#[derive(Debug)]
pub enum Action {
    /// Wait for the next answer.
    Idle,
    /// Send a request.
    Send(Outbound),
    /// Stop: the dissemination is over.
    Finished,
}

/// What an answer with closer nodes amounts to.
#[derive(Debug)]
pub enum Answer {
    /// The request was not open any more.
    Stale,
    /// Other nodes still owe an answer on the same batch.
    Waiting,
    /// All answers on the batch are in: these are the nodes to turn to, with their keys.
    Complete(Vec<(RemoteNodeId, Vec<NodeId>)>),
}

/// Whether a turn led from one state to the other with an action.
pub open spec fn is_turn(
    before: Progress,
    parallelism: nat,
    after: Progress,
    action: Action,
) -> bool {
    &&& after == before.advanced(parallelism)
    &&& match action {
        Action::Send(request) => before.can_send(parallelism) && request@ == before.outbound[0],
        Action::Idle => !before.can_send(parallelism),
        Action::Finished => false,
    }
}

/// Whether the dissemination ends in a state where nothing is left, and takes a turn otherwise.
pub open spec fn ends_or_turns(
    before: Progress,
    parallelism: nat,
    after: Progress,
    action: Action,
) -> bool {
    if before.is_done() {
        after == before && action is Finished
    } else {
        is_turn(before, parallelism, after, action)
    }
}

/// A dissemination under way.
pub struct Dissemination {
    pub local: NodeId,
    pub cap: Option<usize>,
    pub parallelism: usize,
    pub pending: KeyedMap<u16, ()>,
    pub keys_per_batch: KeyedMap<u16, Vec<NodeId>>,
    pub requests_per_batch: KeyedMap<u16, KeyedMap<u16, ()>>,
    pub requests_per_node: KeyedMap<NodeId, u16>,
    pub responses_per_batch: KeyedMap<u16, Vec<(NodeId, RemoteNodeId)>>,
    pub outbound: VecDeque<Outbound>,
    pub addressed: KeyedMap<NodeId, KeyedMap<NodeId, ()>>,
}

impl View for Dissemination {
    type V = Progress;

    open spec fn view(&self) -> Progress {
        Progress {
            pending: self.pending@.dom(),
            keys_per_batch: lists_of(self.keys_per_batch@),
            requests_per_batch: sets_of(self.requests_per_batch@),
            requests_per_node: self.requests_per_node@,
            responses_per_batch: responses_of(self.responses_per_batch@),
            outbound: departing(self.outbound@),
            addressed: sets_of(self.addressed@),
        }
    }
}

impl Dissemination {
    /// The maps are well-formed.
    pub open spec fn wf(&self) -> bool {
        &&& self.pending.wf()
        &&& self.keys_per_batch.wf()
        &&& sets_wf(self.requests_per_batch)
        &&& self.requests_per_node.wf()
        &&& self.responses_per_batch.wf()
        &&& sets_wf(self.addressed)
    }

    /// Whether two disseminations have the same originator and limits.
    pub open spec fn same_limits(&self, other: Self) -> bool {
        &&& self.local == other.local
        &&& self.cap == other.cap
        &&& self.parallelism == other.parallelism
    }

    /// Sends the next request if one can leave.
    fn take_turn(&mut self) -> (action: Action)
        requires
            old(self).wf(),
        ensures
            final(self).wf(),
            final(self).same_limits(*old(self)),
            is_turn(old(self)@, old(self).parallelism as nat, final(self)@, action),
    {
        let ghost before = *self;
        if self.pending.len() >= self.parallelism {
            return Action::Idle;
        }
        match self.outbound.pop_front() {
            None => {
                Action::Idle
            },
            Some(request) => {
                assert(request@ == before@.outbound[0]);
                if self.requests_per_node.contains(&request.to) {
                    self.outbound.push_back(request);
                    assert(self@.outbound =~= before@.outbound.drop_first().push(
                        before@.outbound[0],
                    ));
                    Action::Idle
                } else {
                    self.requests_per_node.insert(request.to, request.request_id);
                    self.pending.insert(request.request_id, ());
                    assert(self@.outbound =~= before@.outbound.drop_first());
                    assert(self@.pending =~= before@.pending.insert(request.request_id));
                    Action::Send(request)
                }
            },
        }
    }

    fn settle(&mut self, request_id: u16, from: &NodeId)
        requires
            old(self).wf(),
        ensures
            final(self).wf(),
            final(self).same_limits(*old(self)),
            final(self)@ == old(self)@.settled(request_id, *from),
    {
        let ghost before = *self;
        let _ = self.pending.remove(&request_id);
        let _ = self.requests_per_node.remove(from);
        assert(self@.pending =~= before@.pending.remove(request_id));
    }

    fn end_or_turn(&mut self) -> (action: Action)
        requires
            old(self).wf(),
        ensures
            final(self).wf(),
            final(self).same_limits(*old(self)),
            ends_or_turns(old(self)@, old(self).parallelism as nat, final(self)@, action),
    {
        if self.pending.len() == 0 && self.outbound.len() == 0 {
            return Action::Finished;
        }
        self.take_turn()
    }

    /// Whether an answer to a request is awaited from a node.
    pub fn awaits(&self, request_id: u16, from: &NodeId) -> (awaited: bool)
        requires
            self.wf(),
        ensures
            awaited == self@.awaits(request_id, *from),
    {
        self.pending.contains(&request_id) && self.requests_per_node.contains(from)
    }

    /// Whether an answer with closer nodes makes sense.
    pub fn accepts(
        &self,
        request_id: u16,
        batch_id: u16,
        from: &NodeId,
        closer: &Vec<NodeId>,
    ) -> (accepted: bool)
        requires
            self.wf(),
        ensures
            accepted == self@.accepts(request_id, batch_id, *from, closer@),
    {
        match self.requests_per_batch.get(&batch_id) {
            None => false,
            Some(open_requests) => {
                if !open_requests.contains(&request_id) {
                    return true;
                }
                match self.keys_per_batch.get(&batch_id) {
                    None => false,
                    Some(keys) => self.awaits(request_id, from) && !lists_id(closer, from)
                        && !lists_id(keys, from),
                }
            },
        }
    }

    /// Takes up the confirmation of a node that it stored the samples it was handed.
    pub fn received(&mut self, request_id: u16, from: &NodeId) -> (action: Action)
        requires
            old(self).wf(),
            old(self)@.awaits(request_id, *from),
        ensures
            final(self).wf(),
            final(self).same_limits(*old(self)),
            ends_or_turns(
                old(self)@.settled(request_id, *from),
                old(self).parallelism as nat,
                final(self)@,
                action,
            ),
    {
        self.settle(request_id, from);
        self.end_or_turn()
    }

    /// Gives up on a request that was not answered in time. The dissemination ends if no other
    /// request waits for an answer, even where some wait for their turn.
    pub fn timed_out(&mut self, request_id: u16) -> (action: Action)
        requires
            old(self).wf(),
            old(self)@.pending.contains(request_id),
        ensures
            final(self).wf(),
            final(self).same_limits(*old(self)),
            ({
                let given_up = old(self)@.without_request(request_id);
                if given_up.pending.len() == 0 {
                    final(self)@ == given_up && action is Finished
                } else {
                    is_turn(given_up, old(self).parallelism as nat, final(self)@, action)
                }
            }),
    {
        let ghost before = *self;
        let _ = self.pending.remove(&request_id);
        assert(self@.pending =~= before@.pending.remove(request_id));
        if self.pending.len() == 0 {
            return Action::Finished;
        }
        self.take_turn()
    }

    /// Takes up the answer of a node with closer nodes. Once it is the last one on its batch, the
    /// nodes to turn to next are worked out from all of them.
    pub fn closer_nodes(
        &mut self,
        request_id: u16,
        batch_id: u16,
        from: &NodeId,
        closer: &Vec<NodeId>,
    ) -> (answer: Answer)
        requires
            old(self).wf(),
            old(self)@.accepts(request_id, batch_id, *from, closer@),
        ensures
            final(self).wf(),
            final(self).same_limits(*old(self)),
            ({
                let noted = old(self)@.noted(request_id, batch_id, *from, closer@);
                if !old(self)@.requests_per_batch[batch_id].contains(request_id) {
                    final(self)@ == old(self)@ && answer is Stale
                } else if noted.requests_per_batch[batch_id].len() > 0 {
                    final(self)@ == noted.settled(request_id, *from) && answer is Waiting
                } else {
                    &&& final(self)@ == noted.closed(batch_id)
                    &&& answer matches Answer::Complete(groups) && are_next_groups(
                        tagged_groups(groups@),
                        old(self)@.offers_with(batch_id, *from, closer@),
                        cap_of(old(self).cap),
                    )
                }
            }),
    {
        let ghost before = *self;
        let mut open_requests: KeyedMap<u16, ()> = match self.requests_per_batch.remove(&batch_id) {
            Some(set) => set,
            None => KeyedMap::new(),
        };
        let ghost all_requests = open_requests@.dom();
        assert(all_requests == before@.requests_per_batch[batch_id]);
        let was_open: bool = open_requests.remove(&request_id).is_some();
        let left: usize = open_requests.len();
        self.requests_per_batch.insert(batch_id, open_requests);
        assert(self@.requests_per_batch =~= before@.requests_per_batch.insert(
            batch_id,
            all_requests.remove(request_id),
        ));
        if !was_open {
            assert(all_requests.remove(request_id) =~= all_requests);
            assert(self@ =~= before@);
            return Answer::Stale;
        }
        let offered: Vec<(NodeId, RemoteNodeId)> = match self.keys_per_batch.get(&batch_id) {
            Some(keys) => offer(closer, from, keys),
            None => Vec::new(),
        };
        let mut responses: Vec<(NodeId, RemoteNodeId)> = match self.responses_per_batch.remove(
            &batch_id,
        ) {
            Some(list) => list,
            None => Vec::new(),
        };
        assert(tagged(responses@) =~= list_under(before@.responses_per_batch, batch_id));
        extend_responses(&mut responses, &offered);
        assert(tagged(responses@) =~= before@.offers_with(batch_id, *from, closer@));
        let ghost noted = before@.noted(request_id, batch_id, *from, closer@);
        if left > 0 {
            self.responses_per_batch.insert(batch_id, responses);
            assert(self@.responses_per_batch =~= noted.responses_per_batch);
            self.settle(request_id, from);
            return Answer::Waiting;
        }
        assert(self@.responses_per_batch =~= noted.responses_per_batch.remove(batch_id));
        Answer::Complete(regroup(&responses, self.cap))
    }

    fn line_up(&mut self, next: &RemoteNodeId, keys: &Vec<NodeId>, ids: (u16, u16))
        requires
            old(self).wf(),
        ensures
            final(self).wf(),
            final(self).same_limits(*old(self)),
            final(self)@ == old(self)@.lined_up(old(self).local, next.tag(), keys@, ids),
    {
        let ghost before = *self;
        let (request_id, batch_id) = ids;
        self.keys_per_batch.insert(batch_id, copy_ids(keys));
        assert(self@.keys_per_batch =~= before@.keys_per_batch.insert(batch_id, keys@));
        match next {
            RemoteNodeId::AskCloser(to) => {
                if keys.len() == 0 || same_id(to, &self.local) {
                    return ;
                }
                add_item(&mut self.requests_per_batch, batch_id, request_id);
                let message: DisseminationMsg = DisseminationMsg::Keys(
                    (request_id, copy_ids(keys)),
                );
                let request: Outbound = Outbound {
                    to: *to,
                    protocol: dissemination_protocol_id(),
                    request_id,
                    batch_id,
                    message,
                };
                self.outbound.push_back(request);
                assert(self@.outbound =~= before@.outbound.push(request@));
            },
            RemoteNodeId::SendSamples(to) => {
                let fresh: Vec<NodeId> = self.address(to, keys);
                if fresh.len() == 0 || same_id(to, &self.local) {
                    return ;
                }
                let message: DisseminationMsg = DisseminationMsg::Samples(payloads_for(&fresh));
                let request: Outbound = Outbound {
                    to: *to,
                    protocol: dissemination_protocol_id(),
                    request_id,
                    batch_id,
                    message,
                };
                self.outbound.push_back(request);
                assert(self@.outbound =~= before@.outbound.push(request@));
            },
        }
    }

    /// Marks samples as addressed to a node, and returns the keys of those that were not before.
    fn address(&mut self, to: &NodeId, keys: &Vec<NodeId>) -> (fresh: Vec<NodeId>)
        requires
            old(self).wf(),
        ensures
            final(self).wf(),
            final(self).same_limits(*old(self)),
            fresh@ == old(self)@.fresh(*to, keys@),
            final(self)@ == (Progress {
                addressed: old(self)@.addressed.insert(
                    *to,
                    set_under(old(self)@.addressed, *to).union(keys@.to_set()),
                ),
                ..old(self)@
            }),
    {
        let ghost before = *self;
        let (mut set, fresh) = match self.addressed.remove(to) {
            Some(set) => {
                let fresh: Vec<NodeId> = select_unseen(keys, &set);
                (set, fresh)
            },
            None => (KeyedMap::<NodeId, ()>::new(), copy_ids(keys)),
        };
        assert(set@.dom() =~= set_under(before@.addressed, *to));
        add_ids(&mut set, keys);
        let ghost marked = set@.dom();
        self.addressed.insert(*to, set);
        assert(self@.addressed =~= before@.addressed.insert(*to, marked));
        fresh
    }

    /// Goes on after all answers on a batch: lines up the keys for the nodes to turn to, each group
    /// under identifiers of a request and of a batch, and settles the request that was answered
    /// last.
    pub fn proceed(
        &mut self,
        request_id: u16,
        from: &NodeId,
        groups: &Vec<(RemoteNodeId, Vec<NodeId>)>,
        ids: &Vec<(u16, u16)>,
    ) -> (action: Action)
        requires
            old(self).wf(),
            old(self)@.awaits(request_id, *from),
            ids@.len() == groups@.len(),
        ensures
            final(self).wf(),
            final(self).same_limits(*old(self)),
            ends_or_turns(
                old(self)@.lined_up_all(old(self).local, tagged_groups(groups@), ids@).settled(
                    request_id,
                    *from,
                ),
                old(self).parallelism as nat,
                final(self)@,
                action,
            ),
    {
        let ghost before = *self;
        let ghost contents = tagged_groups(groups@);
        let mut i: usize = 0;
        while i < groups.len()
            invariant
                i <= groups@.len(),
                ids@.len() == groups@.len(),
                contents == tagged_groups(groups@),
                self.wf(),
                self.same_limits(before),
                self@ == before@.lined_up_all(before.local, contents.take(i as int), ids@),
            decreases groups@.len() - i,
        {
            assert(contents.take(i + 1).drop_last() =~= contents.take(i as int));
            self.line_up(&groups[i].0, &groups[i].1, ids[i]);
            i = i + 1;
        }
        assert(contents.take(i as int) =~= contents);
        self.settle(request_id, from);
        self.end_or_turn()
    }
}

fn extend_responses(
    responses: &mut Vec<(NodeId, RemoteNodeId)>,
    more: &Vec<(NodeId, RemoteNodeId)>,
)
    ensures
        tagged(final(responses)@) == tagged(old(responses)@) + tagged(more@),
{
    let ghost before = responses@;
    let mut i: usize = 0;
    while i < more.len()
        invariant
            i <= more@.len(),
            responses@ =~= before + more@.take(i as int),
        decreases more@.len() - i,
    {
        responses.push(more[i]);
        i = i + 1;
    }
    assert(more@.take(i as int) =~= more@);
    assert(tagged(responses@) =~= tagged(before) + tagged(more@));
}

/// Keys with the indices of their k-buckets.
pub open spec fn bucketed(local: NodeId, keys: Seq<NodeId>) -> Seq<(usize, NodeId)> {
    Seq::new(keys.len(), |i: int| (bucket_index(local, keys[i]) as usize, keys[i]))
}

/// The keys of a batch, and the nodes that are asked about them first.
#[derive(Debug)]
pub struct PlannedBatch {
    pub keys: Vec<NodeId>,
    pub nodes: Vec<NodeId>,
}

/// Whether `batches` hold the keys of each k-bucket in one batch, in any order of the buckets, with
/// the contacts in that bucket that the replication policy allows, or the originator itself where
/// there are none.
pub open spec fn is_plan(
    batches: Seq<PlannedBatch>,
    table: RoutingTable,
    cap: Option<nat>,
    keys: Seq<NodeId>,
) -> bool {
    &&& exists|by_bucket: Seq<(usize, Seq<NodeId>)>| #[trigger]
        is_grouping(by_bucket, bucketed(table.local, keys)) && by_bucket.len() == batches.len()
            && forall|i: int|
            0 <= i < batches.len() ==> (#[trigger] batches[i]).keys@ == by_bucket[i].1
    &&& forall|i: int, j: int|
        0 <= i < batches.len() && 0 <= j < batches[i].keys@.len() ==> batches[i].nodes@ == targets(
            table,
            BatchingStrategy::BucketWise,
            None,
            cap,
            #[trigger] batches[i].keys@[j],
        )
}

/// The keys in a group are of the bucket that the group is for.
pub(crate) proof fn lemma_group_in_bucket(local: NodeId, keys: Seq<NodeId>, index: usize)
    ensures
        forall|j: int|
            0 <= j < values_of(bucketed(local, keys), index).len() ==> keys.contains(
                #[trigger] values_of(bucketed(local, keys), index)[j],
            ) && bucket_index(local, values_of(bucketed(local, keys), index)[j]) as usize == index,
    decreases keys.len(),
{
    if keys.len() > 0 {
        let front = keys.drop_last();
        lemma_group_in_bucket(local, front, index);
        assert(bucketed(local, keys).drop_last() =~= bucketed(local, front));
        let values = values_of(bucketed(local, keys), index);
        assert forall|j: int| 0 <= j < values.len() implies keys.contains(#[trigger] values[j])
            && bucket_index(local, values[j]) as usize == index by {
            let rest = values_of(bucketed(local, front), index);
            if j < rest.len() {
                assert(values[j] == rest[j]);
                assert(front.contains(rest[j]));
                let q = choose|q: int| 0 <= q < front.len() && front[q] == rest[j];
                assert(keys[q] == rest[j]);
            } else {
                assert(keys[keys.len() - 1] == values[j]);
            }
        }
    }
}

/// Plans the first requests: one batch for the keys of each k-bucket.
pub fn plan_batches(table: &RoutingTable, args: &DisseminationArgs, keys: &Vec<NodeId>) -> (batches:
    Vec<PlannedBatch>)
    requires
        table.wf(),
        args.batching_strategy == BatchingStrategy::BucketWise,
        args.replicate_mode == ReplicatePolicy::ReplicateSome ==> args.redundancy < usize::MAX,
        !keys@.contains(table.local),
    ensures
        is_plan(batches@, *table, replication(*args), keys@),
{
    let cap: Option<usize> = replication_cap(args);
    let mut pairs: Vec<(usize, NodeId)> = Vec::new();
    let mut i: usize = 0;
    while i < keys.len()
        invariant
            i <= keys@.len(),
            !keys@.contains(table.local),
            pairs@ =~= bucketed(table.local, keys@).take(i as int),
        decreases keys@.len() - i,
    {
        assert(keys@.contains(keys@[i as int]));
        pairs.push((bucket_of(&table.local, &keys[i]), keys[i]));
        i = i + 1;
    }
    assert(pairs@ =~= bucketed(table.local, keys@));
    let mut groups: Vec<(usize, Vec<NodeId>)> = group_pairs(pairs);
    let ghost contents = group_contents(groups@);
    let mut batches: Vec<PlannedBatch> = Vec::new();
    let ghost mut origin: Seq<(usize, Seq<NodeId>)> = Seq::empty();
    while groups.len() > 0
        invariant
            table.wf(),
            !keys@.contains(table.local),
            cap_of(cap) == replication(*args),
            is_grouping(contents, bucketed(table.local, keys@)),
            groups@.len() + batches@.len() == contents.len(),
            forall|g: int|
                0 <= g < groups@.len() ==> (#[trigger] groups@[g]).0 == contents[g].0
                    && groups@[g].1@ == contents[g].1,
            origin.len() == batches@.len(),
            forall|b: int|
                0 <= b < batches@.len() ==> (#[trigger] origin[b]) == contents[contents.len() - 1
                    - b],
            forall|b: int|
                0 <= b < batches@.len() ==> (#[trigger] batches@[b]).keys@ == origin[b].1,
            forall|b: int, j: int|
                0 <= b < batches@.len() && 0 <= j < batches@[b].keys@.len() ==> batches@[b].nodes@
                    == targets(
                    *table,
                    BatchingStrategy::BucketWise,
                    None,
                    replication(*args),
                    #[trigger] batches@[b].keys@[j],
                ),
        decreases groups@.len(),
    {
        let ghost last = groups@.len() - 1;
        match groups.pop() {
            Some((index, members)) => {
                proof {
                    assert(contents[last] == (index, members@));
                    lemma_group_in_bucket(table.local, keys@, index);
                    origin = origin.push(contents[last]);
                    assert(keys@.contains(members@[0]));
                    assert forall|j: int| 0 <= j < members@.len() implies bucket_index(
                        table.local,
                        #[trigger] members@[j],
                    ) == bucket_index(table.local, members@[0]) by {
                        assert(keys@.contains(members@[j]));
                        lemma_bucket_index_bound(table.local, members@[j]);
                        lemma_bucket_index_bound(table.local, members@[0]);
                    }
                }
                let first: NodeId = members[0];
                let nodes: Vec<NodeId> = choose_targets(
                    table,
                    BatchingStrategy::BucketWise,
                    &None,
                    cap,
                    &first,
                );
                batches.push(PlannedBatch { keys: members, nodes });
            },
            None => {},
        }
    }
    proof {
        let by_bucket = origin;
        lemma_reversed_grouping(by_bucket, contents, bucketed(table.local, keys@));
    }
    batches
}

proof fn lemma_reversed_grouping<K, V>(
    reversed: Seq<(K, Seq<V>)>,
    groups: Seq<(K, Seq<V>)>,
    pairs: Seq<(K, V)>,
)
    requires
        is_grouping(groups, pairs),
        reversed.len() == groups.len(),
        forall|b: int|
            0 <= b < reversed.len() ==> (#[trigger] reversed[b]) == groups[groups.len() - 1 - b],
    ensures
        is_grouping(reversed, pairs),
{
    assert forall|i: int, j: int| 0 <= i < j < reversed.len() implies (#[trigger] reversed[i]).0
        != (#[trigger] reversed[j]).0 by {
        assert(groups[groups.len() - 1 - j].0 != groups[groups.len() - 1 - i].0);
    }
    assert forall|i: int| 0 <= i < reversed.len() implies (#[trigger] reversed[i]).1.len() > 0
        && reversed[i].1 == values_of(pairs, reversed[i].0) by {
        assert(reversed[i] == groups[groups.len() - 1 - i]);
    }
    assert forall|p: int| 0 <= p < pairs.len() implies has_group(
        reversed,
        (#[trigger] pairs[p]).0,
    ) by {
        let g = choose|g: int| 0 <= g < groups.len() && (#[trigger] groups[g]).0 == pairs[p].0;
        assert(reversed[groups.len() - 1 - g].0 == pairs[p].0);
    }
}

/// The identifiers of a batch and of its requests, one for each node that is asked.
#[derive(Debug)]
pub struct BatchIds {
    pub batch_id: u16,
    pub request_ids: Vec<u16>,
}

impl Progress {
    /// After requests of a batch to `nodes` were sent. None goes to the originator itself.
    pub open spec fn opened_to(
        self,
        local: NodeId,
        nodes: Seq<NodeId>,
        batch_id: u16,
        request_ids: Seq<u16>,
    ) -> Progress
        decreases nodes.len(),
    {
        if nodes.len() == 0 {
            self
        } else {
            let last = nodes.len() - 1;
            let before = self.opened_to(local, nodes.drop_last(), batch_id, request_ids);
            if nodes[last] == local {
                before
            } else {
                before.opened(batch_id, request_ids[last], nodes[last])
            }
        }
    }

    /// After the first requests of planned batches were sent, one batch after the other.
    pub open spec fn opened_all(
        self,
        local: NodeId,
        batches: Seq<PlannedBatch>,
        ids: Seq<BatchIds>,
    ) -> Progress
        decreases batches.len(),
    {
        if batches.len() == 0 {
            self
        } else {
            let last = batches.len() - 1;
            let before = self.opened_all(local, batches.drop_last(), ids);
            Progress {
                keys_per_batch: before.keys_per_batch.insert(
                    ids[last].batch_id,
                    batches[last].keys@,
                ),
                ..before
            }.opened_to(
                local,
                batches[last].nodes@,
                ids[last].batch_id,
                ids[last].request_ids@,
            )
        }
    }
}

/// The requests of a batch to `nodes` other than the originator.
pub open spec fn requests_to(
    local: NodeId,
    nodes: Seq<NodeId>,
    keys: Seq<NodeId>,
    batch_id: u16,
    request_ids: Seq<u16>,
) -> Seq<Departing>
    decreases nodes.len(),
{
    if nodes.len() == 0 {
        Seq::empty()
    } else {
        let last = nodes.len() - 1;
        let before = requests_to(local, nodes.drop_last(), keys, batch_id, request_ids);
        if nodes[last] == local {
            before
        } else {
            before.push(
                Departing {
                    to: nodes[last],
                    protocol: dissemination_protocol(),
                    request_id: request_ids[last],
                    batch_id,
                    message: Message::Keys(batch_id, keys),
                },
            )
        }
    }
}

/// The first requests of planned batches, one batch after the other.
pub open spec fn first_requests(
    local: NodeId,
    batches: Seq<PlannedBatch>,
    ids: Seq<BatchIds>,
) -> Seq<Departing>
    decreases batches.len(),
{
    if batches.len() == 0 {
        Seq::empty()
    } else {
        let last = batches.len() - 1;
        first_requests(local, batches.drop_last(), ids) + requests_to(
            local,
            batches[last].nodes@,
            batches[last].keys@,
            ids[last].batch_id,
            ids[last].request_ids@,
        )
    }
}

/// The keys of a batch, as often as the originator itself is among `nodes`.
pub open spec fn kept_of(local: NodeId, nodes: Seq<NodeId>, keys: Seq<NodeId>) -> Seq<NodeId>
    decreases nodes.len(),
{
    if nodes.len() == 0 {
        Seq::empty()
    } else {
        let before = kept_of(local, nodes.drop_last(), keys);
        if nodes.last() == local {
            before + keys
        } else {
            before
        }
    }
}

/// The keys of planned batches that fall to the originator itself.
pub open spec fn kept_keys(local: NodeId, batches: Seq<PlannedBatch>) -> Seq<NodeId>
    decreases batches.len(),
{
    if batches.len() == 0 {
        Seq::empty()
    } else {
        kept_keys(local, batches.drop_last()) + kept_of(
            local,
            batches.last().nodes@,
            batches.last().keys@,
        )
    }
}

/// Whether there are identifiers for all batches and their requests.
pub open spec fn are_ids_for(ids: Seq<BatchIds>, batches: Seq<PlannedBatch>) -> bool {
    &&& ids.len() == batches.len()
    &&& forall|i: int|
        0 <= i < ids.len() ==> (#[trigger] ids[i]).request_ids@.len() == batches[i].nodes@.len()
}

/// The first step of a dissemination.
pub struct Opening {
    /// The samples that go into the content store of the originator.
    pub stored: Vec<(NodeId, Vec<u8>)>,
    /// The requests that are sent.
    pub sent: Vec<Outbound>,
    /// The dissemination that is under way.
    pub dissemination: Dissemination,
}

fn append_ids(ids: &mut Vec<NodeId>, more: &Vec<NodeId>)
    ensures
        final(ids)@ == old(ids)@ + more@,
{
    let ghost before = ids@;
    let mut i: usize = 0;
    while i < more.len()
        invariant
            i <= more@.len(),
            ids@ =~= before + more@.take(i as int),
        decreases more@.len() - i,
    {
        ids.push(more[i]);
        i = i + 1;
    }
    assert(more@.take(i as int) =~= more@);
}

impl Dissemination {
    /// A dissemination before anything was sent.
    fn new(local: NodeId, cap: Option<usize>, parallelism: usize) -> (dissemination: Self)
        ensures
            dissemination.wf(),
            dissemination.local == local,
            dissemination.cap == cap,
            dissemination.parallelism == parallelism,
            dissemination@ == Progress::start(),
    {
        let dissemination = Dissemination {
            local,
            cap,
            parallelism,
            pending: KeyedMap::new(),
            keys_per_batch: KeyedMap::new(),
            requests_per_batch: KeyedMap::new(),
            requests_per_node: KeyedMap::new(),
            responses_per_batch: KeyedMap::new(),
            outbound: VecDeque::new(),
            addressed: KeyedMap::new(),
        };
        assert(dissemination@ =~= Progress::start());
        dissemination
    }

    fn open_request(&mut self, batch_id: u16, request_id: u16, to: NodeId)
        requires
            old(self).wf(),
        ensures
            final(self).wf(),
            final(self).same_limits(*old(self)),
            final(self)@ == old(self)@.opened(batch_id, request_id, to),
    {
        let ghost before = *self;
        self.pending.insert(request_id, ());
        self.requests_per_node.insert(to, request_id);
        add_item(&mut self.requests_per_batch, batch_id, request_id);
        assert(self@ =~= before@.opened(batch_id, request_id, to));
    }

    /// Sends the first requests of a batch, and notes the keys that fall to the originator.
    fn open_batch(
        &mut self,
        batch: &PlannedBatch,
        ids: &BatchIds,
        sent: &mut Vec<Outbound>,
        kept: &mut Vec<NodeId>,
    )
        requires
            old(self).wf(),
            ids.request_ids@.len() == batch.nodes@.len(),
        ensures
            final(self).wf(),
            final(self).same_limits(*old(self)),
            final(self)@ == (Progress {
                keys_per_batch: old(self)@.keys_per_batch.insert(ids.batch_id, batch.keys@),
                ..old(self)@
            }).opened_to(old(self).local, batch.nodes@, ids.batch_id, ids.request_ids@),
            departing(final(sent)@) == departing(old(sent)@) + requests_to(
                old(self).local,
                batch.nodes@,
                batch.keys@,
                ids.batch_id,
                ids.request_ids@,
            ),
            final(kept)@ == old(kept)@ + kept_of(old(self).local, batch.nodes@, batch.keys@),
    {
        let ghost before = *self;
        let ghost sent_before = sent@;
        let ghost kept_before = kept@;
        let ghost nodes = batch.nodes@;
        self.keys_per_batch.insert(ids.batch_id, copy_ids(&batch.keys));
        let ghost base = self@;
        assert(base =~= (Progress {
            keys_per_batch: before@.keys_per_batch.insert(ids.batch_id, batch.keys@),
            ..before@
        }));
        assert(departing(sent@) =~= departing(sent_before) + requests_to(
            before.local,
            nodes.take(0),
            batch.keys@,
            ids.batch_id,
            ids.request_ids@,
        ));
        assert(kept@ =~= kept_before + kept_of(before.local, nodes.take(0), batch.keys@));
        let mut i: usize = 0;
        while i < batch.nodes.len()
            invariant
                i <= batch.nodes@.len(),
                ids.request_ids@.len() == batch.nodes@.len(),
                nodes == batch.nodes@,
                self.wf(),
                self.same_limits(before),
                self@ == base.opened_to(
                    before.local,
                    nodes.take(i as int),
                    ids.batch_id,
                    ids.request_ids@,
                ),
                departing(sent@) == departing(sent_before) + requests_to(
                    before.local,
                    nodes.take(i as int),
                    batch.keys@,
                    ids.batch_id,
                    ids.request_ids@,
                ),
                kept@ == kept_before + kept_of(before.local, nodes.take(i as int), batch.keys@),
            decreases batch.nodes@.len() - i,
        {
            assert(nodes.take(i + 1).drop_last() =~= nodes.take(i as int));
            let to: NodeId = batch.nodes[i];
            if same_id(&to, &self.local) {
                append_ids(kept, &batch.keys);
                assert(kept@ =~= kept_before + kept_of(
                    before.local,
                    nodes.take(i + 1),
                    batch.keys@,
                ));
            } else {
                let request_id: u16 = ids.request_ids[i];
                self.open_request(ids.batch_id, request_id, to);
                let ghost listed = sent@;
                let request: Outbound = Outbound {
                    to,
                    protocol: dissemination_protocol_id(),
                    request_id,
                    batch_id: ids.batch_id,
                    message: DisseminationMsg::Keys((ids.batch_id, copy_ids(&batch.keys))),
                };
                sent.push(request);
                assert(departing(sent@) =~= departing(listed).push(request@));
                assert(departing(sent@) =~= departing(sent_before) + requests_to(
                    before.local,
                    nodes.take(i + 1),
                    batch.keys@,
                    ids.batch_id,
                    ids.request_ids@,
                ));
            }
            i = i + 1;
        }
        assert(nodes.take(i as int) =~= nodes);
    }
}

/// Starts the dissemination of planned batches: keys that fall to the originator itself are stored,
/// and the nodes of each batch are asked for closer ones.
pub fn disseminate_samples_iteratively(
    node: &mut DASNode,
    local: NodeId,
    args: &DisseminationArgs,
    batches: &Vec<PlannedBatch>,
    ids: &Vec<BatchIds>,
) -> (opening: Opening)
    requires
        old(node).wf(),
        are_ids_for(ids@, batches@),
        has_room(old(node)@.samples, kept_keys(local, batches@).len()),
        args.batching_strategy == BatchingStrategy::BucketWise,
        args.replicate_mode == ReplicatePolicy::ReplicateSome ==> args.redundancy < usize::MAX,
    ensures
        final(node).wf(),
        final(node)@.samples == counted_all(old(node)@.samples, kept_keys(local, batches@)),
        final(node)@.handled_ids == old(node)@.handled_ids,
        final(node).overlay == old(node).overlay,
        final(node).secure_overlay == old(node).secure_overlay,
        sample_contents(opening.stored@) == with_payload(kept_keys(local, batches@)),
        departing(opening.sent@) == first_requests(local, batches@, ids@),
        opening.dissemination.wf(),
        opening.dissemination.local == local,
        cap_of(opening.dissemination.cap) == replication(*args),
        opening.dissemination.parallelism == args.parallelism,
        opening.dissemination@ == Progress::start().opened_all(local, batches@, ids@),
{
    let cap: Option<usize> = replication_cap(args);
    let mut dissemination: Dissemination = Dissemination::new(local, cap, args.parallelism);
    let ghost fresh = dissemination;
    let mut sent: Vec<Outbound> = Vec::new();
    let mut kept: Vec<NodeId> = Vec::new();
    assert(departing(sent@) =~= first_requests(local, batches@.take(0), ids@));
    assert(kept@ =~= kept_keys(local, batches@.take(0)));
    let mut i: usize = 0;
    while i < batches.len()
        invariant
            i <= batches@.len(),
            are_ids_for(ids@, batches@),
            fresh.local == local,
            dissemination.wf(),
            dissemination.same_limits(fresh),
            dissemination@ == Progress::start().opened_all(local, batches@.take(i as int), ids@),
            departing(sent@) == first_requests(local, batches@.take(i as int), ids@),
            kept@ == kept_keys(local, batches@.take(i as int)),
        decreases batches@.len() - i,
    {
        assert(batches@.take(i + 1).drop_last() =~= batches@.take(i as int));
        assert(ids@[i as int].request_ids@.len() == batches@[i as int].nodes@.len());
        dissemination.open_batch(&batches[i], &ids[i], &mut sent, &mut kept);
        i = i + 1;
    }
    assert(batches@.take(i as int) =~= batches@);
    node.store(&kept);
    let stored: Vec<(NodeId, Vec<u8>)> = payloads_for(&kept);
    Opening { stored, sent, dissemination }
}

/// What a turn does: it sends at most one request, only to a node that owes no answer, and only
/// while fewer requests wait for an answer than may. No request is dropped: those that wait for
/// their turn are the same as before, but for the one that was sent.
pub proof fn lemma_turn(progress: Progress, parallelism: nat)
    requires
        progress.pending.finite(),
    ensures
        ({
            let after = progress.advanced(parallelism);
            let first = progress.outbound[0];
            &&& after.pending.finite()
            &&& after.pending.len() <= parallelism || after.pending == progress.pending
            &&& progress.can_send(parallelism) ==> {
                &&& progress.pending.len() < parallelism
                &&& !progress.requests_per_node.dom().contains(first.to)
                &&& after.awaits(first.request_id, first.to)
                &&& after.outbound.to_multiset() == progress.outbound.to_multiset().remove(first)
            }
            &&& !progress.can_send(parallelism) ==> {
                &&& after.pending == progress.pending
                &&& after.requests_per_node == progress.requests_per_node
                &&& after.outbound.to_multiset() == progress.outbound.to_multiset()
            }
        }),
{
    broadcast use vstd::seq_lib::group_to_multiset_ensures;

    if progress.pending.len() < parallelism && progress.outbound.len() > 0 {
        let first = progress.outbound[0];
        let rest = progress.outbound.drop_first();
        assert(progress.outbound =~= seq![first] + rest);
        vstd::seq_lib::lemma_multiset_commutative(seq![first], rest);
        assert(seq![first] =~= Seq::<Departing>::empty().push(first));
        assert(progress.outbound.to_multiset() =~= rest.to_multiset().insert(first));
        assert(progress.outbound.to_multiset().remove(first) =~= rest.to_multiset());
        assert(rest.push(first).to_multiset() =~= progress.outbound.to_multiset());
    }
}

proof fn lemma_unseen(keys: Seq<NodeId>, seen: Set<NodeId>)
    ensures
        unseen(keys, seen).no_duplicates(),
        forall|k: NodeId| #[trigger]
            unseen(keys, seen).contains(k) <==> keys.contains(k) && !seen.contains(k),
    decreases keys.len(),
{
    if keys.len() > 0 {
        let rest = keys.drop_last();
        let front = unseen(rest, seen);
        let all = unseen(keys, seen);
        lemma_unseen(rest, seen);
        assert forall|k: NodeId| #[trigger] all.contains(k) <==> keys.contains(k) && !seen.contains(
            k,
        ) by {
            if all.contains(k) {
                let i = choose|i: int| 0 <= i < all.len() && all[i] == k;
                if i < front.len() {
                    assert(front[i] == k);
                    assert(front.contains(k));
                    let j = choose|j: int| 0 <= j < rest.len() && rest[j] == k;
                    assert(keys[j] == k);
                } else {
                    assert(keys[keys.len() - 1] == k);
                }
            }
            if keys.contains(k) && !seen.contains(k) {
                let j = choose|j: int| 0 <= j < keys.len() && keys[j] == k;
                if j < rest.len() {
                    assert(rest[j] == k);
                    assert(front.contains(k));
                }
                if front.contains(k) {
                    let i = choose|i: int| 0 <= i < front.len() && front[i] == k;
                    assert(all[i] == k);
                } else {
                    assert(all[all.len() - 1] == k);
                }
            }
        }
        assert forall|i: int, j: int|
            0 <= i < all.len() && 0 <= j < all.len() && i != j implies all[i] != all[j] by {
            if i < front.len() && j < front.len() {
                assert(front[i] != front[j]);
            } else if i < front.len() {
                assert(front.contains(front[i]));
            } else if j < front.len() {
                assert(front.contains(front[j]));
            }
        }
    }
}

/// No node is handed a sample twice: of the samples that are lined up for a node, none was
/// addressed to it before, and all count as addressed to it from then on.
pub proof fn lemma_samples_are_sent_once(
    progress: Progress,
    local: NodeId,
    node: NodeId,
    keys: Seq<NodeId>,
    ids: (u16, u16),
)
    ensures
        ({
            let after = progress.lined_up(local, (true, node), keys, ids);
            let fresh = progress.fresh(node, keys);
            &&& forall|k: NodeId| #[trigger]
                fresh.contains(k) <==> keys.contains(k) && !set_under(
                    progress.addressed,
                    node,
                ).contains(k)
            &&& keys.no_duplicates() ==> fresh.no_duplicates()
            &&& set_under(progress.addressed, node).subset_of(set_under(after.addressed, node))
            &&& forall|k: NodeId|
                keys.contains(k) ==> #[trigger] set_under(after.addressed, node).contains(k)
            &&& forall|n: NodeId|
                n != node ==> #[trigger] set_under(after.addressed, n) == set_under(
                    progress.addressed,
                    n,
                )
            &&& after.outbound == progress.outbound || {
                &&& after.outbound.drop_last() == progress.outbound
                &&& after.outbound.last().to == node
                &&& after.outbound.last().message == Message::Samples(with_payload(fresh))
            }
        }),
{
    lemma_unseen(keys, set_under(progress.addressed, node));
    let after = progress.lined_up(local, (true, node), keys, ids);
    if after.outbound.len() != progress.outbound.len() {
        assert(after.outbound.drop_last() =~= progress.outbound);
    }
}

/// The samples that count as addressed to a node never grow fewer, whatever the originator does.
pub proof fn lemma_addressed_stays(
    progress: Progress,
    local: NodeId,
    groups: Seq<((bool, NodeId), Seq<NodeId>)>,
    ids: Seq<(u16, u16)>,
    node: NodeId,
)
    ensures
        set_under(progress.addressed, node).subset_of(
            set_under(progress.lined_up_all(local, groups, ids).addressed, node),
        ),
        forall|request_id: u16, from: NodeId|
            #![trigger progress.settled(request_id, from)]
            progress.settled(request_id, from).addressed == progress.addressed,
        forall|request_id: u16|
            #![trigger progress.without_request(request_id)]
            progress.without_request(request_id).addressed == progress.addressed,
        forall|request_id: u16, batch_id: u16, from: NodeId, closer: Seq<NodeId>|
            #![trigger progress.noted(request_id, batch_id, from, closer)]
            progress.noted(request_id, batch_id, from, closer).addressed == progress.addressed,
        forall|batch_id: u16|
            #![trigger progress.closed(batch_id)]
            progress.closed(batch_id).addressed == progress.addressed,
        forall|parallelism: nat|
            #![trigger progress.advanced(parallelism)]
            progress.advanced(parallelism).addressed == progress.addressed,
    decreases groups.len(),
{
    if groups.len() > 0 {
        lemma_addressed_stays(progress, local, groups.drop_last(), ids, node);
    }
}

/// Whether no request that waits for its turn goes to the originator itself.
pub open spec fn goes_out(progress: Progress, local: NodeId) -> bool {
    forall|i: int| 0 <= i < progress.outbound.len() ==> (#[trigger] progress.outbound[i]).to
        != local
}

/// The originator never sends a request to itself: nothing is lined up for it, and a turn adds
/// nothing.
pub proof fn lemma_never_to_itself(
    progress: Progress,
    local: NodeId,
    groups: Seq<((bool, NodeId), Seq<NodeId>)>,
    ids: Seq<(u16, u16)>,
    parallelism: nat,
)
    requires
        goes_out(progress, local),
    ensures
        goes_out(progress.lined_up_all(local, groups, ids), local),
        goes_out(progress.advanced(parallelism), local),
    decreases groups.len(),
{
    if groups.len() > 0 {
        lemma_never_to_itself(progress, local, groups.drop_last(), ids, parallelism);
        let before = progress.lined_up_all(local, groups.drop_last(), ids);
        let after = progress.lined_up_all(local, groups, ids);
        assert forall|i: int| 0 <= i < after.outbound.len() implies (
        #[trigger] after.outbound[i]).to != local by {
            if i < before.outbound.len() {
                assert(after.outbound[i] == before.outbound[i]);
            }
        }
    }
    let turned = progress.advanced(parallelism);
    assert forall|i: int| 0 <= i < turned.outbound.len() implies (#[trigger] turned.outbound[i]).to
        != local by {
        if i + 1 < progress.outbound.len() {
            assert(progress.outbound[i + 1].to != local);
        }
    }
}

/// An answer counts once: after it was noted its request is not open any more, so that another
/// answer to it is stale, and the other requests of the batch stay open.
pub proof fn lemma_answer_counts_once(
    progress: Progress,
    request_id: u16,
    batch_id: u16,
    from: NodeId,
    closer: Seq<NodeId>,
)
    requires
        progress.accepts(request_id, batch_id, from, closer),
    ensures
        ({
            let noted = progress.noted(request_id, batch_id, from, closer);
            &&& noted.requests_per_batch.dom().contains(batch_id)
            &&& !noted.requests_per_batch[batch_id].contains(request_id)
            &&& forall|other: u16|
                other != request_id && progress.requests_per_batch[batch_id].contains(other)
                    ==> #[trigger] noted.requests_per_batch[batch_id].contains(other)
            &&& forall|other: u16|
                other != batch_id && progress.requests_per_batch.dom().contains(other)
                    ==> #[trigger] noted.requests_per_batch[other]
                    == progress.requests_per_batch[other]
        }),
{
}

/// Whether a request is the one that asks a node of a planned batch: under the dissemination
/// protocol and the identifiers of the batch and of the node, it asks about the keys of the batch,
/// all of them, in their order.
pub open spec fn asks_about(
    request: Departing,
    batch: PlannedBatch,
    ids: BatchIds,
    node: int,
) -> bool {
    &&& request.to == batch.nodes@[node]
    &&& request.protocol == seq![68u8, 50u8, 83u8]
    &&& request.request_id == ids.request_ids@[node]
    &&& request.batch_id == ids.batch_id
    &&& request.message matches Message::Keys(id, keys) && id == ids.batch_id && keys.len()
        == batch.keys@.len() && forall|k: int|
        0 <= k < keys.len() ==> #[trigger] keys[k] == batch.keys@[k]
}

/// Whether a request asks one of the first nodes of a planned batch, other than the originator.
pub open spec fn asks_one_of(
    request: Departing,
    local: NodeId,
    batch: PlannedBatch,
    ids: BatchIds,
    upto: nat,
) -> bool {
    exists|m: int|
        0 <= m < upto && batch.nodes@[m] != local && #[trigger] asks_about(request, batch, ids, m)
}

/// Whether a request asks a node of one of the planned batches, other than the originator.
pub open spec fn is_planned(
    request: Departing,
    local: NodeId,
    batches: Seq<PlannedBatch>,
    ids: Seq<BatchIds>,
) -> bool {
    exists|b: int|
        0 <= b < batches.len() && asks_one_of(
            request,
            local,
            #[trigger] batches[b],
            ids[b],
            batches[b].nodes@.len(),
        )
}

proof fn lemma_requests_to_are_exact(local: NodeId, batch: PlannedBatch, ids: BatchIds, upto: nat)
    requires
        upto <= batch.nodes@.len(),
    ensures
        ({
            let requests = requests_to(
                local,
                batch.nodes@.take(upto as int),
                batch.keys@,
                ids.batch_id,
                ids.request_ids@,
            );
            &&& forall|i: int|
                0 <= i < requests.len() ==> asks_one_of(
                    #[trigger] requests[i],
                    local,
                    batch,
                    ids,
                    upto,
                )
            &&& forall|m: int|
                0 <= m < upto && (#[trigger] batch.nodes@[m]) != local ==> exists|i: int|
                    0 <= i < requests.len() && #[trigger] asks_about(requests[i], batch, ids, m)
            &&& requests.len() == batch.nodes@.take(upto as int).filter(
                |n: NodeId| n != local,
            ).len()
        }),
    decreases upto,
{
    reveal(Seq::filter);
    let nodes = batch.nodes@.take(upto as int);
    let requests = requests_to(local, nodes, batch.keys@, ids.batch_id, ids.request_ids@);
    if upto > 0 {
        let last = upto - 1;
        assert(nodes.drop_last() =~= batch.nodes@.take(last));
        lemma_requests_to_are_exact(local, batch, ids, last as nat);
        let front = requests_to(
            local,
            nodes.drop_last(),
            batch.keys@,
            ids.batch_id,
            ids.request_ids@,
        );
        if nodes[last] != local {
            assert(asks_about(requests[requests.len() - 1], batch, ids, last));
        }
        assert forall|i: int| 0 <= i < requests.len() implies asks_one_of(
            #[trigger] requests[i],
            local,
            batch,
            ids,
            upto,
        ) by {
            if i < front.len() {
                assert(requests[i] == front[i]);
                assert(asks_one_of(front[i], local, batch, ids, last as nat));
                let m = choose|m: int|
                    0 <= m < last && batch.nodes@[m] != local && #[trigger] asks_about(
                        front[i],
                        batch,
                        ids,
                        m,
                    );
                assert(asks_about(requests[i], batch, ids, m));
            }
        }
        assert forall|m: int| 0 <= m < upto && (#[trigger] batch.nodes@[m]) != local implies exists|i: int|
            0 <= i < requests.len() && #[trigger] asks_about(requests[i], batch, ids, m) by {
            if m < last {
                let i = choose|i: int|
                    0 <= i < front.len() && #[trigger] asks_about(front[i], batch, ids, m);
                assert(requests[i] == front[i]);
            } else {
                assert(asks_about(requests[requests.len() - 1], batch, ids, m));
            }
        }
    }
}

proof fn lemma_first_requests_are_planned(
    local: NodeId,
    batches: Seq<PlannedBatch>,
    ids: Seq<BatchIds>,
)
    ensures
        forall|i: int|
            0 <= i < first_requests(local, batches, ids).len() ==> is_planned(
                #[trigger] first_requests(local, batches, ids)[i],
                local,
                batches,
                ids,
            ),
    decreases batches.len(),
{
    let requests = first_requests(local, batches, ids);
    if batches.len() > 0 {
        let last = batches.len() - 1;
        let rest = batches.drop_last();
        let front = first_requests(local, rest, ids);
        let batch = batches[last];
        lemma_first_requests_are_planned(local, rest, ids);
        lemma_requests_to_are_exact(local, batch, ids[last], batch.nodes@.len());
        assert(batch.nodes@.take(batch.nodes@.len() as int) =~= batch.nodes@);
        let more = requests_to(
            local,
            batch.nodes@,
            batch.keys@,
            ids[last].batch_id,
            ids[last].request_ids@,
        );
        assert forall|i: int| 0 <= i < requests.len() implies is_planned(
            #[trigger] requests[i],
            local,
            batches,
            ids,
        ) by {
            if i < front.len() {
                assert(requests[i] == front[i]);
                assert(is_planned(front[i], local, rest, ids));
                let b = choose|b: int|
                    0 <= b < rest.len() && asks_one_of(
                        front[i],
                        local,
                        #[trigger] rest[b],
                        ids[b],
                        rest[b].nodes@.len(),
                    );
                assert(batches[b] == rest[b]);
            } else {
                assert(requests[i] == more[i - front.len()]);
                assert(asks_one_of(
                    requests[i],
                    local,
                    batches[last],
                    ids[last],
                    batches[last].nodes@.len(),
                ));
            }
        }
    }
}

proof fn lemma_first_request_to(
    local: NodeId,
    batches: Seq<PlannedBatch>,
    ids: Seq<BatchIds>,
    b: int,
    m: int,
) -> (i: int)
    requires
        0 <= b < batches.len(),
        0 <= m < batches[b].nodes@.len(),
        batches[b].nodes@[m] != local,
    ensures
        0 <= i < first_requests(local, batches, ids).len(),
        asks_about(first_requests(local, batches, ids)[i], batches[b], ids[b], m),
    decreases batches.len(),
{
    let requests = first_requests(local, batches, ids);
    let last = batches.len() - 1;
    let rest = batches.drop_last();
    let front = first_requests(local, rest, ids);
    if b < last {
        assert(rest[b] == batches[b]);
        let i = lemma_first_request_to(local, rest, ids, b, m);
        assert(requests[i] == front[i]);
        i
    } else {
        let batch = batches[last];
        lemma_requests_to_are_exact(local, batch, ids[last], batch.nodes@.len());
        assert(batch.nodes@.take(batch.nodes@.len() as int) =~= batch.nodes@);
        let more = requests_to(
            local,
            batch.nodes@,
            batch.keys@,
            ids[last].batch_id,
            ids[last].request_ids@,
        );
        let q = choose|q: int|
            0 <= q < more.len() && #[trigger] asks_about(more[q], batch, ids[last], m);
        assert(requests[front.len() + q] == more[q]);
        front.len() + q
    }
}

/// The first requests ask each node of each batch, other than the originator, about exactly the keys
/// of the batch, and there are no other first requests.
pub proof fn lemma_first_requests_are_exact(
    local: NodeId,
    batches: Seq<PlannedBatch>,
    ids: Seq<BatchIds>,
)
    ensures
        ({
            let requests = first_requests(local, batches, ids);
            &&& forall|i: int|
                0 <= i < requests.len() ==> is_planned(#[trigger] requests[i], local, batches, ids)
            &&& forall|b: int, m: int|
                0 <= b < batches.len() && 0 <= m < batches[b].nodes@.len()
                    && (#[trigger] batches[b].nodes@[m]) != local ==> exists|i: int|
                    0 <= i < requests.len() && #[trigger] asks_about(
                        requests[i],
                        batches[b],
                        ids[b],
                        m,
                    )
        }),
        batches.len() > 0 ==> first_requests(local, batches, ids).len() == first_requests(
            local,
            batches.drop_last(),
            ids,
        ).len() + batches.last().nodes@.filter(|n: NodeId| n != local).len(),
        batches.len() == 0 ==> first_requests(local, batches, ids).len() == 0,
{
    let requests = first_requests(local, batches, ids);
    lemma_first_requests_are_planned(local, batches, ids);
    assert forall|b: int, m: int|
        0 <= b < batches.len() && 0 <= m < batches[b].nodes@.len() && (
        #[trigger] batches[b].nodes@[m]) != local implies exists|i: int|
        0 <= i < requests.len() && #[trigger] asks_about(requests[i], batches[b], ids[b], m) by {
        let i = lemma_first_request_to(local, batches, ids, b, m);
        assert(asks_about(requests[i], batches[b], ids[b], m));
    }
    if batches.len() > 0 {
        let batch = batches.last();
        lemma_requests_to_are_exact(
            local,
            batch,
            ids[batches.len() - 1],
            batch.nodes@.len(),
        );
        assert(batch.nodes@.take(batch.nodes@.len() as int) =~= batch.nodes@);
    }
}

/// How keys are planned into batches: each key is in the batch of its k-bucket, which holds exactly
/// the keys of the bucket in their order, and no two batches are for one bucket. A batch goes to as
/// many of the contacts in the bucket as are allowed, the first ones, or stays with the originator
/// where there are none.
pub proof fn lemma_plan_is_exact(
    batches: Seq<PlannedBatch>,
    table: RoutingTable,
    cap: Option<nat>,
    keys: Seq<NodeId>,
)
    requires
        is_plan(batches, table, cap, keys),
        !keys.contains(table.local),
    ensures
        forall|b: int|
            0 <= b < batches.len() ==> (#[trigger] batches[b]).keys@.len() > 0 && ({
                let index = bucket_index(table.local, batches[b].keys@[0]);
                let bucket = table.buckets@[index as int]@;
                &&& batches[b].keys@ == keys.filter(
                    |k: NodeId| bucket_index(table.local, k) == index,
                )
                &&& bucket.len() == 0 || cap == Some(0nat) ==> batches[b].nodes@
                    == seq![table.local]
                &&& bucket.len() > 0 && cap is None ==> batches[b].nodes@ == bucket
                &&& bucket.len() > 0 && cap is Some && cap->0 > 0 ==> batches[b].nodes@
                    == bucket.take(
                    if cap->0 < bucket.len() {
                        cap->0 as int
                    } else {
                        bucket.len() as int
                    },
                )
            }),
        forall|a: int, b: int|
            0 <= a < b < batches.len() ==> bucket_index(
                table.local,
                (#[trigger] batches[a]).keys@[0],
            ) != bucket_index(table.local, (#[trigger] batches[b]).keys@[0]),
        forall|k: NodeId| #[trigger]
            keys.contains(k) ==> exists|b: int|
                0 <= b < batches.len() && (#[trigger] batches[b]).keys@.contains(k),
{
    let local = table.local;
    let pairs = bucketed(local, keys);
    let by_bucket = choose|by_bucket: Seq<(usize, Seq<NodeId>)>| #[trigger]
        is_grouping(by_bucket, pairs) && by_bucket.len() == batches.len() && forall|i: int|
            0 <= i < batches.len() ==> (#[trigger] batches[i]).keys@ == by_bucket[i].1;
    assert forall|b: int| 0 <= b < batches.len() implies (#[trigger] batches[b]).keys@.len() > 0
        && bucket_index(local, batches[b].keys@[0]) == by_bucket[b].0 by {
        lemma_group_in_bucket(local, keys, by_bucket[b].0);
        assert(batches[b].keys@ == by_bucket[b].1);
        let key = batches[b].keys@[0];
        assert(key == values_of(pairs, by_bucket[b].0)[0]);
        assert(keys.contains(key));
        lemma_bucket_index_bound(local, key);
    }
    assert forall|b: int| 0 <= b < batches.len() implies (#[trigger] batches[b]).keys@.len() > 0
        && ({
        let index = bucket_index(local, batches[b].keys@[0]);
        let bucket = table.buckets@[index as int]@;
        &&& batches[b].keys@ == keys.filter(|k: NodeId| bucket_index(local, k) == index)
        &&& bucket.len() == 0 || cap == Some(0nat) ==> batches[b].nodes@ == seq![local]
        &&& bucket.len() > 0 && cap is None ==> batches[b].nodes@ == bucket
        &&& bucket.len() > 0 && cap is Some && cap->0 > 0 ==> batches[b].nodes@ == bucket.take(
            if cap->0 < bucket.len() {
                cap->0 as int
            } else {
                bucket.len() as int
            },
        )
    }) by {
        let key = batches[b].keys@[0];
        let index = bucket_index(local, key);
        let bucket = table.buckets@[index as int]@;
        lemma_bucketed_by(
            local,
            keys,
            by_bucket[b].0,
            |k: NodeId| bucket_index(local, k) == index,
        );
        assert(batches[b].nodes@ == targets(
            table,
            BatchingStrategy::BucketWise,
            None,
            cap,
            batches[b].keys@[0],
        ));
        lemma_without_none(bucket);
        assert(bucket.take(bucket.len() as int) =~= bucket);
    }
    assert forall|a: int, b: int| 0 <= a < b < batches.len() implies bucket_index(
        local,
        (#[trigger] batches[a]).keys@[0],
    ) != bucket_index(local, (#[trigger] batches[b]).keys@[0]) by {
        assert(by_bucket[a].0 != by_bucket[b].0);
    }
    assert forall|k: NodeId| #[trigger] keys.contains(k) implies exists|b: int|
        0 <= b < batches.len() && (#[trigger] batches[b]).keys@.contains(k) by {
        let p = choose|p: int| 0 <= p < keys.len() && keys[p] == k;
        assert(pairs[p].1 == k);
        lemma_values_contain(pairs, p);
        assert(has_group(by_bucket, pairs[p].0));
        let b = choose|b: int|
            0 <= b < by_bucket.len() && (#[trigger] by_bucket[b]).0 == pairs[p].0;
        assert(batches[b].keys@ == by_bucket[b].1);
    }
}

proof fn lemma_bucketed_by(
    local: NodeId,
    keys: Seq<NodeId>,
    index: usize,
    belongs: spec_fn(NodeId) -> bool,
)
    requires
        !keys.contains(local),
        forall|k: NodeId| #[trigger] belongs(k) <==> bucket_index(local, k) == index,
    ensures
        values_of(bucketed(local, keys), index) == keys.filter(belongs),
    decreases keys.len(),
{
    reveal(Seq::filter);
    let all = values_of(bucketed(local, keys), index);
    if keys.len() > 0 {
        let rest = keys.drop_last();
        assert(!rest.contains(local)) by {
            if rest.contains(local) {
                let i = choose|i: int| 0 <= i < rest.len() && rest[i] == local;
                assert(keys[i] == local);
            }
        }
        lemma_bucketed_by(local, rest, index, belongs);
        assert(bucketed(local, keys).drop_last() =~= bucketed(local, rest));
        assert(keys.contains(keys[keys.len() - 1]));
        lemma_bucket_index_bound(local, keys.last());
        assert(belongs(keys.last()) <==> bucket_index(local, keys.last()) == index);
    }
    assert(all =~= keys.filter(belongs));
}

/// Which keys the originator keeps: those of the batches that stay with it, and no others.
pub proof fn lemma_kept_keys_are_exact(local: NodeId, batches: Seq<PlannedBatch>)
    requires
        forall|b: int|
            0 <= b < batches.len() ==> (#[trigger] batches[b]).nodes@.no_duplicates(),
    ensures
        forall|k: NodeId| #[trigger]
            kept_keys(local, batches).contains(k) <==> exists|b: int|
                0 <= b < batches.len() && (#[trigger] batches[b]).nodes@.contains(local)
                    && batches[b].keys@.contains(k),
        batches.len() > 0 ==> kept_keys(local, batches) == kept_keys(local, batches.drop_last())
            + (if batches.last().nodes@.contains(local) {
            batches.last().keys@
        } else {
            Seq::empty()
        }),
        batches.len() == 0 ==> kept_keys(local, batches).len() == 0,
    decreases batches.len(),
{
    let all = kept_keys(local, batches);
    if batches.len() > 0 {
        let rest = batches.drop_last();
        let last = batches.last();
        let front = kept_keys(local, rest);
        assert(forall|b: int| 0 <= b < rest.len() ==> #[trigger] rest[b] == batches[b]);
        lemma_kept_keys_are_exact(local, rest);
        assert(batches[batches.len() - 1] == last);
        lemma_kept_of(local, last.nodes@, last.keys@);
        let added = kept_of(local, last.nodes@, last.keys@);
        assert forall|k: NodeId| #[trigger] all.contains(k) <==> exists|b: int|
            0 <= b < batches.len() && (#[trigger] batches[b]).nodes@.contains(local)
                && batches[b].keys@.contains(k) by {
            if all.contains(k) {
                let i = choose|i: int| 0 <= i < all.len() && all[i] == k;
                if i < front.len() {
                    assert(front[i] == k);
                    assert(front.contains(k));
                    let b = choose|b: int|
                        0 <= b < rest.len() && (#[trigger] rest[b]).nodes@.contains(local)
                            && rest[b].keys@.contains(k);
                    assert(batches[b].nodes@.contains(local));
                } else {
                    assert(added[i - front.len()] == k);
                    assert(batches[batches.len() - 1].keys@.contains(k));
                }
            }
            if exists|b: int|
                0 <= b < batches.len() && (#[trigger] batches[b]).nodes@.contains(local)
                    && batches[b].keys@.contains(k) {
                let b = choose|b: int|
                    0 <= b < batches.len() && (#[trigger] batches[b]).nodes@.contains(local)
                        && batches[b].keys@.contains(k);
                if b < rest.len() {
                    assert(rest[b].nodes@.contains(local));
                    assert(front.contains(k));
                    let i = choose|i: int| 0 <= i < front.len() && front[i] == k;
                    assert(all[i] == k);
                } else {
                    let i = choose|i: int| 0 <= i < last.keys@.len() && last.keys@[i] == k;
                    assert(all[front.len() + i] == k);
                }
            }
        }
    } else {
        assert forall|k: NodeId| !(#[trigger] all.contains(k)) by {}
    }
}

proof fn lemma_kept_of(local: NodeId, nodes: Seq<NodeId>, keys: Seq<NodeId>)
    requires
        nodes.no_duplicates(),
    ensures
        kept_of(local, nodes, keys) == (if nodes.contains(local) {
            keys
        } else {
            Seq::empty()
        }),
    decreases nodes.len(),
{
    let kept = kept_of(local, nodes, keys);
    if nodes.len() > 0 {
        let rest = nodes.drop_last();
        lemma_kept_of(local, rest, keys);
        if rest.contains(local) {
            let i = choose|i: int| 0 <= i < rest.len() && rest[i] == local;
            assert(nodes[i] == local);
            assert(nodes[nodes.len() - 1] != local);
        } else if nodes.last() == local {
            assert(nodes[nodes.len() - 1] == local);
        } else if nodes.contains(local) {
            let i = choose|i: int| 0 <= i < nodes.len() && nodes[i] == local;
            assert(rest[i] == local);
        }
    }
    assert(kept =~= (if nodes.contains(local) {
        keys
    } else {
        Seq::empty()
    }));
}

/// Keys that a node is to be asked about are lined up in one request, all of them, unless there are
/// none or the node is the originator.
pub proof fn lemma_asking_is_exact(
    progress: Progress,
    local: NodeId,
    node: NodeId,
    keys: Seq<NodeId>,
    ids: (u16, u16),
)
    ensures
        ({
            let after = progress.lined_up(local, (false, node), keys, ids);
            &&& after.keys_per_batch == progress.keys_per_batch.insert(ids.1, keys)
            &&& after.pending == progress.pending
            &&& after.requests_per_node == progress.requests_per_node
            &&& after.responses_per_batch == progress.responses_per_batch
            &&& after.addressed == progress.addressed
            &&& if keys.len() == 0 || node == local {
                after.outbound == progress.outbound && after.requests_per_batch
                    == progress.requests_per_batch
            } else {
                &&& after.outbound.len() == progress.outbound.len() + 1
                &&& after.outbound.drop_last() == progress.outbound
                &&& after.outbound.last() == (Departing {
                    to: node,
                    protocol: seq![68u8, 50u8, 83u8],
                    request_id: ids.0,
                    batch_id: ids.1,
                    message: Message::Keys(ids.0, keys),
                })
                &&& after.requests_per_batch.dom().contains(ids.1)
                &&& after.requests_per_batch[ids.1].contains(ids.0)
                &&& forall|r: u16| #[trigger]
                    after.requests_per_batch[ids.1].contains(r) ==> r == ids.0
                        || progress.requests_per_batch.dom().contains(ids.1)
                        && progress.requests_per_batch[ids.1].contains(r)
            }
        }),
{
    let after = progress.lined_up(local, (false, node), keys, ids);
    if !(keys.len() == 0 || node == local) {
        assert(after.outbound.drop_last() =~= progress.outbound);
    }
}

/// Samples that a node is to be handed are lined up in one request: all those that it was not handed
/// before, with the bytes that stand for them. There is no request only where there are none, or
/// where the node is the originator.
pub proof fn lemma_handing_over_is_exact(
    progress: Progress,
    local: NodeId,
    node: NodeId,
    keys: Seq<NodeId>,
    ids: (u16, u16),
)
    ensures
        ({
            let after = progress.lined_up(local, (true, node), keys, ids);
            let known = progress.addressed.dom().contains(node);
            let fresh = exists|k: NodeId| #[trigger]
                keys.contains(k) && !(known && progress.addressed[node].contains(k));
            &&& after.pending == progress.pending
            &&& after.requests_per_node == progress.requests_per_node
            &&& after.requests_per_batch == progress.requests_per_batch
            &&& after.responses_per_batch == progress.responses_per_batch
            &&& !fresh || node == local ==> after.outbound == progress.outbound
            &&& fresh && node != local ==> {
                &&& after.outbound.len() == progress.outbound.len() + 1
                &&& after.outbound.drop_last() == progress.outbound
                &&& after.outbound.last().to == node
                &&& after.outbound.last().protocol == seq![68u8, 50u8, 83u8]
                &&& after.outbound.last().request_id == ids.0
                &&& after.outbound.last().batch_id == ids.1
                &&& after.outbound.last().message matches Message::Samples(samples) && {
                    &&& forall|k: NodeId| #[trigger]
                        keys.contains(k) && !(known && progress.addressed[node].contains(k))
                            ==> samples.contains((k, seq![121u8, 101u8, 112u8]))
                    &&& forall|i: int|
                        0 <= i < samples.len() ==> keys.contains((#[trigger] samples[i]).0) && !(
                        known && progress.addressed[node].contains(samples[i].0)) && samples[i].1
                            == seq![121u8, 101u8, 112u8]
                    &&& keys.no_duplicates() ==> forall|i: int, j: int|
                        0 <= i < j < samples.len() ==> (#[trigger] samples[i]).0 != (
                        #[trigger] samples[j]).0
                }
            }
        }),
{
    let after = progress.lined_up(local, (true, node), keys, ids);
    let fresh = progress.fresh(node, keys);
    let known = progress.addressed.dom().contains(node);
    lemma_unseen(keys, set_under(progress.addressed, node));
    assert forall|k: NodeId| #[trigger] keys.contains(k) && !(known
        && progress.addressed[node].contains(k)) implies fresh.len() > 0 && fresh.contains(k) by {
        assert(fresh.contains(k));
    }
    if fresh.len() > 0 {
        assert(fresh.contains(fresh[0]));
        assert(keys.contains(fresh[0]));
    }
    if fresh.len() > 0 && node != local {
        let samples = with_payload(fresh);
        assert(after.outbound.drop_last() =~= progress.outbound);
        assert forall|k: NodeId| #[trigger]
            keys.contains(k) && !(known && progress.addressed[node].contains(k))
                implies samples.contains((k, seq![121u8, 101u8, 112u8])) by {
            assert(fresh.contains(k));
            let i = choose|i: int| 0 <= i < fresh.len() && fresh[i] == k;
            assert(samples[i] == (k, seq![121u8, 101u8, 112u8]));
        }
        assert forall|i: int| 0 <= i < samples.len() implies keys.contains(
            (#[trigger] samples[i]).0,
        ) && !(known && progress.addressed[node].contains(samples[i].0)) && samples[i].1
            == seq![121u8, 101u8, 112u8] by {
            assert(fresh.contains(fresh[i]));
        }
    }
}

/// A turn sends the request at the head of the line exactly if there is one, fewer requests are
/// outstanding than may be, and its node has none. If only its node is busy the request goes to the
/// end of the line, and otherwise nothing changes.
pub proof fn lemma_turn_is_exact(progress: Progress, parallelism: nat)
    ensures
        ({
            let after = progress.advanced(parallelism);
            let room = progress.outbound.len() > 0 && progress.pending.len() < parallelism;
            let busy = progress.requests_per_node.dom().contains(progress.outbound[0].to);
            &&& progress.can_send(parallelism) <==> room && !busy
            &&& room && !busy ==> {
                &&& after.outbound == progress.outbound.skip(1)
                &&& after.pending == progress.pending.insert(progress.outbound[0].request_id)
                &&& after.requests_per_node == progress.requests_per_node.insert(
                    progress.outbound[0].to,
                    progress.outbound[0].request_id,
                )
            }
            &&& room && busy ==> {
                &&& after.outbound == progress.outbound.skip(1).push(progress.outbound[0])
                &&& after.pending == progress.pending
                &&& after.requests_per_node == progress.requests_per_node
            }
            &&& !room ==> after == progress
            &&& after.keys_per_batch == progress.keys_per_batch
            &&& after.requests_per_batch == progress.requests_per_batch
            &&& after.responses_per_batch == progress.responses_per_batch
            &&& after.addressed == progress.addressed
        }),
{
    if progress.outbound.len() > 0 {
        assert(progress.outbound.drop_first() =~= progress.outbound.skip(1));
    }
}

/// No answer is forgotten: what the nodes that were asked about a batch have answered so far is kept,
/// and the new answer is added to it, key by key.
pub proof fn lemma_answers_add_up(
    progress: Progress,
    request_id: u16,
    batch_id: u16,
    from: NodeId,
    closer: Seq<NodeId>,
)
    ensures
        ({
            let noted = progress.noted(request_id, batch_id, from, closer);
            let before = if progress.responses_per_batch.dom().contains(batch_id) {
                progress.responses_per_batch[batch_id]
            } else {
                Seq::empty()
            };
            let keys = progress.keys_per_batch[batch_id];
            &&& noted.responses_per_batch.dom() == progress.responses_per_batch.dom().insert(
                batch_id,
            )
            &&& noted.responses_per_batch[batch_id] == progress.offers_with(
                batch_id,
                from,
                closer,
            )
            &&& before.is_prefix_of(noted.responses_per_batch[batch_id])
            &&& forall|k: NodeId, next: (bool, NodeId)| #[trigger]
                noted.responses_per_batch[batch_id].contains((k, next)) <==> before.contains(
                    (k, next),
                ) || keys.contains(k) && next_for(closer, from, k).contains(next)
            &&& forall|b: u16|
                b != batch_id && #[trigger] progress.responses_per_batch.dom().contains(b)
                    ==> noted.responses_per_batch[b] == progress.responses_per_batch[b]
            &&& noted.pending == progress.pending
            &&& noted.requests_per_node == progress.requests_per_node
            &&& noted.outbound == progress.outbound
            &&& noted.keys_per_batch == progress.keys_per_batch
        }),
{
    let noted = progress.noted(request_id, batch_id, from, closer);
    let before = list_under(progress.responses_per_batch, batch_id);
    let keys = progress.keys_per_batch[batch_id];
    let added = offers(closer, from, keys);
    let all = noted.responses_per_batch[batch_id];
    assert(all == before + added);
    assert(all.subrange(0, before.len() as int) =~= before);
    assert(noted.responses_per_batch.dom() =~= progress.responses_per_batch.dom().insert(batch_id));
    assert forall|k: NodeId, next: (bool, NodeId)| #[trigger]
        all.contains((k, next)) <==> before.contains((k, next)) || keys.contains(k) && next_for(
            closer,
            from,
            k,
        ).contains(next) by {
        lemma_offers_are_exact(closer, from, keys, k);
        assert(added.contains((k, next)) <==> keys.contains(k) && next_for(
            closer,
            from,
            k,
        ).contains(next));
        if all.contains((k, next)) {
            let p = choose|p: int| 0 <= p < all.len() && all[p] == (k, next);
            if p < before.len() {
                assert(before[p] == (k, next));
            } else {
                assert(added[p - before.len()] == (k, next));
            }
        }
        if before.contains((k, next)) {
            let p = choose|p: int| 0 <= p < before.len() && before[p] == (k, next);
            assert(all[p] == (k, next));
        }
        if added.contains((k, next)) {
            let p = choose|p: int| 0 <= p < added.len() && added[p] == (k, next);
            assert(all[before.len() + p] == (k, next));
        }
    }
}

/// What an answer, or the end of the time for one, settles: its own request and its own node, and
/// nothing else. A dissemination is over exactly if no request is outstanding and none is in line.
pub proof fn lemma_settling_is_exact(progress: Progress, request_id: u16, from: NodeId)
    ensures
        progress.settled(request_id, from) == (Progress {
            pending: progress.pending.remove(request_id),
            requests_per_node: progress.requests_per_node.remove(from),
            keys_per_batch: progress.keys_per_batch,
            requests_per_batch: progress.requests_per_batch,
            responses_per_batch: progress.responses_per_batch,
            outbound: progress.outbound,
            addressed: progress.addressed,
        }),
        progress.without_request(request_id) == (Progress {
            pending: progress.pending.remove(request_id),
            requests_per_node: progress.requests_per_node,
            keys_per_batch: progress.keys_per_batch,
            requests_per_batch: progress.requests_per_batch,
            responses_per_batch: progress.responses_per_batch,
            outbound: progress.outbound,
            addressed: progress.addressed,
        }),
        progress.is_done() <==> progress.pending.len() == 0 && progress.outbound.len() == 0,
        progress.awaits(request_id, from) <==> progress.pending.contains(request_id)
            && progress.requests_per_node.dom().contains(from),
{
}

/// Whether a request in line is for a group of keys: it asks the node about all of them, or hands it
/// a sample under one of them.
pub open spec fn is_for_group(
    request: Departing,
    group: ((bool, NodeId), Seq<NodeId>),
    ids: (u16, u16),
    key: NodeId,
) -> bool {
    &&& request.to == group.0.1
    &&& request.request_id == ids.0
    &&& request.batch_id == ids.1
    &&& match request.message {
        Message::Keys(_, keys) => !group.0.0 && keys == group.1,
        Message::Samples(samples) => group.0.0 && samples.contains(
            (key, seq![121u8, 101u8, 112u8]),
        ),
        _ => false,
    }
}

/// Every group is lined up: for each key of each group there is a request in line to the group's
/// node that asks about the key or hands over its sample, unless the node is the originator or was
/// handed the sample before.
pub proof fn lemma_every_group_is_lined_up(
    progress: Progress,
    local: NodeId,
    groups: Seq<((bool, NodeId), Seq<NodeId>)>,
    ids: Seq<(u16, u16)>,
)
    requires
        forall|i: int, j: int|
            0 <= i < j < groups.len() ==> (#[trigger] groups[i]).0 != (#[trigger] groups[j]).0,
    ensures
        ({
            let after = progress.lined_up_all(local, groups, ids);
            &&& progress.outbound.is_prefix_of(after.outbound)
            &&& after.outbound.len() <= progress.outbound.len() + groups.len()
            &&& forall|g: int, key: NodeId|
                #![trigger groups[g].1.contains(key)]
                0 <= g < groups.len() && groups[g].1.contains(key) && groups[g].0.1 != local && (
                groups[g].0.0 ==> !set_under(progress.addressed, groups[g].0.1).contains(key))
                    ==> exists|i: int|
                    progress.outbound.len() <= i < after.outbound.len() && is_for_group(
                        #[trigger] after.outbound[i],
                        groups[g],
                        ids[g],
                        key,
                    )
            &&& forall|n: NodeId|
                (forall|g: int| 0 <= g < groups.len() ==> (#[trigger] groups[g]).0 != (true, n))
                    ==> #[trigger] set_under(after.addressed, n) == set_under(
                    progress.addressed,
                    n,
                )
        }),
    decreases groups.len(),
{
    let after = progress.lined_up_all(local, groups, ids);
    if groups.len() == 0 {
        assert(progress.outbound.subrange(0, progress.outbound.len() as int)
            =~= progress.outbound);
    } else {
        let rest = groups.drop_last();
        let last = groups.len() - 1;
        let (next, keys) = groups[last];
        assert forall|i: int, j: int| 0 <= i < j < rest.len() implies (#[trigger] rest[i]).0 != (
        #[trigger] rest[j]).0 by {
            assert(groups[i].0 != groups[j].0);
        }
        lemma_every_group_is_lined_up(progress, local, rest, ids);
        let before = progress.lined_up_all(local, rest, ids);
        assert(after == before.lined_up(local, next, keys, ids[last]));
        lemma_asking_is_exact(before, local, next.1, keys, ids[last]);
        lemma_handing_over_is_exact(before, local, next.1, keys, ids[last]);
        lemma_samples_are_sent_once(before, local, next.1, keys, ids[last]);
        assert(after.outbound == before.outbound || after.outbound == before.outbound.push(
            after.outbound.last(),
        ));
        assert(after.outbound.subrange(0, progress.outbound.len() as int)
            =~= before.outbound.subrange(0, progress.outbound.len() as int));
        assert forall|g: int, key: NodeId|
            #![trigger groups[g].1.contains(key)]
            0 <= g < groups.len() && groups[g].1.contains(key) && groups[g].0.1 != local && (
            groups[g].0.0 ==> !set_under(progress.addressed, groups[g].0.1).contains(
                key,
            )) implies exists|i: int|
            progress.outbound.len() <= i < after.outbound.len() && is_for_group(
                #[trigger] after.outbound[i],
                groups[g],
                ids[g],
                key,
            ) by {
            if g < last {
                assert(rest[g] == groups[g]);
                assert(rest[g].1.contains(key));
                let i = choose|i: int|
                    progress.outbound.len() <= i < before.outbound.len() && is_for_group(
                        #[trigger] before.outbound[i],
                        rest[g],
                        ids[g],
                        key,
                    );
                assert(after.outbound[i] == before.outbound[i]);
            } else {
                let i = after.outbound.len() - 1;
                if next.0 {
                    assert(forall|h: int|
                        0 <= h < rest.len() ==> (#[trigger] rest[h]).0 != (true, next.1)) by {
                        assert forall|h: int| 0 <= h < rest.len() implies (#[trigger] rest[h]).0
                            != (true, next.1) by {
                            assert(groups[h].0 != groups[last].0);
                        }
                    }
                    assert(set_under(before.addressed, next.1) == set_under(
                        progress.addressed,
                        next.1,
                    ));
                }
                assert(keys.contains(key));
                assert(is_for_group(after.outbound[i], groups[g], ids[g], key));
            }
        }
        assert forall|n: NodeId|
            (forall|g: int| 0 <= g < groups.len() ==> (#[trigger] groups[g]).0 != (
                true,
                n,
            )) implies #[trigger] set_under(after.addressed, n) == set_under(
            progress.addressed,
            n,
        ) by {
            assert forall|g: int| 0 <= g < rest.len() implies (#[trigger] rest[g]).0 != (
                true,
                n,
            ) by {
                assert(groups[g].0 != (true, n));
            }
            assert(groups[last].0 != (true, n));
            assert(set_under(before.addressed, n) == set_under(progress.addressed, n));
        }
    }
}

/// Which answers make sense: those to a request of a known batch; and if the request is open, its
/// answer is awaited from the node, and neither the answer nor the keys of the batch name the node.
/// Once all answers on a batch are in, only what was noted of them is dropped.
pub proof fn lemma_accepted_answers(
    progress: Progress,
    request_id: u16,
    batch_id: u16,
    from: NodeId,
    closer: Seq<NodeId>,
)
    ensures
        progress.accepts(request_id, batch_id, from, closer) <==> {
            &&& progress.requests_per_batch.dom().contains(batch_id)
            &&& progress.requests_per_batch[batch_id].contains(request_id) ==> {
                &&& progress.pending.contains(request_id)
                &&& progress.requests_per_node.dom().contains(from)
                &&& progress.keys_per_batch.dom().contains(batch_id)
                &&& forall|i: int| 0 <= i < closer.len() ==> #[trigger] closer[i] != from
                &&& forall|k: int|
                    0 <= k < progress.keys_per_batch[batch_id].len()
                        ==> #[trigger] progress.keys_per_batch[batch_id][k] != from
            }
        },
        progress.closed(batch_id) == (Progress {
            pending: progress.pending,
            requests_per_node: progress.requests_per_node,
            keys_per_batch: progress.keys_per_batch,
            requests_per_batch: progress.requests_per_batch,
            responses_per_batch: progress.responses_per_batch.remove(batch_id),
            outbound: progress.outbound,
            addressed: progress.addressed,
        }),
{
    if forall|i: int| 0 <= i < closer.len() ==> #[trigger] closer[i] != from {
        assert(!closer.contains(from));
    }
    let keys = progress.keys_per_batch[batch_id];
    if forall|k: int| 0 <= k < keys.len() ==> #[trigger] keys[k] != from {
        assert(!keys.contains(from));
    }
}

/// What the originator does at a turn: it sends the request at the head of the line, as it is,
/// exactly if one can leave. After an answer it stops exactly if no request is outstanding and none
/// is in line.
pub proof fn lemma_actions_are_exact(
    before: Progress,
    parallelism: nat,
    after: Progress,
    action: Action,
)
    ensures
        is_turn(before, parallelism, after, action) ==> {
            let can_leave = before.outbound.len() > 0 && before.pending.len() < parallelism
                && !before.requests_per_node.dom().contains(before.outbound[0].to);
            &&& action is Send <==> can_leave
            &&& action is Idle <==> !can_leave
            &&& action matches Action::Send(request) ==> request@ == before.outbound[0]
            &&& after == before.advanced(parallelism)
        },
        ends_or_turns(before, parallelism, after, action) ==> {
            let over = before.outbound.len() == 0 && before.pending.len() == 0;
            &&& action is Finished <==> over
            &&& over ==> after == before
            &&& !over ==> is_turn(before, parallelism, after, action)
        },
{
}

/// A dissemination stands in the model for what it keeps, with nothing left out but its limits,
/// which stay the same.
pub proof fn lemma_progress_view(dissemination: Dissemination, other: Dissemination)
    ensures
        dissemination.same_limits(other) <==> dissemination.local == other.local
            && dissemination.cap == other.cap && dissemination.parallelism == other.parallelism,
        dissemination@.pending == dissemination.pending@.dom(),
        dissemination@.requests_per_node == dissemination.requests_per_node@,
        dissemination@.outbound.len() == dissemination.outbound@.len(),
        forall|i: int|
            0 <= i < dissemination.outbound@.len() ==> {
                let request = dissemination.outbound@[i];
                let model = #[trigger] dissemination@.outbound[i];
                &&& model.to == request.to
                &&& model.protocol == request.protocol@
                &&& model.request_id == request.request_id
                &&& model.batch_id == request.batch_id
                &&& model.message == request.message@
            },
        dissemination@.keys_per_batch.dom() == dissemination.keys_per_batch@.dom(),
        forall|b: u16|
            dissemination.keys_per_batch@.dom().contains(b)
                ==> #[trigger] dissemination@.keys_per_batch[b]
                == dissemination.keys_per_batch@[b]@,
        dissemination@.requests_per_batch.dom() == dissemination.requests_per_batch@.dom(),
        forall|b: u16|
            dissemination.requests_per_batch@.dom().contains(b)
                ==> #[trigger] dissemination@.requests_per_batch[b]
                == dissemination.requests_per_batch@[b]@.dom(),
        dissemination@.addressed.dom() == dissemination.addressed@.dom(),
        forall|n: NodeId|
            dissemination.addressed@.dom().contains(n) ==> #[trigger] dissemination@.addressed[n]
                == dissemination.addressed@[n]@.dom(),
        dissemination@.responses_per_batch.dom() == dissemination.responses_per_batch@.dom(),
        forall|b: u16|
            dissemination.responses_per_batch@.dom().contains(b)
                ==> #[trigger] dissemination@.responses_per_batch[b] == tagged(
                dissemination.responses_per_batch@[b]@,
            ),
{
    assert(dissemination@.keys_per_batch.dom() =~= dissemination.keys_per_batch@.dom());
    assert(dissemination@.requests_per_batch.dom() =~= dissemination.requests_per_batch@.dom());
    assert(dissemination@.addressed.dom() =~= dissemination.addressed@.dom());
    assert(dissemination@.responses_per_batch.dom() =~= dissemination.responses_per_batch@.dom());
}

/// Requests stand in the model for what they carry, one by one, with nothing left out. Before
/// anything was sent nothing is kept.
pub proof fn lemma_requests_view(requests: Seq<Outbound>)
    ensures
        departing(requests).len() == requests.len(),
        forall|i: int|
            0 <= i < requests.len() ==> {
                let model = #[trigger] departing(requests)[i];
                &&& model.to == requests[i].to
                &&& model.protocol == requests[i].protocol@
                &&& model.request_id == requests[i].request_id
                &&& model.batch_id == requests[i].batch_id
                &&& model.message == requests[i].message@
            },
        Progress::start().pending == Set::<u16>::empty(),
        Progress::start().outbound.len() == 0,
        Progress::start().keys_per_batch == Map::<u16, Seq<NodeId>>::empty(),
        Progress::start().requests_per_batch == Map::<u16, Set<u16>>::empty(),
        Progress::start().requests_per_node == Map::<NodeId, u16>::empty(),
        Progress::start().responses_per_batch == Map::<
            u16,
            Seq<(NodeId, (bool, NodeId))>,
        >::empty(),
        Progress::start().addressed == Map::<NodeId, Set<NodeId>>::empty(),
{
}

/// Whether one of `requests` is under the identifiers of a batch and of a request.
pub open spec fn is_sent_under(requests: Seq<Departing>, batch_id: u16, request_id: u16) -> bool {
    exists|i: int|
        0 <= i < requests.len() && (#[trigger] requests[i]).batch_id == batch_id
            && requests[i].request_id == request_id
}

/// Whether one of `requests` is to a node, under the identifier of a request.
pub open spec fn is_sent_to(requests: Seq<Departing>, to: NodeId, request_id: u16) -> bool {
    exists|i: int|
        0 <= i < requests.len() && (#[trigger] requests[i]).to == to && requests[i].request_id
            == request_id
}

/// Whether what is kept of requests that were sent is what was sent.
pub open spec fn keeps_track(progress: Progress, requests: Seq<Departing>) -> bool {
    &&& forall|r: u16| #[trigger]
        progress.pending.contains(r) <==> exists|i: int|
            0 <= i < requests.len() && (#[trigger] requests[i]).request_id == r
    &&& forall|n: NodeId| #[trigger]
        progress.requests_per_node.dom().contains(n) <==> exists|i: int|
            0 <= i < requests.len() && (#[trigger] requests[i]).to == n
    &&& forall|n: NodeId| #[trigger]
        progress.requests_per_node.dom().contains(n) ==> is_sent_to(
            requests,
            n,
            progress.requests_per_node[n],
        )
    &&& forall|b: u16, r: u16| #[trigger]
        set_under(progress.requests_per_batch, b).contains(r) <==> is_sent_under(requests, b, r)
}

proof fn lemma_opened_keeps_track(progress: Progress, requests: Seq<Departing>, request: Departing)
    requires
        keeps_track(progress, requests),
    ensures
        keeps_track(
            progress.opened(request.batch_id, request.request_id, request.to),
            requests.push(request),
        ),
{
    let after = progress.opened(request.batch_id, request.request_id, request.to);
    let all = requests.push(request);
    assert(all[requests.len() as int] == request);
    assert forall|i: int| 0 <= i < requests.len() implies #[trigger] all[i] == requests[i] by {}
    assert forall|r: u16| #[trigger]
        after.pending.contains(r) <==> exists|i: int|
            0 <= i < all.len() && (#[trigger] all[i]).request_id == r by {
        if progress.pending.contains(r) {
            let i = choose|i: int|
                0 <= i < requests.len() && (#[trigger] requests[i]).request_id == r;
            assert(all[i].request_id == r);
        }
        if exists|i: int| 0 <= i < all.len() && (#[trigger] all[i]).request_id == r {
            let i = choose|i: int| 0 <= i < all.len() && (#[trigger] all[i]).request_id == r;
            if i < requests.len() {
                assert(requests[i].request_id == r);
            }
        }
    }
    assert forall|n: NodeId| #[trigger]
        after.requests_per_node.dom().contains(n) <==> exists|i: int|
            0 <= i < all.len() && (#[trigger] all[i]).to == n by {
        if progress.requests_per_node.dom().contains(n) {
            let i = choose|i: int| 0 <= i < requests.len() && (#[trigger] requests[i]).to == n;
            assert(all[i].to == n);
        }
        if exists|i: int| 0 <= i < all.len() && (#[trigger] all[i]).to == n {
            let i = choose|i: int| 0 <= i < all.len() && (#[trigger] all[i]).to == n;
            if i < requests.len() {
                assert(requests[i].to == n);
            }
        }
    }
    assert forall|n: NodeId| #[trigger]
        after.requests_per_node.dom().contains(n) implies is_sent_to(
        all,
        n,
        after.requests_per_node[n],
    ) by {
        if n != request.to {
            assert(progress.requests_per_node.dom().contains(n));
            let i = choose|i: int|
                0 <= i < requests.len() && (#[trigger] requests[i]).to == n
                    && requests[i].request_id == progress.requests_per_node[n];
            assert(all[i].to == n);
        }
    }
    assert forall|b: u16, r: u16| #[trigger]
        set_under(after.requests_per_batch, b).contains(r) <==> is_sent_under(all, b, r) by {
        assert(set_under(progress.requests_per_batch, b).contains(r) <==> is_sent_under(
            requests,
            b,
            r,
        ));
        if is_sent_under(requests, b, r) {
            let i = choose|i: int|
                0 <= i < requests.len() && (#[trigger] requests[i]).batch_id == b
                    && requests[i].request_id == r;
            assert(all[i].batch_id == b);
        }
        if is_sent_under(all, b, r) {
            let i = choose|i: int|
                0 <= i < all.len() && (#[trigger] all[i]).batch_id == b && all[i].request_id == r;
            if i < requests.len() {
                assert(requests[i].batch_id == b);
            }
        }
    }
}

proof fn lemma_opened_to_keeps_track(
    progress: Progress,
    requests: Seq<Departing>,
    local: NodeId,
    nodes: Seq<NodeId>,
    keys: Seq<NodeId>,
    batch_id: u16,
    request_ids: Seq<u16>,
)
    requires
        keeps_track(progress, requests),
    ensures
        keeps_track(
            progress.opened_to(local, nodes, batch_id, request_ids),
            requests + requests_to(local, nodes, keys, batch_id, request_ids),
        ),
    decreases nodes.len(),
{
    let more = requests_to(local, nodes, keys, batch_id, request_ids);
    if nodes.len() == 0 {
        assert(requests + more =~= requests);
    } else {
        let last = nodes.len() - 1;
        let rest = nodes.drop_last();
        let front = requests_to(local, rest, keys, batch_id, request_ids);
        lemma_opened_to_keeps_track(
            progress,
            requests,
            local,
            rest,
            keys,
            batch_id,
            request_ids,
        );
        if nodes[last] != local {
            let request = more.last();
            lemma_opened_keeps_track(
                progress.opened_to(local, rest, batch_id, request_ids),
                requests + front,
                request,
            );
            assert(requests + more =~= (requests + front).push(request));
        }
    }
}

proof fn lemma_opened_all_keeps_track(
    local: NodeId,
    batches: Seq<PlannedBatch>,
    ids: Seq<BatchIds>,
)
    ensures
        keeps_track(
            Progress::start().opened_all(local, batches, ids),
            first_requests(local, batches, ids),
        ),
    decreases batches.len(),
{
    if batches.len() > 0 {
        let last = batches.len() - 1;
        let rest = batches.drop_last();
        let before = Progress::start().opened_all(local, rest, ids);
        lemma_opened_all_keeps_track(local, rest, ids);
        let known = Progress {
            keys_per_batch: before.keys_per_batch.insert(ids[last].batch_id, batches[last].keys@),
            ..before
        };
        assert(keeps_track(known, first_requests(local, rest, ids)));
        lemma_opened_to_keeps_track(
            known,
            first_requests(local, rest, ids),
            local,
            batches[last].nodes@,
            batches[last].keys@,
            ids[last].batch_id,
            ids[last].request_ids@,
        );
    }
}

/// After the first requests were sent, the originator waits for an answer to exactly these: each
/// request is pending, under its batch and under the node that it went to, and nothing else is.
pub proof fn lemma_opening_is_exact(
    local: NodeId,
    batches: Seq<PlannedBatch>,
    ids: Seq<BatchIds>,
)
    ensures
        ({
            let progress = Progress::start().opened_all(local, batches, ids);
            let requests = first_requests(local, batches, ids);
            &&& forall|r: u16| #[trigger]
                progress.pending.contains(r) <==> exists|i: int|
                    0 <= i < requests.len() && (#[trigger] requests[i]).request_id == r
            &&& forall|n: NodeId| #[trigger]
                progress.requests_per_node.dom().contains(n) <==> exists|i: int|
                    0 <= i < requests.len() && (#[trigger] requests[i]).to == n
            &&& forall|n: NodeId| #[trigger]
                progress.requests_per_node.dom().contains(n) ==> is_sent_to(
                    requests,
                    n,
                    progress.requests_per_node[n],
                )
            &&& forall|b: u16, r: u16| #[trigger]
                set_under(progress.requests_per_batch, b).contains(r) <==> is_sent_under(
                    requests,
                    b,
                    r,
                )
        }),
{
    lemma_opened_all_keeps_track(local, batches, ids);
}

proof fn lemma_opened_to_leaves_the_rest(
    progress: Progress,
    local: NodeId,
    nodes: Seq<NodeId>,
    batch_id: u16,
    request_ids: Seq<u16>,
)
    ensures
        ({
            let after = progress.opened_to(local, nodes, batch_id, request_ids);
            &&& after.keys_per_batch == progress.keys_per_batch
            &&& after.responses_per_batch == progress.responses_per_batch
            &&& after.outbound == progress.outbound
            &&& after.addressed == progress.addressed
        }),
    decreases nodes.len(),
{
    if nodes.len() > 0 {
        lemma_opened_to_leaves_the_rest(
            progress,
            local,
            nodes.drop_last(),
            batch_id,
            request_ids,
        );
    }
}

/// After the first requests were sent, the keys of each batch are kept under its identifier, all of
/// them in order. Nothing was answered, no samples were addressed and nothing is in line.
pub proof fn lemma_opening_keeps_the_keys(
    local: NodeId,
    batches: Seq<PlannedBatch>,
    ids: Seq<BatchIds>,
)
    requires
        forall|a: int, b: int|
            0 <= a < b < batches.len() ==> (#[trigger] ids[a]).batch_id != (
            #[trigger] ids[b]).batch_id,
    ensures
        ({
            let progress = Progress::start().opened_all(local, batches, ids);
            &&& forall|b: int|
                0 <= b < batches.len() ==> progress.keys_per_batch.dom().contains(
                    (#[trigger] ids[b]).batch_id,
                ) && progress.keys_per_batch[ids[b].batch_id] == batches[b].keys@
            &&& forall|id: u16| #[trigger]
                progress.keys_per_batch.dom().contains(id) ==> exists|b: int|
                    0 <= b < batches.len() && (#[trigger] ids[b]).batch_id == id
            &&& progress.responses_per_batch == Map::<u16, Seq<(NodeId, (bool, NodeId))>>::empty()
            &&& progress.outbound.len() == 0
            &&& progress.addressed == Map::<NodeId, Set<NodeId>>::empty()
        }),
    decreases batches.len(),
{
    if batches.len() > 0 {
        let last = batches.len() - 1;
        let rest = batches.drop_last();
        let before = Progress::start().opened_all(local, rest, ids);
        lemma_opening_keeps_the_keys(local, rest, ids);
        let known = Progress {
            keys_per_batch: before.keys_per_batch.insert(ids[last].batch_id, batches[last].keys@),
            ..before
        };
        lemma_opened_to_leaves_the_rest(
            known,
            local,
            batches[last].nodes@,
            ids[last].batch_id,
            ids[last].request_ids@,
        );
        let progress = Progress::start().opened_all(local, batches, ids);
        assert(progress.keys_per_batch == known.keys_per_batch);
        assert forall|b: int| 0 <= b < batches.len() implies progress.keys_per_batch.dom().contains(
            (#[trigger] ids[b]).batch_id,
        ) && progress.keys_per_batch[ids[b].batch_id] == batches[b].keys@ by {
            if b < last {
                assert(rest[b] == batches[b]);
                assert(ids[b].batch_id != ids[last].batch_id);
            }
        }
    }
}

} // verus!
