//! A node: what it stores, and how it answers the requests of other nodes.

use vstd::prelude::*;
use crate::allocation::{
    assign, assignments, lemma_assigned_nodes, lemma_each_key_is_assigned, lemma_kept_bound,
    lemma_keys_of_a_node, relay_cap, relay_replication, split_local, targets, RoutingTable,
};
use crate::args::{
    BatchingStrategy, DisseminationArgs, ForwardPolicy, ReplicatePolicy, RoutingStrategy,
};
use crate::collections::{KeyedMap, MapKey};
use crate::frame::{
    decode_frame, encode_frame, frame, frame_id, frame_keys, joined, lemma_frame_round_trip,
    lemma_joined, ID_SIZE, KEY_SIZE, MAX_KEYS,
};
use crate::grouping::{group_contents, group_pairs, lemma_values_witness, values_of};
use crate::ids::{be_value, distance, lists_id, xor_bytes, NodeId};
use crate::messages::{
    dissemination_protocol, dissemination_protocol_id, sample_contents, DisseminationMsg, Message,
};

verus! {

/// The bytes that stand for any sample: `yep` in ASCII.
pub open spec fn payload() -> Seq<u8> {
    seq![121u8, 101u8, 112u8]
}

/// The bytes that stand for any sample.
pub fn sample_payload() -> (bytes: Vec<u8>)
    ensures
        bytes@ == payload(),
{
    let bytes: Vec<u8> = vec![121, 101, 112];
    assert(bytes@ =~= payload());
    bytes
}

/// Counts with one more for a key.
pub open spec fn counted<K>(counts: Map<K, usize>, key: K) -> Map<K, usize> {
    counts.insert(
        key,
        if counts.dom().contains(key) {
            (counts[key] + 1) as usize
        } else {
            1
        },
    )
}

/// Counts with one more for each of `keys`.
pub open spec fn counted_all<K>(counts: Map<K, usize>, keys: Seq<K>) -> Map<K, usize>
    decreases keys.len(),
{
    if keys.len() == 0 {
        counts
    } else {
        counted(counted_all(counts, keys.drop_last()), keys.last())
    }
}

/// Whether no count can overflow while `more` keys are counted.
pub open spec fn has_room<K>(counts: Map<K, usize>, more: nat) -> bool {
    forall|k: K| #[trigger] counts.dom().contains(k) ==> counts[k] + more <= usize::MAX
}

/// Whether no count can overflow while `more` keys are counted.
pub fn room_for<K: MapKey>(counts: &KeyedMap<K, usize>, more: usize) -> (room: bool)
    requires
        counts.wf(),
    ensures
        room == has_room(counts@, more as nat),
{
    proof {
        counts.lemma_listed();
    }
    let mut i: usize = 0;
    while i < counts.len()
        invariant
            i <= counts.listed().len(),
            counts.wf(),
            forall|j: int|
                0 <= j < i ==> (#[trigger] counts.listed()[j]).1 + more <= usize::MAX,
        decreases counts.listed().len() - i,
    {
        if counts.entry(i).1 > usize::MAX - more {
            proof {
                counts.lemma_listed();
                assert(counts@.dom().contains(counts.listed()[i as int].0.model()));
            }
            return false;
        }
        i = i + 1;
    }
    assert forall|k: K::Model| #[trigger] counts@.dom().contains(k) implies counts@[k] + more
        <= usize::MAX by {
        let j = choose|j: int|
            0 <= j < counts.listed().len() && (#[trigger] counts.listed()[j]).0.model() == k;
        assert(counts@[counts.listed()[j].0.model()] == counts.listed()[j].1);
    }
    true
}

fn count<K: MapKey>(counts: &mut KeyedMap<K, usize>, key: K)
    requires
        old(counts).wf(),
        has_room(old(counts)@, 1),
    ensures
        final(counts).wf(),
        final(counts)@ == counted(old(counts)@, key.model()),
{
    let seen: usize = match counts.get(&key) {
        Some(n) => *n,
        None => 0,
    };
    counts.insert(key, seen + 1);
}

fn count_all(counts: &mut KeyedMap<NodeId, usize>, keys: &Vec<NodeId>)
    requires
        old(counts).wf(),
        has_room(old(counts)@, keys@.len()),
    ensures
        final(counts).wf(),
        final(counts)@ == counted_all(old(counts)@, keys@),
{
    let mut i: usize = 0;
    while i < keys.len()
        invariant
            i <= keys@.len(),
            counts.wf(),
            counts@ == counted_all(old(counts)@, keys@.take(i as int)),
            has_room(counts@, (keys@.len() - i) as nat),
        decreases keys@.len() - i,
    {
        assert(keys@.take(i + 1).drop_last() =~= keys@.take(i as int));
        assert(has_room(counts@, 1));
        count(counts, keys[i]);
        i = i + 1;
    }
    assert(keys@.take(i as int) =~= keys@);
}

/// Whether a request for keys is skipped that has this identifier.
pub open spec fn is_skipped(
    counts: Map<Seq<u8>, usize>,
    mode: ForwardPolicy,
    id: Seq<u8>,
) -> bool {
    counts.dom().contains(id) && mode != ForwardPolicy::ForwardAll
}

/// How often requests were handled, after one more request for keys: it counts unless it is
/// skipped.
pub open spec fn handled(
    counts: Map<Seq<u8>, usize>,
    mode: ForwardPolicy,
    id: Seq<u8>,
) -> Map<Seq<u8>, usize> {
    if is_skipped(counts, mode, id) {
        counts
    } else {
        counted(counts, id)
    }
}

/// How often requests were handled, after requests for keys with these identifiers, one after the
/// other.
pub open spec fn handled_all(mode: ForwardPolicy, ids: Seq<Seq<u8>>) -> Map<Seq<u8>, usize>
    decreases ids.len(),
{
    if ids.len() == 0 {
        Map::empty()
    } else {
        handled(handled_all(mode, ids.drop_last()), mode, ids.last())
    }
}

/// How many of these requests had a certain identifier and were not skipped.
pub open spec fn allocations(mode: ForwardPolicy, ids: Seq<Seq<u8>>, id: Seq<u8>) -> nat
    decreases ids.len(),
{
    if ids.len() == 0 {
        0
    } else {
        allocations(mode, ids.drop_last(), id) + (if ids.last() == id && !is_skipped(
            handled_all(mode, ids.drop_last()),
            mode,
            id,
        ) {
            1nat
        } else {
            0nat
        })
    }
}

/// What a node keeps of the samples and of the requests that it was sent.
pub ghost struct NodeState {
    /// How often each sample was stored.
    pub samples: Map<NodeId, usize>,
    /// How often each request was handled, by its identifier.
    pub handled_ids: Map<Seq<u8>, usize>,
}

/// Whether a distance is the largest one, with all bits set.
pub open spec fn is_max_distance(radius: NodeId) -> bool {
    forall|i: int| 0 <= i < 32 ==> #[trigger] radius@[i] == 255
}

/// No distance between identifiers is larger than the largest distance, so that an overlay with
/// this radius takes in all content.
pub proof fn lemma_max_distance(radius: NodeId, a: NodeId, b: NodeId)
    requires
        is_max_distance(radius),
    ensures
        distance(a, b) <= be_value(radius@),
{
    lemma_be_value_max(xor_bytes(a@, b@), radius@);
}

proof fn lemma_be_value_max(bytes: Seq<u8>, max: Seq<u8>)
    requires
        bytes.len() == max.len(),
        forall|i: int| 0 <= i < max.len() ==> #[trigger] max[i] == 255,
    ensures
        be_value(bytes) <= be_value(max),
    decreases bytes.len(),
{
    if bytes.len() > 0 {
        lemma_be_value_max(bytes.drop_last(), max.drop_last());
    }
}

/// The settings of an overlay network.
#[derive(Debug)]
pub struct OverlaySettings {
    pub protocol: String,
    pub bootnodes: Vec<NodeId>,
    /// How far from the node content may be that the overlay takes in, as a distance in big-endian
    /// bytes.
    pub radius: NodeId,
    pub ping_queue_interval_secs: u64,
    pub query_num_results: usize,
    pub query_timeout_secs: u64,
    pub query_peer_timeout_secs: u64,
}

impl OverlaySettings {
    /// The settings that both overlays of a node share, for a protocol and the first contacts.
    pub open spec fn are_standard(&self, protocol: Seq<char>, bootnodes: Seq<NodeId>) -> bool {
        &&& self.protocol@ == protocol
        &&& self.bootnodes@ == bootnodes
        &&& is_max_distance(self.radius)
        &&& self.ping_queue_interval_secs == 10000
        &&& self.query_num_results == usize::MAX
        &&& self.query_timeout_secs == 60
        &&& self.query_peer_timeout_secs == 30
    }

    fn standard(protocol: String, bootnodes: Vec<NodeId>) -> (settings: Self)
        ensures
            settings.are_standard(protocol@, bootnodes@),
    {
        OverlaySettings {
            protocol,
            bootnodes,
            radius: [255; 32],
            ping_queue_interval_secs: 10000,
            query_num_results: usize::MAX,
            query_timeout_secs: 60,
            query_peer_timeout_secs: 30,
        }
    }
}

/// A request of the dissemination protocol, as the routing strategy has it on the wire.
#[derive(Debug)]
pub enum Request {
    /// A message of recursive routing.
    Frame(Vec<u8>),
    /// A message of iterative routing.
    Message(DisseminationMsg),
}

impl Request {
    /// Whether this is a request that nodes send under a routing strategy.
    pub open spec fn fits(&self, routing: RoutingStrategy) -> bool {
        match self {
            Request::Frame(_) => routing == RoutingStrategy::Recursive,
            Request::Message(msg) => routing == RoutingStrategy::Iterative && (msg is Keys
                || msg is Samples),
        }
    }

    /// The identifier under which the request is remembered.
    pub open spec fn id(&self) -> Seq<u8> {
        match self {
            Request::Frame(bytes) => frame_id(bytes@),
            Request::Message(DisseminationMsg::Keys((id, _))) => u16_bytes(*id),
            Request::Message(_) => Seq::empty(),
        }
    }

    /// The keys that the request asks to forward.
    pub open spec fn keys(&self) -> Seq<NodeId> {
        match self {
            Request::Frame(bytes) => frame_keys(bytes@),
            Request::Message(DisseminationMsg::Keys((_, keys))) => keys@,
            Request::Message(_) => Seq::empty(),
        }
    }

    /// The samples that the request hands over.
    pub open spec fn samples(&self) -> Seq<(NodeId, Seq<u8>)> {
        match self {
            Request::Message(DisseminationMsg::Samples(samples)) => sample_contents(samples@),
            _ => Seq::empty(),
        }
    }

    /// Whether the request hands over samples.
    pub open spec fn hands_over(&self) -> bool {
        self matches Request::Message(DisseminationMsg::Samples(_))
    }
}

/// A number as two big-endian bytes.
pub open spec fn u16_bytes(n: u16) -> Seq<u8> {
    seq![(n / 256) as u8, (n % 256) as u8]
}

/// The keys of samples.
pub open spec fn sample_keys(samples: Seq<(NodeId, Seq<u8>)>) -> Seq<NodeId> {
    Seq::new(samples.len(), |i: int| samples[i].0)
}

/// Keys with the bytes that stand for their samples.
pub open spec fn with_payload(keys: Seq<NodeId>) -> Seq<(NodeId, Seq<u8>)> {
    Seq::new(keys.len(), |i: int| (keys[i], payload()))
}

/// What is sent back when a request is done.
#[derive(Debug)]
pub enum Reply {
    Message(DisseminationMsg),
    Empty,
}

/// What a node does on a request.
#[derive(Debug)]
pub struct Handling {
    /// The samples that go into its content store.
    pub stored: Vec<(NodeId, Vec<u8>)>,
    /// The protocol under which it forwards messages.
    pub protocol: Vec<u8>,
    /// The messages that it forwards, with their addressees, before it replies.
    pub forwards: Vec<(NodeId, Vec<u8>)>,
    /// The result that it sends back.
    pub reply: Reply,
}

impl Handling {
    /// Whether nothing is done but to reply with a message.
    pub open spec fn only_replies(&self, message: Message) -> bool {
        &&& self.stored@.len() == 0
        &&& self.forwards@.len() == 0
        &&& self.reply matches Reply::Message(msg) && msg@ == message
    }
}

/// Whether `nodes` are the nodes that keys are assigned to, each once, in any order.
pub open spec fn are_assignees(nodes: Seq<NodeId>, pairs: Seq<(NodeId, NodeId)>) -> bool {
    &&& nodes.no_duplicates()
    &&& forall|i: int|
        0 <= i < nodes.len() ==> values_of(pairs, #[trigger] nodes[i]).len() > 0
    &&& forall|p: int| 0 <= p < pairs.len() ==> nodes.contains((#[trigger] pairs[p]).0)
}

/// Those of `nodes` that are among `known`, in their order.
pub open spec fn only_known(nodes: Seq<NodeId>, known: Seq<NodeId>) -> Seq<NodeId>
    decreases nodes.len(),
{
    if nodes.len() == 0 {
        Seq::empty()
    } else {
        let front = only_known(nodes.drop_last(), known);
        if known.contains(nodes.last()) {
            front.push(nodes.last())
        } else {
            front
        }
    }
}

/// Whether `messages` carry the keys that are assigned to other nodes than `local`: one message
/// for each such node, with its keys under the identifier of the request, in any order.
pub open spec fn are_forwards(
    messages: Seq<(NodeId, Seq<u8>)>,
    pairs: Seq<(NodeId, NodeId)>,
    local: NodeId,
    id: Seq<u8>,
) -> bool {
    &&& forall|i: int, j: int|
        0 <= i < j < messages.len() ==> (#[trigger] messages[i]).0 != (#[trigger] messages[j]).0
    &&& forall|i: int|
        0 <= i < messages.len() ==> {
            &&& (#[trigger] messages[i]).0 != local
            &&& values_of(pairs, messages[i].0).len() > 0
            &&& messages[i].1 == frame(id, values_of(pairs, messages[i].0))
        }
    &&& forall|p: int|
        0 <= p < pairs.len() && (#[trigger] pairs[p]).0 != local ==> exists|i: int|
            0 <= i < messages.len() && (#[trigger] messages[i]).0 == pairs[p].0
}

/// A node of the network.
pub struct DASNode {
    pub samples: KeyedMap<NodeId, usize>,
    pub handled_ids: KeyedMap<Vec<u8>, usize>,
    pub overlay: OverlaySettings,
    pub secure_overlay: OverlaySettings,
}

impl View for DASNode {
    type V = NodeState;

    open spec fn view(&self) -> NodeState {
        NodeState { samples: self.samples@, handled_ids: self.handled_ids@ }
    }
}

impl DASNode {
    /// The maps of the node are well-formed.
    pub open spec fn wf(&self) -> bool {
        &&& self.samples.wf()
        &&& self.handled_ids.wf()
    }

    /// A node that has stored and handled nothing, with its two overlays set up to start from the
    /// contacts of its routing table.
    pub fn new(bootnodes: Vec<NodeId>, secure_bootnodes: Vec<NodeId>) -> (node: Self)
        ensures
            node.wf(),
            node@.samples == Map::<NodeId, usize>::empty(),
            node@.handled_ids == Map::<Seq<u8>, usize>::empty(),
            node.overlay.are_standard("DAS"@, bootnodes@),
            node.secure_overlay.are_standard("SECURE_DAS"@, secure_bootnodes@),
    {
        DASNode {
            samples: KeyedMap::new(),
            handled_ids: KeyedMap::new(),
            overlay: OverlaySettings::standard(String::from_str("DAS"), bootnodes),
            secure_overlay: OverlaySettings::standard(
                String::from_str("SECURE_DAS"),
                secure_bootnodes,
            ),
        }
    }

    /// Answers a request for a sample: with its content if the sample was stored here.
    pub fn handle_sampling_request(&self, key: &NodeId) -> (content: Option<Vec<u8>>)
        requires
            self.wf(),
        ensures
            content is Some <==> self@.samples.dom().contains(*key),
            content matches Some(bytes) ==> bytes@ == payload(),
    {
        if self.samples.contains(key) {
            Some(sample_payload())
        } else {
            None
        }
    }

    /// The keys of the samples that the node has stored.
    pub fn stored_keys(&self) -> (keys: Vec<NodeId>)
        requires
            self.wf(),
        ensures
            keys@.no_duplicates(),
            keys@.to_set() == self@.samples.dom(),
            keys@.len() == self@.samples.dom().len(),
    {
        let ghost listed = self.samples.listed();
        let mut keys: Vec<NodeId> = Vec::new();
        let mut i: usize = 0;
        while i < self.samples.len()
            invariant
                i <= listed.len(),
                self.wf(),
                listed == self.samples.listed(),
                keys@.len() == i,
                forall|j: int| 0 <= j < i ==> keys@[j] == (#[trigger] listed[j]).0,
            decreases listed.len() - i,
        {
            keys.push(self.samples.entry(i).0);
            i = i + 1;
        }
        proof {
            self.samples.lemma_listed();
            assert forall|a: int, b: int|
                0 <= a < keys@.len() && 0 <= b < keys@.len() && a != b implies keys@[a]
                != keys@[b] by {
                assert(listed[a].0.model() != listed[b].0.model());
            }
            assert forall|k: NodeId| keys@.to_set().contains(k) == self@.samples.dom().contains(
                k,
            ) by {
                if keys@.contains(k) {
                    let j = choose|j: int| 0 <= j < keys@.len() && keys@[j] == k;
                    assert(self@.samples.dom().contains(listed[j].0.model()));
                }
                if self@.samples.dom().contains(k) {
                    let j = choose|j: int|
                        0 <= j < listed.len() && (#[trigger] listed[j]).0.model() == k;
                    assert(keys@[j] == k);
                }
            }
            assert(keys@.to_set() =~= self@.samples.dom());
        }
        keys
    }

    /// Whether the node was sent a request before and does not handle it again.
    pub open spec fn refuses(&self, args: DisseminationArgs, request: Request) -> bool {
        &&& !request.hands_over()
        &&& self@.handled_ids.dom().contains(request.id())
        &&& args.forward_mode != ForwardPolicy::ForwardAll
    }

    /// Whether a request is one that the node can handle: it is in the form that the routing
    /// strategy has, no count overflows, and no key is the identifier of the node itself where keys
    /// are matched with contacts by k-bucket.
    pub open spec fn accepts(
        &self,
        table: RoutingTable,
        args: DisseminationArgs,
        request: Request,
    ) -> bool {
        &&& request.fits(args.routing_strategy)
        &&& request.hands_over() ==> has_room(self@.samples, request.samples().len())
        &&& !request.hands_over() && !self.refuses(args, request) ==> {
            &&& has_room(self@.handled_ids, 1)
            &&& args.routing_strategy == RoutingStrategy::Recursive ==> has_room(
                self@.samples,
                request.keys().len(),
            )
            &&& args.batching_strategy == BatchingStrategy::BucketWise
                ==> !request.keys().contains(table.local)
            &&& args.routing_strategy == RoutingStrategy::Recursive && args.replicate_mode
                == ReplicatePolicy::ReplicateSome ==> args.redundancy < usize::MAX
        }
    }

    fn can_handle_keys(
        &self,
        table: &RoutingTable,
        args: &DisseminationArgs,
        id: &Vec<u8>,
        keys: &Vec<NodeId>,
    ) -> (can: bool)
        requires
            self.wf(),
        ensures
            can == (self@.handled_ids.dom().contains(id@) && args.forward_mode
                != ForwardPolicy::ForwardAll || (has_room(self@.handled_ids, 1) && (
            args.routing_strategy == RoutingStrategy::Recursive ==> has_room(
                self@.samples,
                keys@.len(),
            )) && (args.batching_strategy == BatchingStrategy::BucketWise ==> !keys@.contains(
                table.local,
            )) && (args.routing_strategy == RoutingStrategy::Recursive && args.replicate_mode
                == ReplicatePolicy::ReplicateSome ==> args.redundancy < usize::MAX))),
    {
        if self.handled_ids.contains(id) && args.forward_mode != ForwardPolicy::ForwardAll {
            return true;
        }
        if !room_for(&self.handled_ids, 1) {
            return false;
        }
        if args.routing_strategy == RoutingStrategy::Recursive && !room_for(
            &self.samples,
            keys.len(),
        ) {
            return false;
        }
        if args.batching_strategy == BatchingStrategy::BucketWise && lists_id(keys, &table.local) {
            return false;
        }
        !(args.routing_strategy == RoutingStrategy::Recursive && args.replicate_mode
            == ReplicatePolicy::ReplicateSome && args.redundancy == usize::MAX)
    }

    /// Whether a request is one that the node can handle.
    pub fn can_handle(
        &self,
        table: &RoutingTable,
        args: &DisseminationArgs,
        request: &Request,
    ) -> (can: bool)
        requires
            self.wf(),
        ensures
            can == self.accepts(*table, *args, *request),
    {
        match request {
            Request::Frame(bytes) => {
                let (id, keys) = decode_frame(bytes);
                args.routing_strategy == RoutingStrategy::Recursive && self.can_handle_keys(
                    table,
                    args,
                    &array_bytes(&id),
                    &keys,
                )
            },
            Request::Message(DisseminationMsg::Keys((id, keys))) => args.routing_strategy
                == RoutingStrategy::Iterative && self.can_handle_keys(
                table,
                args,
                &be_bytes(*id),
                keys,
            ),
            Request::Message(DisseminationMsg::Samples(samples)) => args.routing_strategy
                == RoutingStrategy::Iterative && room_for(&self.samples, samples.len()),
            Request::Message(_) => false,
        }
    }

    /// Counts the samples that the node stores itself.
    pub fn store(&mut self, keys: &Vec<NodeId>)
        requires
            old(self).wf(),
            has_room(old(self)@.samples, keys@.len()),
        ensures
            final(self).wf(),
            final(self)@.samples == counted_all(old(self)@.samples, keys@),
            final(self)@.handled_ids == old(self)@.handled_ids,
            final(self).overlay == old(self).overlay,
            final(self).secure_overlay == old(self).secure_overlay,
    {
        count_all(&mut self.samples, keys);
    }

    /// Handles a request of the dissemination protocol.
    ///
    /// Samples are stored and confirmed. Keys are matched with contacts other than the sender.
    /// Under iterative routing the contacts are named to the sender, those among them whose records
    /// are `known`. Under recursive routing the keys are forwarded to them, those that fall to the
    /// node itself are stored, and the reply is empty. A request for keys that was handled before
    /// is answered with no closer nodes, unless all requests are to be forwarded.
    pub fn handle_dissemination_request(
        &mut self,
        table: &RoutingTable,
        from: NodeId,
        args: &DisseminationArgs,
        known: &Vec<NodeId>,
        request: Request,
    ) -> (handling: Handling)
        requires
            old(self).wf(),
            table.wf(),
            old(self).accepts(*table, *args, request),
        ensures
            final(self).wf(),
            final(self).overlay == old(self).overlay,
            final(self).secure_overlay == old(self).secure_overlay,
            handling.protocol@ == dissemination_protocol(),
            final(self)@.handled_ids == (if request.hands_over() {
                old(self)@.handled_ids
            } else {
                handled(old(self)@.handled_ids, args.forward_mode, request.id())
            }),
            request.hands_over() ==> {
                &&& final(self)@.samples == counted_all(
                    old(self)@.samples,
                    sample_keys(request.samples()),
                )
                &&& final(self)@.handled_ids == old(self)@.handled_ids
                &&& sample_contents(handling.stored@) == request.samples()
                &&& handling.forwards@.len() == 0
                &&& handling.reply matches Reply::Message(msg) && msg@ == Message::Received(0)
            },
            old(self).refuses(*args, request) ==> {
                &&& final(self)@ == old(self)@
                &&& handling.only_replies(Message::CloserNodes(Seq::empty()))
            },
            !request.hands_over() && !old(self).refuses(*args, request) ==> ({
                let pairs = assignments(
                    *table,
                    args.batching_strategy,
                    Some(from),
                    relay_replication(*args),
                    request.keys(),
                );
                let kept = values_of(pairs, table.local);
                &&& final(self)@.handled_ids == counted(old(self)@.handled_ids, request.id())
                &&& args.routing_strategy == RoutingStrategy::Iterative ==> {
                    &&& final(self)@.samples == old(self)@.samples
                    &&& exists|nodes: Seq<NodeId>| #[trigger]
                        are_assignees(nodes, pairs) && handling.only_replies(
                            Message::CloserNodes(only_known(nodes, known@)),
                        )
                }
                &&& args.routing_strategy == RoutingStrategy::Recursive ==> {
                    &&& final(self)@.samples == counted_all(old(self)@.samples, kept)
                    &&& sample_contents(handling.stored@) == with_payload(kept)
                    &&& are_forwards(
                        sample_contents(handling.forwards@),
                        pairs,
                        table.local,
                        request.id(),
                    )
                    &&& handling.reply is Empty
                }
            }),
    {
        match request {
            Request::Message(DisseminationMsg::Samples(samples)) => {
                let mut keys: Vec<NodeId> = Vec::new();
                let mut i: usize = 0;
                while i < samples.len()
                    invariant
                        i <= samples@.len(),
                        keys@.len() == i,
                        forall|j: int| 0 <= j < i ==> keys@[j] == (#[trigger] samples@[j]).0,
                    decreases samples@.len() - i,
                {
                    keys.push(samples[i].0);
                    i = i + 1;
                }
                assert(keys@ =~= sample_keys(sample_contents(samples@)));
                self.store(&keys);
                Handling {
                    stored: samples,
                    protocol: dissemination_protocol_id(),
                    forwards: Vec::new(),
                    reply: Reply::Message(DisseminationMsg::Received(0)),
                }
            },
            Request::Message(DisseminationMsg::Keys((id, keys))) => {
                let id_bytes: Vec<u8> = be_bytes(id);
                if self.handled_ids.contains(&id_bytes) && args.forward_mode
                    != ForwardPolicy::ForwardAll {
                    return refusal();
                }
                count(&mut self.handled_ids, id_bytes);
                let cap: Option<usize> = relay_cap(args);
                let pairs: Vec<(NodeId, NodeId)> = assign(
                    table,
                    args.batching_strategy,
                    &Some(from),
                    cap,
                    &keys,
                );
                let nodes: Vec<NodeId> = assignees(pairs);
                let named: Vec<NodeId> = select_known(&nodes, known);
                let handling = Handling {
                    stored: Vec::new(),
                    protocol: dissemination_protocol_id(),
                    forwards: Vec::new(),
                    reply: Reply::Message(DisseminationMsg::CloserNodes(named)),
                };
                assert(handling.only_replies(Message::CloserNodes(only_known(nodes@, known@))));
                handling
            },
            Request::Frame(bytes) => {
                let (id, keys) = decode_frame(&bytes);
                let id_bytes: Vec<u8> = array_bytes(&id);
                if self.handled_ids.contains(&id_bytes) && args.forward_mode
                    != ForwardPolicy::ForwardAll {
                    return refusal();
                }
                count(&mut self.handled_ids, id_bytes);
                let cap: Option<usize> = relay_cap(args);
                let pairs: Vec<(NodeId, NodeId)> = assign(
                    table,
                    args.batching_strategy,
                    &Some(from),
                    cap,
                    &keys,
                );
                let (kept, forwards) = split_forwards(pairs, &table.local, &id);
                proof {
                    lemma_kept_bound(
                        *table,
                        args.batching_strategy,
                        Some(from),
                        relay_replication(*args),
                        keys@,
                    );
                }
                self.store(&kept);
                let stored: Vec<(NodeId, Vec<u8>)> = payloads_for(&kept);
                Handling {
                    stored,
                    protocol: dissemination_protocol_id(),
                    forwards,
                    reply: Reply::Empty,
                }
            },
            Request::Message(_) => refusal(),
        }
    }
}

fn refusal() -> (handling: Handling)
    ensures
        handling.protocol@ == dissemination_protocol(),
        handling.only_replies(Message::CloserNodes(Seq::empty())),
{
    let nodes: Vec<NodeId> = Vec::new();
    Handling {
        stored: Vec::new(),
        protocol: dissemination_protocol_id(),
        forwards: Vec::new(),
        reply: Reply::Message(DisseminationMsg::CloserNodes(nodes)),
    }
}

fn be_bytes(n: u16) -> (bytes: Vec<u8>)
    ensures
        bytes@ == u16_bytes(n),
{
    let bytes: Vec<u8> = vec![(n / 256) as u8, (n % 256) as u8];
    assert(bytes@ =~= u16_bytes(n));
    bytes
}

fn array_bytes(array: &[u8; 8]) -> (bytes: Vec<u8>)
    ensures
        bytes@ == array@,
{
    let mut bytes: Vec<u8> = Vec::new();
    let mut i: usize = 0;
    while i < 8
        invariant
            i <= 8,
            bytes@ =~= array@.take(i as int),
        decreases 8 - i,
    {
        bytes.push(array[i]);
        i = i + 1;
    }
    assert(array@.take(8) =~= array@);
    bytes
}

/// Keys with the bytes that stand for their samples.
pub fn payloads_for(keys: &Vec<NodeId>) -> (samples: Vec<(NodeId, Vec<u8>)>)
    ensures
        sample_contents(samples@) == with_payload(keys@),
{
    let mut samples: Vec<(NodeId, Vec<u8>)> = Vec::new();
    let mut i: usize = 0;
    while i < keys.len()
        invariant
            i <= keys@.len(),
            samples@.len() == i,
            forall|j: int|
                0 <= j < i ==> (#[trigger] samples@[j]).0 == keys@[j] && samples@[j].1@
                    == payload(),
        decreases keys@.len() - i,
    {
        samples.push((keys[i], sample_payload()));
        i = i + 1;
    }
    assert(sample_contents(samples@) =~= with_payload(keys@));
    samples
}

fn select_known(nodes: &Vec<NodeId>, known: &Vec<NodeId>) -> (named: Vec<NodeId>)
    ensures
        named@ == only_known(nodes@, known@),
{
    let mut named: Vec<NodeId> = Vec::new();
    let mut i: usize = 0;
    while i < nodes.len()
        invariant
            i <= nodes@.len(),
            named@ == only_known(nodes@.take(i as int), known@),
        decreases nodes@.len() - i,
    {
        assert(nodes@.take(i + 1).drop_last() =~= nodes@.take(i as int));
        if lists_id(known, &nodes[i]) {
            named.push(nodes[i]);
        }
        i = i + 1;
    }
    assert(nodes@.take(i as int) =~= nodes@);
    named
}

/// The nodes that keys are assigned to.
fn assignees(pairs: Vec<(NodeId, NodeId)>) -> (nodes: Vec<NodeId>)
    ensures
        are_assignees(nodes@, pairs@),
{
    let groups: Vec<(NodeId, Vec<NodeId>)> = group_pairs(pairs);
    let ghost contents = group_contents(groups@);
    let mut nodes: Vec<NodeId> = Vec::new();
    let mut i: usize = 0;
    while i < groups.len()
        invariant
            i <= groups@.len(),
            contents == group_contents(groups@),
            nodes@.len() == i,
            forall|j: int| 0 <= j < i ==> nodes@[j] == (#[trigger] contents[j]).0,
        decreases groups@.len() - i,
    {
        nodes.push(groups[i].0);
        i = i + 1;
    }
    assert forall|p: int| 0 <= p < pairs@.len() implies nodes@.contains(
        (#[trigger] pairs@[p]).0,
    ) by {
        let g = choose|g: int| 0 <= g < contents.len() && (#[trigger] contents[g]).0 == pairs@[p].0;
        assert(nodes@[g] == pairs@[p].0);
    }
    assert forall|j: int| 0 <= j < nodes@.len() implies values_of(
        pairs@,
        #[trigger] nodes@[j],
    ).len() > 0 by {
        assert(nodes@[j] == contents[j].0);
    }
    assert forall|a: int, b: int|
        0 <= a < nodes@.len() && 0 <= b < nodes@.len() && a != b implies nodes@[a]
        != nodes@[b] by {
        assert(nodes@[a] == contents[a].0);
        assert(nodes@[b] == contents[b].0);
    }
    nodes
}

/// Splits assigned keys into those that stay and messages with the others.
fn split_forwards(pairs: Vec<(NodeId, NodeId)>, local: &NodeId, id: &[u8; 8]) -> (split: (
    Vec<NodeId>,
    Vec<(NodeId, Vec<u8>)>,
))
    ensures
        split.0@ == values_of(pairs@, *local),
        are_forwards(sample_contents(split.1@), pairs@, *local, id@),
{
    let ghost all = pairs@;
    let (kept, groups) = split_local(pairs, local);
    let ghost contents = group_contents(groups@);
    let mut forwards: Vec<(NodeId, Vec<u8>)> = Vec::new();
    let mut i: usize = 0;
    while i < groups.len()
        invariant
            i <= groups@.len(),
            contents == group_contents(groups@),
            forwards@.len() == i,
            forall|j: int|
                0 <= j < i ==> (#[trigger] forwards@[j]).0 == contents[j].0 && forwards@[j].1@
                    == frame(id@, contents[j].1),
        decreases groups@.len() - i,
    {
        assert(contents[i as int] == (groups@[i as int].0, groups@[i as int].1@));
        let message: Vec<u8> = encode_frame(id, &groups[i].1);
        forwards.push((groups[i].0, message));
        i = i + 1;
    }
    proof {
        let messages = sample_contents(forwards@);
        assert forall|a: int, b: int| 0 <= a < b < messages.len() implies (
        #[trigger] messages[a]).0 != (#[trigger] messages[b]).0 by {
            assert(forwards@[a].0 == contents[a].0);
            assert(forwards@[b].0 == contents[b].0);
        }
        assert forall|a: int| 0 <= a < messages.len() implies {
            &&& (#[trigger] messages[a]).0 != *local
            &&& values_of(all, messages[a].0).len() > 0
            &&& messages[a].1 == frame(id@, values_of(all, messages[a].0))
        } by {
            assert(forwards@[a].0 == contents[a].0);
        }
        assert forall|p: int|
            0 <= p < all.len() && (#[trigger] all[p]).0 != *local implies exists|a: int|
            0 <= a < messages.len() && (#[trigger] messages[a]).0 == all[p].0 by {
            let g = choose|g: int|
                0 <= g < contents.len() && (#[trigger] contents[g]).0 == all[p].0;
            assert(forwards@[g].0 == contents[g].0);
            assert(messages[g].0 == all[p].0);
        }
    }
    (kept, forwards)
}

/// How often an item occurs.
pub open spec fn occurrences<K>(items: Seq<K>, item: K) -> nat
    decreases items.len(),
{
    if items.len() == 0 {
        0
    } else {
        occurrences(items.drop_last(), item) + (if items.last() == item {
            1nat
        } else {
            0nat
        })
    }
}

/// Counting keeps all keys, adds those that are counted and no others, and each count grows by as
/// often as its key occurs.
pub proof fn lemma_counted_all<K>(counts: Map<K, usize>, keys: Seq<K>)
    requires
        has_room(counts, keys.len()),
        keys.len() <= usize::MAX,
    ensures
        counted_all(counts, keys).dom() == counts.dom().union(keys.to_set()),
        forall|k: K| #[trigger]
            counted_all(counts, keys).dom().contains(k) ==> counted_all(counts, keys)[k] == (
            if counts.dom().contains(k) {
                counts[k] as nat
            } else {
                0nat
            }) + occurrences(keys, k),
    decreases keys.len(),
{
    if keys.len() == 0 {
        assert(counts.dom().union(keys.to_set()) =~= counts.dom());
    } else {
        let front = keys.drop_last();
        let last = keys.last();
        lemma_counted_all(counts, front);
        let before = counted_all(counts, front);
        let after = counted_all(counts, keys);
        assert forall|k: K| #[trigger] keys.to_set().contains(k) <==> front.to_set().contains(k)
            || k == last by {
            if keys.contains(k) {
                let i = choose|i: int| 0 <= i < keys.len() && keys[i] == k;
                if i < front.len() {
                    assert(front[i] == k);
                }
            }
            if front.contains(k) {
                let i = choose|i: int| 0 <= i < front.len() && front[i] == k;
                assert(keys[i] == k);
            }
            assert(keys[keys.len() - 1] == last);
        }
        assert(after.dom() =~= counts.dom().union(keys.to_set()));
        assert forall|k: K| #[trigger] after.dom().contains(k) implies after[k] == (
        if counts.dom().contains(k) {
            counts[k] as nat
        } else {
            0nat
        }) + occurrences(keys, k) by {
            lemma_occurrences(front, k);
            if k != last {
                assert(before.dom().contains(k));
            } else if !before.dom().contains(k) {
                assert(!front.to_set().contains(k));
            }
        }
    }
}

proof fn lemma_occurrences<K>(items: Seq<K>, item: K)
    ensures
        occurrences(items, item) <= items.len(),
        occurrences(items, item) == 0 <==> !items.contains(item),
    decreases items.len(),
{
    if items.len() > 0 {
        let front = items.drop_last();
        lemma_occurrences(front, item);
        if front.contains(item) {
            let i = choose|i: int| 0 <= i < front.len() && front[i] == item;
            assert(items[i] == item);
        }
        if items.contains(item) && items.last() != item {
            let i = choose|i: int| 0 <= i < items.len() && items[i] == item;
            assert(front[i] == item);
        }
        assert(items[items.len() - 1] == items.last());
    }
}

/// A sample that was stored stays available: whatever is stored later, a request for it is
/// answered.
pub proof fn lemma_stored_samples_stay(counts: Map<NodeId, usize>, keys: Seq<NodeId>, key: NodeId)
    requires
        has_room(counts, keys.len()),
        keys.len() <= usize::MAX,
        counts.dom().contains(key) || keys.contains(key),
    ensures
        counted_all(counts, keys).dom().contains(key),
{
    lemma_counted_all(counts, keys);
}

/// A request for keys is handled once: a node that has counted it refuses any other request under
/// the same identifier, unless all requests are to be forwarded.
pub proof fn lemma_repeated_request_is_refused(
    before: NodeState,
    after: DASNode,
    args: DisseminationArgs,
    request: Request,
    repeated: Request,
)
    requires
        after@.handled_ids == counted(before.handled_ids, request.id()),
        repeated.id() == request.id(),
        !repeated.hands_over(),
    ensures
        after.refuses(args, repeated) <==> args.forward_mode != ForwardPolicy::ForwardAll,
{
}

/// A relay loses no key: each key of a request that is handled is either stored by the node, or can
/// be read from one of the messages that it forwards, as long as no message has more keys than it
/// has room for.
pub proof fn lemma_relay_loses_no_key(
    table: RoutingTable,
    args: DisseminationArgs,
    from: NodeId,
    keys: Seq<NodeId>,
    messages: Seq<(NodeId, Seq<u8>)>,
    id: Seq<u8>,
    key: NodeId,
)
    requires
        table.wf(),
        keys.contains(key),
        args.batching_strategy == BatchingStrategy::BucketWise ==> key != table.local,
        args.batching_strategy == BatchingStrategy::DistanceWise ==> from != table.local,
        id.len() == ID_SIZE,
        ({
            let pairs = assignments(
                table,
                args.batching_strategy,
                Some(from),
                relay_replication(args),
                keys,
            );
            &&& are_forwards(messages, pairs, table.local, id)
            &&& forall|n: NodeId| (#[trigger] values_of(pairs, n)).len() <= MAX_KEYS
        }),
    ensures
        values_of(
            assignments(
                table,
                args.batching_strategy,
                Some(from),
                relay_replication(args),
                keys,
            ),
            table.local,
        ).contains(key) || exists|i: int|
            0 <= i < messages.len() && frame_keys((#[trigger] messages[i]).1).contains(key)
                && frame_id(messages[i].1) == id,
{
    let cap = relay_replication(args);
    let pairs = assignments(table, args.batching_strategy, Some(from), cap, keys);
    lemma_each_key_is_assigned(table, args.batching_strategy, Some(from), cap, keys, key);
    let p = choose|p: int|
        0 <= p < pairs.len() && (#[trigger] pairs[p]).1 == key && values_of(
            pairs,
            pairs[p].0,
        ).contains(key);
    if pairs[p].0 != table.local {
        let i = choose|i: int|
            0 <= i < messages.len() && (#[trigger] messages[i]).0 == pairs[p].0;
        lemma_frame_round_trip(id, values_of(pairs, messages[i].0));
        assert(frame_keys(messages[i].1).contains(key));
    }
}

/// What a node remembers of requests for keys, however many it was sent: exactly the identifiers
/// that it was sent are remembered, each with the number of requests whose keys were allocated.
/// That is one, or all of them if all requests are to be forwarded.
pub proof fn lemma_handled_all(mode: ForwardPolicy, ids: Seq<Seq<u8>>, id: Seq<u8>)
    requires
        ids.len() <= usize::MAX,
    ensures
        handled_all(mode, ids).dom().contains(id) <==> ids.contains(id),
        ids.contains(id) ==> handled_all(mode, ids)[id] == allocations(mode, ids, id),
        allocations(mode, ids, id) == (if mode == ForwardPolicy::ForwardAll {
            occurrences(ids, id)
        } else if ids.contains(id) {
            1
        } else {
            0
        }),
    decreases ids.len(),
{
    if ids.len() > 0 {
        let front = ids.drop_last();
        let last = ids.last();
        lemma_handled_all(mode, front, id);
        lemma_handled_all(mode, front, last);
        lemma_occurrences(front, id);
        lemma_occurrences(front, last);
        if front.contains(id) {
            let i = choose|i: int| 0 <= i < front.len() && front[i] == id;
            assert(ids[i] == id);
        }
        if ids.contains(id) && id != last {
            let i = choose|i: int| 0 <= i < ids.len() && ids[i] == id;
            assert(front[i] == id);
        }
        assert(ids[ids.len() - 1] == last);
    }
}

/// What a node remembers after requests, one after the other: those that hand over samples change
/// nothing.
pub open spec fn remembered(mode: ForwardPolicy, requests: Seq<Request>) -> Map<Seq<u8>, usize>
    decreases requests.len(),
{
    if requests.len() == 0 {
        Map::empty()
    } else {
        let before = remembered(mode, requests.drop_last());
        if requests.last().hands_over() {
            before
        } else {
            handled(before, mode, requests.last().id())
        }
    }
}

/// The identifiers of those requests that ask to forward keys.
pub open spec fn ids_of(requests: Seq<Request>) -> Seq<Seq<u8>>
    decreases requests.len(),
{
    if requests.len() == 0 {
        Seq::empty()
    } else {
        let before = ids_of(requests.drop_last());
        if requests.last().hands_over() {
            before
        } else {
            before.push(requests.last().id())
        }
    }
}

proof fn lemma_remembered(mode: ForwardPolicy, requests: Seq<Request>)
    ensures
        remembered(mode, requests) == handled_all(mode, ids_of(requests)),
        ids_of(requests).len() <= requests.len(),
    decreases requests.len(),
{
    if requests.len() > 0 {
        lemma_remembered(mode, requests.drop_last());
        let before = ids_of(requests.drop_last());
        if !requests.last().hands_over() {
            assert(ids_of(requests).drop_last() =~= before);
        }
    }
}

/// What a node remembers of requests of any kind, however many it was sent and in whatever order:
/// an identifier is remembered exactly if some request asked to forward keys under it, with the
/// number of such requests if all are to be forwarded, and with one otherwise.
pub proof fn lemma_remembered_requests(mode: ForwardPolicy, requests: Seq<Request>, id: Seq<u8>)
    requires
        requests.len() <= usize::MAX,
    ensures
        remembered(mode, requests).dom().contains(id) <==> ids_of(requests).contains(id),
        ids_of(requests).contains(id) ==> remembered(mode, requests)[id] == allocations(
            mode,
            ids_of(requests),
            id,
        ),
        ids_of(requests).contains(id) ==> remembered(mode, requests)[id] == (if mode
            == ForwardPolicy::ForwardAll {
            occurrences(ids_of(requests), id)
        } else {
            1
        }),
{
    lemma_remembered(mode, requests);
    lemma_handled_all(mode, ids_of(requests), id);
}

/// A request for keys changes nothing about the other identifiers, and nothing that was remembered
/// is ever forgotten.
pub proof fn lemma_handled_stays(
    counts: Map<Seq<u8>, usize>,
    mode: ForwardPolicy,
    id: Seq<u8>,
    other: Seq<u8>,
)
    requires
        counts.dom().contains(other),
    ensures
        handled(counts, mode, id).dom().contains(other),
        other != id ==> handled(counts, mode, id)[other] == counts[other],
{
}

/// A forwarded request is read back: each node that is assigned keys gets one message, and reads
/// from it the identifier of the request and exactly these keys, if there is room for them.
pub proof fn lemma_forward_is_read_back(
    messages: Seq<(NodeId, Seq<u8>)>,
    pairs: Seq<(NodeId, NodeId)>,
    local: NodeId,
    id: Seq<u8>,
    node: NodeId,
)
    requires
        are_forwards(messages, pairs, local, id),
        id.len() == ID_SIZE,
        node != local,
        0 < values_of(pairs, node).len() <= MAX_KEYS,
    ensures
        exists|i: int|
            0 <= i < messages.len() && (#[trigger] messages[i]).0 == node && messages[i].1 == id
                + joined(values_of(pairs, node)) && messages[i].1.len() == ID_SIZE + KEY_SIZE
                * values_of(pairs, node).len() && frame_id(messages[i].1) == id && frame_keys(
                messages[i].1,
            ) == values_of(pairs, node),
        forall|i: int, j: int|
            0 <= i < messages.len() && 0 <= j < messages.len() && (#[trigger] messages[i]).0 == node
                && (#[trigger] messages[j]).0 == node ==> i == j,
{
    let keys = values_of(pairs, node);
    lemma_values_witness(pairs, node);
    let p = choose|p: int| 0 <= p < pairs.len() && (#[trigger] pairs[p]).0 == node;
    assert(pairs[p].0 != local);
    let i = choose|i: int| 0 <= i < messages.len() && (#[trigger] messages[i]).0 == pairs[p].0;
    lemma_frame_round_trip(id, keys);
    lemma_joined(keys);
    assert(messages[i].1 == frame(id, keys));
    assert forall|a: int, b: int|
        0 <= a < messages.len() && 0 <= b < messages.len() && (#[trigger] messages[a]).0 == node
            && (#[trigger] messages[b]).0 == node implies a == b by {
        if a < b {
            assert(messages[a].0 != messages[b].0);
        } else if b < a {
            assert(messages[b].0 != messages[a].0);
        }
    }
}

/// Which nodes are named in an answer: each node whose record is known and that some key goes to,
/// once, and no others.
pub proof fn lemma_named_nodes(
    table: RoutingTable,
    args: DisseminationArgs,
    from: NodeId,
    keys: Seq<NodeId>,
    nodes: Seq<NodeId>,
    known: Seq<NodeId>,
)
    requires
        table.wf(),
        args.batching_strategy == BatchingStrategy::BucketWise ==> !keys.contains(table.local),
        are_assignees(
            nodes,
            assignments(
                table,
                args.batching_strategy,
                Some(from),
                relay_replication(args),
                keys,
            ),
        ),
    ensures
        only_known(nodes, known).no_duplicates(),
        forall|n: NodeId| #[trigger]
            only_known(nodes, known).contains(n) <==> known.contains(n) && exists|i: int|
                0 <= i < keys.len() && targets(
                    table,
                    args.batching_strategy,
                    Some(from),
                    relay_replication(args),
                    #[trigger] keys[i],
                ).contains(n),
{
    let cap = relay_replication(args);
    let pairs = assignments(table, args.batching_strategy, Some(from), cap, keys);
    lemma_only_known(nodes, known);
    assert forall|n: NodeId| #[trigger] only_known(nodes, known).contains(n) <==> known.contains(n)
        && exists|i: int|
        0 <= i < keys.len() && targets(
            table,
            args.batching_strategy,
            Some(from),
            cap,
            #[trigger] keys[i],
        ).contains(n) by {
        lemma_assigned_nodes(table, args.batching_strategy, Some(from), cap, keys, n);
        if nodes.contains(n) {
            let i = choose|i: int| 0 <= i < nodes.len() && nodes[i] == n;
            assert(values_of(pairs, nodes[i]).len() > 0);
        }
        if values_of(pairs, n).len() > 0 {
            lemma_values_witness(pairs, n);
            let p = choose|p: int| 0 <= p < pairs.len() && (#[trigger] pairs[p]).0 == n;
            assert(nodes.contains(pairs[p].0));
        }
    }
}

proof fn lemma_only_known(nodes: Seq<NodeId>, known: Seq<NodeId>)
    ensures
        nodes.no_duplicates() ==> only_known(nodes, known).no_duplicates(),
        forall|n: NodeId| #[trigger]
            only_known(nodes, known).contains(n) <==> nodes.contains(n) && known.contains(n),
    decreases nodes.len(),
{
    let named = only_known(nodes, known);
    if nodes.len() == 0 {
        assert forall|n: NodeId| !(#[trigger] named.contains(n)) by {}
    } else {
        let rest = nodes.drop_last();
        let front = only_known(rest, known);
        lemma_only_known(rest, known);
        assert forall|n: NodeId| #[trigger] named.contains(n) <==> nodes.contains(n)
            && known.contains(n) by {
            if named.contains(n) {
                let i = choose|i: int| 0 <= i < named.len() && named[i] == n;
                if i < front.len() {
                    assert(front[i] == n);
                    assert(front.contains(n));
                    let j = choose|j: int| 0 <= j < rest.len() && rest[j] == n;
                    assert(nodes[j] == n);
                } else {
                    assert(nodes[nodes.len() - 1] == n);
                }
            }
            if nodes.contains(n) && known.contains(n) {
                let j = choose|j: int| 0 <= j < nodes.len() && nodes[j] == n;
                if j < rest.len() {
                    assert(rest[j] == n);
                    assert(front.contains(n));
                    let i = choose|i: int| 0 <= i < front.len() && front[i] == n;
                    assert(named[i] == n);
                } else {
                    assert(named[named.len() - 1] == n);
                }
            }
        }
        if nodes.no_duplicates() {
            assert(rest.no_duplicates());
            if front.contains(nodes.last()) {
                let j = choose|j: int| 0 <= j < rest.len() && rest[j] == nodes.last();
                assert(nodes[j] == nodes[nodes.len() - 1]);
            }
            assert forall|i: int, j: int|
                0 <= i < named.len() && 0 <= j < named.len() && i != j implies named[i]
                != named[j] by {
                if i < front.len() && j < front.len() {
                    assert(front[i] != front[j]);
                } else if i < front.len() {
                    assert(front.contains(front[i]));
                } else if j < front.len() {
                    assert(front.contains(front[j]));
                }
            }
        }
    }
}

/// What a relay forwards and stores: each node other than itself that some key goes to gets one
/// message, with exactly the keys that go to it, in their order, under the identifier of the
/// request; no other node gets any. The node stores exactly the keys that go to itself.
pub proof fn lemma_relayed_keys(
    table: RoutingTable,
    args: DisseminationArgs,
    from: NodeId,
    keys: Seq<NodeId>,
    messages: Seq<(NodeId, Seq<u8>)>,
    id: Seq<u8>,
    node: NodeId,
)
    requires
        table.wf(),
        args.batching_strategy == BatchingStrategy::BucketWise ==> !keys.contains(table.local),
        are_forwards(
            messages,
            assignments(
                table,
                args.batching_strategy,
                Some(from),
                relay_replication(args),
                keys,
            ),
            table.local,
            id,
        ),
    ensures
        ({
            let mine = keys.filter(
                |k: NodeId|
                    targets(
                        table,
                        args.batching_strategy,
                        Some(from),
                        relay_replication(args),
                        k,
                    ).contains(node),
            );
            &&& values_of(
                assignments(
                    table,
                    args.batching_strategy,
                    Some(from),
                    relay_replication(args),
                    keys,
                ),
                node,
            ) == mine
            &&& (exists|i: int| 0 <= i < messages.len() && (#[trigger] messages[i]).0 == node)
                <==> node != table.local && mine.len() > 0
            &&& forall|i: int|
                0 <= i < messages.len() && (#[trigger] messages[i]).0 == node ==> messages[i].1
                    == frame(id, mine)
            &&& forall|i: int, j: int|
                0 <= i < messages.len() && 0 <= j < messages.len() && (#[trigger] messages[i]).0
                    == (#[trigger] messages[j]).0 ==> i == j
        }),
{
    let cap = relay_replication(args);
    let pairs = assignments(table, args.batching_strategy, Some(from), cap, keys);
    lemma_keys_of_a_node(table, args.batching_strategy, Some(from), cap, keys, node);
    let mine = keys.filter(
        |k: NodeId|
            targets(table, args.batching_strategy, Some(from), relay_replication(args), k).contains(
                node,
            ),
    );
    assert(values_of(pairs, node) == mine);
    if node != table.local && mine.len() > 0 {
        lemma_values_witness(pairs, node);
        let p = choose|p: int| 0 <= p < pairs.len() && (#[trigger] pairs[p]).0 == node;
        assert(pairs[p].0 != table.local);
    }
    assert forall|i: int, j: int|
        0 <= i < messages.len() && 0 <= j < messages.len() && (#[trigger] messages[i]).0 == (
        #[trigger] messages[j]).0 implies i == j by {
        if i < j {
            assert(messages[i].0 != messages[j].0);
        } else if j < i {
            assert(messages[j].0 != messages[i].0);
        }
    }
}

/// Which requests a node handles: a message of recursive routing under recursive routing, and a
/// request for keys or with samples under iterative routing. No count may overflow, and by k-bucket
/// no key may be the identifier of the node.
pub proof fn lemma_accepted_requests(
    node: DASNode,
    table: RoutingTable,
    args: DisseminationArgs,
    request: Request,
)
    ensures
        request matches Request::Frame(bytes) ==> request.id() == frame_id(bytes@) && request.keys()
            == frame_keys(bytes@) && !request.hands_over() && request.fits(args.routing_strategy)
            == (args.routing_strategy == RoutingStrategy::Recursive),
        request matches Request::Message(DisseminationMsg::Keys((id, keys))) ==> be_value(
            request.id(),
        ) == id && request.id().len() == 2 && request.keys() == keys@ && !request.hands_over()
            && request.fits(args.routing_strategy) == (args.routing_strategy
            == RoutingStrategy::Iterative),
        request matches Request::Message(DisseminationMsg::Samples(samples)) ==> {
            &&& request.hands_over()
            &&& request.fits(args.routing_strategy) == (args.routing_strategy
                == RoutingStrategy::Iterative)
            &&& request.samples().len() == samples@.len()
            &&& forall|i: int|
                0 <= i < samples@.len() ==> (#[trigger] request.samples()[i]).0 == samples@[i].0
                    && request.samples()[i].1 == samples@[i].1@
            &&& node.accepts(table, args, request) <==> args.routing_strategy
                == RoutingStrategy::Iterative && forall|k: NodeId| #[trigger]
                node@.samples.dom().contains(k) ==> node@.samples[k] + samples@.len() <= usize::MAX
        },
        request matches Request::Message(DisseminationMsg::CloserNodes(_)) ==> !request.fits(
            args.routing_strategy,
        ),
        request matches Request::Message(DisseminationMsg::Received(_)) ==> !request.fits(
            args.routing_strategy,
        ),
        node.refuses(args, request) <==> !request.hands_over()
            && node@.handled_ids.dom().contains(request.id()) && args.forward_mode
            == ForwardPolicy::ForwardOne,
        !request.hands_over() ==> (node.accepts(table, args, request) <==> request.fits(
            args.routing_strategy,
        ) && (node.refuses(args, request) || {
            &&& forall|id: Seq<u8>| #[trigger]
                node@.handled_ids.dom().contains(id) ==> node@.handled_ids[id] < usize::MAX
            &&& args.routing_strategy == RoutingStrategy::Recursive ==> {
                &&& forall|k: NodeId| #[trigger]
                    node@.samples.dom().contains(k) ==> node@.samples[k] + request.keys().len()
                        <= usize::MAX
                &&& args.replicate_mode == ReplicatePolicy::ReplicateSome ==> args.redundancy
                    < usize::MAX
            }
            &&& args.batching_strategy == BatchingStrategy::BucketWise ==> forall|i: int|
                0 <= i < request.keys().len() ==> #[trigger] request.keys()[i] != table.local
        })),
{
    if let Request::Message(DisseminationMsg::Keys((id, keys))) = request {
        let bytes = u16_bytes(id);
        assert(bytes.drop_last() =~= seq![(id / 256) as u8]);
        assert(bytes.drop_last().drop_last() =~= Seq::<u8>::empty());
        assert(be_value(Seq::<u8>::empty()) == 0);
        assert(be_value(bytes.drop_last()) == be_value(bytes.drop_last().drop_last()) * 256
            + bytes.drop_last().last());
        assert(be_value(bytes) == (id / 256) * 256 + id % 256);
    }
    if forall|i: int| 0 <= i < request.keys().len() ==> #[trigger] request.keys()[i] != table.local {
        assert(!request.keys().contains(table.local));
    }
    if !request.keys().contains(table.local) {
        assert forall|i: int| 0 <= i < request.keys().len() implies #[trigger] request.keys()[i]
            != table.local by {
            assert(request.keys().contains(request.keys()[i]));
        }
    }
}

/// What stands for a sample: the word `yep`, for each key and in the order of the keys.
pub proof fn lemma_payload(keys: Seq<NodeId>)
    ensures
        payload().len() == 3,
        payload()[0] as char == 'y',
        payload()[1] as char == 'e',
        payload()[2] as char == 'p',
        with_payload(keys).len() == keys.len(),
        forall|i: int|
            0 <= i < keys.len() ==> (#[trigger] with_payload(keys)[i]).0 == keys[i] && with_payload(
                keys,
            )[i].1 == payload(),
        sample_keys(with_payload(keys)) == keys,
{
    assert(sample_keys(with_payload(keys)) =~= keys);
}

/// How often a sample was stored is how often it was counted.
pub proof fn lemma_occurrences_are_exact<K>(items: Seq<K>, item: K)
    ensures
        occurrences(items, item) == items.filter(|other: K| other == item).len(),
    decreases items.len(),
{
    reveal(Seq::filter);
    if items.len() > 0 {
        lemma_occurrences_are_exact(items.drop_last(), item);
    }
}

/// The settings of an overlay: it takes in all content, and its timeouts and limits are fixed.
pub proof fn lemma_overlay_settings(
    settings: OverlaySettings,
    protocol: Seq<char>,
    bootnodes: Seq<NodeId>,
)
    ensures
        settings.are_standard(protocol, bootnodes) <==> {
            &&& settings.protocol@ == protocol
            &&& settings.bootnodes@ == bootnodes
            &&& forall|i: int| 0 <= i < 32 ==> #[trigger] settings.radius@[i] == 255
            &&& settings.ping_queue_interval_secs == 10000
            &&& settings.query_num_results == usize::MAX
            &&& settings.query_timeout_secs == 60
            &&& settings.query_peer_timeout_secs == 30
        },
{
}

/// A handling that only replies stores and forwards nothing. A node stands in the model for the
/// samples that it has stored and the requests that it has handled.
pub proof fn lemma_handling_and_node_view(handling: Handling, message: Message, node: DASNode)
    ensures
        handling.only_replies(message) <==> handling.stored@.len() == 0 && handling.forwards@.len()
            == 0 && (handling.reply matches Reply::Message(msg) && msg@ == message),
        node@.samples == node.samples@,
        node@.handled_ids == node.handled_ids@,
        node.wf() <==> node.samples.wf() && node.handled_ids.wf(),
{
}

} // verus!
