//! Dissemination with recursive routing: each node on the way forwards the keys by itself.

use vstd::prelude::*;
use crate::allocation::{
    assign, assignments, lemma_each_key_is_assigned, lemma_kept_bound, lemma_keys_of_a_node,
    replication, replication_cap, split_local, targets, RoutingTable,
};
use crate::args::{BatchingStrategy, DisseminationArgs, ReplicatePolicy};
use crate::frame::{encode_frame, frame, frame_id, frame_keys, lemma_frame_round_trip, MAX_KEYS};
use crate::grouping::{group_contents, lemma_values_witness, values_of};
use crate::ids::NodeId;
use crate::messages::{dissemination_protocol, dissemination_protocol_id, sample_contents};
use crate::node::{counted_all, has_room, payloads_for, with_payload, DASNode};

verus! {

/// Whether a byte is an ASCII letter or digit, a hyphen or an underscore.
pub open spec fn is_url_safe(byte: u8) -> bool {
    ||| 48 <= byte <= 57
    ||| 65 <= byte <= 90
    ||| 97 <= byte <= 122
    ||| byte == 45
    ||| byte == 95
}

/// A random identifier, from `nanoid::format` with the generator and the alphabet that the crate
/// uses by default: as many characters as asked for, each an ASCII letter or digit, a hyphen or
/// an underscore. Which ones is left to chance.
#[verifier::external_body]
fn random_id(size: usize) -> (id: Vec<u8>)
    requires
        0 < size <= usize::MAX / 8,
    ensures
        id@.len() == size,
        forall|i: int| 0 <= i < id@.len() ==> is_url_safe(#[trigger] id@[i]),
{
    nanoid::format(nanoid::rngs::default, &nanoid::alphabet::SAFE, size).into_bytes()
}

/// A request of its own for each message that leaves the originator.
#[derive(Debug)]
pub struct Batch {
    pub to: NodeId,
    pub id: [u8; 8],
    pub message: Vec<u8>,
}

/// What the originator does to disseminate keys.
#[derive(Debug)]
pub struct Departure {
    /// The samples that go into its own content store.
    pub stored: Vec<(NodeId, Vec<u8>)>,
    /// The protocol under which its messages go out.
    pub protocol: Vec<u8>,
    /// The messages that it sends.
    pub batches: Vec<Batch>,
}

/// The nodes that the originator assigns keys to.
pub open spec fn origin_assignments(
    table: RoutingTable,
    args: DisseminationArgs,
    keys: Seq<NodeId>,
) -> Seq<(NodeId, NodeId)> {
    assignments(table, args.batching_strategy, None, replication(args), keys)
}

/// The keys that fall to the originator itself.
pub open spec fn kept_at_origin(
    table: RoutingTable,
    args: DisseminationArgs,
    keys: Seq<NodeId>,
) -> Seq<NodeId> {
    values_of(origin_assignments(table, args, keys), table.local)
}

impl Departure {
    /// Whether this is how the originator disseminates keys: it stores those that fall to itself,
    /// and sends the others under the dissemination protocol.
    pub open spec fn is_for(
        &self,
        table: RoutingTable,
        args: DisseminationArgs,
        keys: Seq<NodeId>,
    ) -> bool {
        &&& sample_contents(self.stored@) == with_payload(kept_at_origin(table, args, keys))
        &&& self.protocol@ == dissemination_protocol()
        &&& are_batches(self.batches@, origin_assignments(table, args, keys), table.local)
    }
}

/// Whether `batches` carry the keys that are assigned to other nodes than `local`: one message for
/// each such node, with its keys under an identifier of its own, in any order.
pub open spec fn are_batches(
    batches: Seq<Batch>,
    pairs: Seq<(NodeId, NodeId)>,
    local: NodeId,
) -> bool {
    &&& forall|i: int, j: int|
        0 <= i < j < batches.len() ==> (#[trigger] batches[i]).to != (#[trigger] batches[j]).to
    &&& forall|i: int|
        0 <= i < batches.len() ==> {
            &&& (#[trigger] batches[i]).to != local
            &&& values_of(pairs, batches[i].to).len() > 0
            &&& batches[i].message@ == frame(batches[i].id@, values_of(pairs, batches[i].to))
            &&& forall|c: int| 0 <= c < 8 ==> is_url_safe(#[trigger] batches[i].id@[c])
        }
    &&& forall|p: int|
        0 <= p < pairs.len() && (#[trigger] pairs[p]).0 != local ==> exists|i: int|
            0 <= i < batches.len() && (#[trigger] batches[i]).to == pairs[p].0
}

fn batch_id() -> (id: [u8; 8])
    ensures
        forall|c: int| 0 <= c < 8 ==> is_url_safe(#[trigger] id@[c]),
{
    let drawn: Vec<u8> = random_id(8);
    let mut id: [u8; 8] = [0; 8];
    let mut i: usize = 0;
    while i < 8
        invariant
            i <= 8,
            drawn@.len() == 8,
            forall|c: int| 0 <= c < i ==> id@[c] == #[trigger] drawn@[c],
        decreases 8 - i,
    {
        id[i] = drawn[i];
        i = i + 1;
    }
    assert forall|c: int| 0 <= c < 8 implies is_url_safe(#[trigger] id@[c]) by {
        assert(id@[c] == drawn@[c]);
    }
    id
}

/// Starts the dissemination of keys: those that fall to the originator itself are stored, and the
/// others leave in one message for each node that takes some.
pub fn disseminate_samples_recursively(
    node: &mut DASNode,
    table: &RoutingTable,
    args: &DisseminationArgs,
    keys: &Vec<NodeId>,
) -> (departure: Departure)
    requires
        old(node).wf(),
        table.wf(),
        has_room(old(node)@.samples, keys@.len()),
        args.batching_strategy == BatchingStrategy::BucketWise ==> !keys@.contains(table.local),
        args.replicate_mode == ReplicatePolicy::ReplicateSome ==> args.redundancy < usize::MAX,
    ensures
        final(node).wf(),
        final(node)@.handled_ids == old(node)@.handled_ids,
        final(node).overlay == old(node).overlay,
        final(node).secure_overlay == old(node).secure_overlay,
        final(node)@.samples == counted_all(
            old(node)@.samples,
            kept_at_origin(*table, *args, keys@),
        ),
        departure.is_for(*table, *args, keys@),
{
    let cap: Option<usize> = replication_cap(args);
    let pairs: Vec<(NodeId, NodeId)> = assign(table, args.batching_strategy, &None, cap, keys);
    let ghost all = pairs@;
    let (kept, groups) = split_local(pairs, &table.local);
    proof {
        lemma_kept_bound(*table, args.batching_strategy, None, replication(*args), keys@);
    }
    node.store(&kept);
    let stored: Vec<(NodeId, Vec<u8>)> = payloads_for(&kept);
    let ghost contents = group_contents(groups@);
    let mut batches: Vec<Batch> = Vec::new();
    let mut i: usize = 0;
    while i < groups.len()
        invariant
            i <= groups@.len(),
            contents == group_contents(groups@),
            batches@.len() == i,
            forall|j: int|
                0 <= j < i ==> {
                    &&& (#[trigger] batches@[j]).to == contents[j].0
                    &&& batches@[j].message@ == frame(batches@[j].id@, contents[j].1)
                    &&& forall|c: int| 0 <= c < 8 ==> is_url_safe(#[trigger] batches@[j].id@[c])
                },
        decreases groups@.len() - i,
    {
        assert(contents[i as int] == (groups@[i as int].0, groups@[i as int].1@));
        let id: [u8; 8] = batch_id();
        let message: Vec<u8> = encode_frame(&id, &groups[i].1);
        batches.push(Batch { to: groups[i].0, id, message });
        i = i + 1;
    }
    proof {
        assert forall|a: int, b: int| 0 <= a < b < batches@.len() implies (
        #[trigger] batches@[a]).to != (#[trigger] batches@[b]).to by {
            assert(contents[a].0 != contents[b].0);
        }
        assert forall|p: int|
            0 <= p < all.len() && (#[trigger] all[p]).0 != table.local implies exists|a: int|
            0 <= a < batches@.len() && (#[trigger] batches@[a]).to == all[p].0 by {
            let g = choose|g: int|
                0 <= g < contents.len() && (#[trigger] contents[g]).0 == all[p].0;
            assert(batches@[g].to == all[p].0);
        }
    }
    Departure { stored, protocol: dissemination_protocol_id(), batches }
}

/// The originator loses no key: each is either stored by the originator itself, or can be read from
/// one of the messages that it sends, as long as no message has more keys than it has room for.
pub proof fn lemma_origin_loses_no_key(
    departure: Departure,
    table: RoutingTable,
    args: DisseminationArgs,
    keys: Seq<NodeId>,
    key: NodeId,
)
    requires
        table.wf(),
        keys.contains(key),
        args.batching_strategy == BatchingStrategy::BucketWise ==> key != table.local,
        departure.is_for(table, args, keys),
        forall|n: NodeId|
            (#[trigger] values_of(origin_assignments(table, args, keys), n)).len() <= MAX_KEYS,
    ensures
        kept_at_origin(table, args, keys).contains(key) || exists|i: int|
            0 <= i < departure.batches@.len() && frame_keys(
                (#[trigger] departure.batches@[i]).message@,
            ).contains(key) && frame_id(departure.batches@[i].message@)
                == departure.batches@[i].id@,
{
    let pairs = origin_assignments(table, args, keys);
    let batches = departure.batches@;
    lemma_each_key_is_assigned(
        table,
        args.batching_strategy,
        None,
        replication(args),
        keys,
        key,
    );
    let p = choose|p: int|
        0 <= p < pairs.len() && (#[trigger] pairs[p]).1 == key && values_of(
            pairs,
            pairs[p].0,
        ).contains(key);
    if pairs[p].0 != table.local {
        let i = choose|i: int| 0 <= i < batches.len() && (#[trigger] batches[i]).to == pairs[p].0;
        lemma_frame_round_trip(batches[i].id@, values_of(pairs, batches[i].to));
        assert(frame_keys(batches[i].message@).contains(key));
    }
}

/// What the originator sends and stores: each node other than itself that some key goes to gets one
/// message, with exactly the keys that go to it, in their order; no other node gets any. The
/// originator stores exactly the keys that go to itself, each with the bytes that stand for it.
pub proof fn lemma_departure_is_exact(
    departure: Departure,
    table: RoutingTable,
    args: DisseminationArgs,
    keys: Seq<NodeId>,
    node: NodeId,
)
    requires
        table.wf(),
        args.batching_strategy == BatchingStrategy::BucketWise ==> !keys.contains(table.local),
        departure.is_for(table, args, keys),
    ensures
        ({
            let mine = keys.filter(
                |k: NodeId|
                    targets(table, args.batching_strategy, None, replication(args), k).contains(
                        node,
                    ),
            );
            let batches = departure.batches@;
            let stored = departure.stored@;
            &&& departure.protocol@ == seq![68u8, 50u8, 83u8]
            &&& (exists|i: int| 0 <= i < batches.len() && (#[trigger] batches[i]).to == node)
                <==> node != table.local && mine.len() > 0
            &&& forall|i: int|
                0 <= i < batches.len() && (#[trigger] batches[i]).to == node
                    ==> batches[i].message@ == frame(batches[i].id@, mine)
            &&& forall|i: int, j: int|
                0 <= i < batches.len() && 0 <= j < batches.len() && (#[trigger] batches[i]).to == (
                #[trigger] batches[j]).to ==> i == j
            &&& node == table.local ==> {
                &&& kept_at_origin(table, args, keys) == mine
                &&& stored.len() == mine.len()
                &&& forall|i: int|
                    0 <= i < stored.len() ==> (#[trigger] stored[i]).0 == mine[i] && stored[i].1@
                        == seq![121u8, 101u8, 112u8]
            }
        }),
        forall|i: int, c: int|
            0 <= i < departure.batches@.len() && 0 <= c < 8 ==> {
                let byte = #[trigger] departure.batches@[i].id@[c];
                ||| 'a' as u8 <= byte <= 'z' as u8
                ||| 'A' as u8 <= byte <= 'Z' as u8
                ||| '0' as u8 <= byte <= '9' as u8
                ||| byte == '-' as u8
                ||| byte == '_' as u8
            },
{
    let cap = replication(args);
    let pairs = assignments(table, args.batching_strategy, None, cap, keys);
    let batches = departure.batches@;
    let stored = departure.stored@;
    lemma_keys_of_a_node(table, args.batching_strategy, None, cap, keys, node);
    let mine = keys.filter(
        |k: NodeId|
            targets(table, args.batching_strategy, None, replication(args), k).contains(node),
    );
    assert(values_of(pairs, node) == mine);
    if node != table.local && mine.len() > 0 {
        lemma_values_witness(pairs, node);
        let p = choose|p: int| 0 <= p < pairs.len() && (#[trigger] pairs[p]).0 == node;
        assert(pairs[p].0 != table.local);
    }
    assert forall|i: int, j: int|
        0 <= i < batches.len() && 0 <= j < batches.len() && (#[trigger] batches[i]).to == (
        #[trigger] batches[j]).to implies i == j by {
        if i < j {
            assert(batches[i].to != batches[j].to);
        } else if j < i {
            assert(batches[j].to != batches[i].to);
        }
    }
    if node == table.local {
        assert(sample_contents(stored).len() == with_payload(mine).len());
        assert forall|i: int| 0 <= i < stored.len() implies (#[trigger] stored[i]).0 == mine[i]
            && stored[i].1@ == seq![121u8, 101u8, 112u8] by {
            assert(sample_contents(stored)[i] == with_payload(mine)[i]);
        }
    }
    assert forall|i: int, c: int| 0 <= i < batches.len() && 0 <= c < 8 implies {
        let byte = #[trigger] batches[i].id@[c];
        ||| 'a' as u8 <= byte <= 'z' as u8
        ||| 'A' as u8 <= byte <= 'Z' as u8
        ||| '0' as u8 <= byte <= '9' as u8
        ||| byte == '-' as u8
        ||| byte == '_' as u8
    } by {
        assert(batches[i].to != table.local);
        assert(is_url_safe(batches[i].id@[c]));
    }
}

} // verus!
