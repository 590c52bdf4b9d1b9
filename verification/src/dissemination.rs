//! The dissemination of samples, by the routing strategy.

use vstd::prelude::*;
use crate::allocation::{replication, RoutingTable};
use crate::args::{BatchingStrategy, DisseminationArgs, ReplicatePolicy, RoutingStrategy};
use crate::ids::NodeId;
use crate::iterative::{is_plan, plan_batches, PlannedBatch};
use crate::node::{counted_all, has_room, DASNode};
use crate::recursive::{disseminate_samples_recursively, kept_at_origin, Departure};

verus! {

/// How a dissemination begins.
#[derive(Debug)]
pub enum Beginning {
    /// The originator sends its messages and waits until all are answered.
    Recursive(Departure),
    /// The originator asks the nodes of these batches first.
    Iterative(Vec<PlannedBatch>),
}

/// Begins the dissemination of samples under `keys`, as the routing strategy has it.
pub fn disseminate_samples(
    node: &mut DASNode,
    table: &RoutingTable,
    args: &DisseminationArgs,
    keys: &Vec<NodeId>,
) -> (beginning: Beginning)
    requires
        old(node).wf(),
        table.wf(),
        args.batching_strategy == BatchingStrategy::BucketWise ==> !keys@.contains(table.local),
        args.replicate_mode == ReplicatePolicy::ReplicateSome ==> args.redundancy < usize::MAX,
        args.routing_strategy == RoutingStrategy::Recursive ==> has_room(
            old(node)@.samples,
            keys@.len(),
        ),
        args.routing_strategy == RoutingStrategy::Iterative ==> args.batching_strategy
            == BatchingStrategy::BucketWise,
    ensures
        final(node).wf(),
        final(node)@.handled_ids == old(node)@.handled_ids,
        final(node).overlay == old(node).overlay,
        final(node).secure_overlay == old(node).secure_overlay,
        match beginning {
            Beginning::Recursive(departure) => {
                &&& args.routing_strategy == RoutingStrategy::Recursive
                &&& final(node)@.samples == counted_all(
                    old(node)@.samples,
                    kept_at_origin(*table, *args, keys@),
                )
                &&& departure.is_for(*table, *args, keys@)
            },
            Beginning::Iterative(batches) => {
                &&& args.routing_strategy == RoutingStrategy::Iterative
                &&& final(node)@.samples == old(node)@.samples
                &&& is_plan(batches@, *table, replication(*args), keys@)
            },
        },
{
    match args.routing_strategy {
        RoutingStrategy::Recursive => Beginning::Recursive(
            disseminate_samples_recursively(node, table, args, keys),
        ),
        RoutingStrategy::Iterative => Beginning::Iterative(plan_batches(table, args, keys)),
    }
}

} // verus!
