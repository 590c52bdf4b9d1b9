use model_das::allocation::{
    assign, choose_targets, order_by_distance, relay_cap, replication_cap, RoutingTable,
};
use model_das::args::{
    BatchingStrategy, DisseminationArgs, ForwardPolicy, ReplicatePolicy, RoutingStrategy,
};
use model_das::ids::{xor_distance, NodeId};

fn id(last: u8) -> NodeId {
    let mut id = [0u8; 32];
    id[31] = last;
    id
}

fn table() -> RoutingTable {
    RoutingTable::new(id(128), &vec![id(1), id(192), id(2), id(129)])
}

fn args(replicate_mode: ReplicatePolicy, redundancy: usize) -> DisseminationArgs {
    DisseminationArgs {
        number_of_samples: 4,
        routing_strategy: RoutingStrategy::Recursive,
        batching_strategy: BatchingStrategy::BucketWise,
        forward_mode: ForwardPolicy::ForwardOne,
        replicate_mode,
        redundancy,
        parallelism: 1,
    }
}

#[test]
fn contacts_are_sorted_into_buckets() {
    let table = table();
    assert_eq!(table.buckets.len(), 256);
    assert_eq!(table.buckets[7], vec![id(1), id(2)]);
    assert_eq!(table.buckets[6], vec![id(192)]);
    assert_eq!(table.buckets[0], vec![id(129)]);
    assert!(table.buckets[5].is_empty());
}

#[test]
fn nodes_are_ordered_by_distance() {
    let nodes = vec![id(1), id(192), id(2), id(129), id(128)];
    assert_eq!(
        order_by_distance(&nodes, &id(3)),
        vec![id(2), id(1), id(129), id(128), id(192)]
    );
    assert_eq!(order_by_distance(&vec![], &id(3)), Vec::<NodeId>::new());
}

#[test]
fn bucket_wise_targets() {
    let t = table();
    let by_bucket = BatchingStrategy::BucketWise;
    assert_eq!(choose_targets(&t, by_bucket, &None, Some(1), &id(3)), vec![id(1)]);
    assert_eq!(choose_targets(&t, by_bucket, &None, None, &id(3)), vec![id(1), id(2)]);
    assert_eq!(choose_targets(&t, by_bucket, &Some(id(1)), Some(1), &id(3)), vec![id(2)]);
    assert_eq!(choose_targets(&t, by_bucket, &None, Some(3), &id(160)), vec![id(128)]);
    assert_eq!(choose_targets(&t, by_bucket, &Some(id(192)), None, &id(255)), vec![id(128)]);
}

#[test]
fn policies_choose_from_the_bucket() {
    let t = RoutingTable::new(id(128), &vec![id(1), id(192), id(2), id(5), id(129)]);
    let chosen = |policy, redundancy, key| {
        let cap = replication_cap(&args(policy, redundancy));
        choose_targets(&t, BatchingStrategy::BucketWise, &None, cap, &key)
    };
    let all = vec![id(1), id(2), id(5)];
    assert_eq!(chosen(ReplicatePolicy::ReplicateAll, 0, id(3)), all);
    assert_eq!(chosen(ReplicatePolicy::ReplicateOne, 9, id(3)), all[..1]);
    assert_eq!(chosen(ReplicatePolicy::ReplicateSome, 0, id(3)), all[..1]);
    assert_eq!(chosen(ReplicatePolicy::ReplicateSome, 1, id(3)), all[..2]);
    assert_eq!(chosen(ReplicatePolicy::ReplicateSome, 9, id(3)), all);
    assert_eq!(chosen(ReplicatePolicy::ReplicateAll, 0, id(160)), vec![id(128)]);
}

#[test]
fn more_replicas_keep_the_nodes() {
    let t = table();
    for batching in [BatchingStrategy::BucketWise, BatchingStrategy::DistanceWise] {
        for key in [id(3), id(160), id(255)] {
            let one = choose_targets(&t, batching, &None, Some(1), &key);
            let some = choose_targets(&t, batching, &None, Some(2), &key);
            let all = choose_targets(&t, batching, &None, None, &key);
            assert!(some.starts_with(&one));
            assert!(all.starts_with(&some));
        }
    }
}

#[test]
fn distance_wise_targets() {
    let t = table();
    let by_distance = BatchingStrategy::DistanceWise;
    assert_eq!(choose_targets(&t, by_distance, &None, Some(2), &id(3)), vec![id(2), id(1)]);
    assert_eq!(
        choose_targets(&t, by_distance, &Some(id(2)), Some(2), &id(3)),
        vec![id(1), id(129)]
    );
    assert_eq!(choose_targets(&t, by_distance, &None, Some(1), &id(128)), vec![id(128)]);
    assert_eq!(choose_targets(&t, by_distance, &None, None, &id(3)).len(), 5);
}

#[test]
fn keys_are_assigned_in_order() {
    let keys = vec![id(3), id(160), id(255)];
    let pairs = assign(&table(), BatchingStrategy::BucketWise, &None, None, &keys);
    assert_eq!(
        pairs,
        vec![
            (id(1), id(3)),
            (id(2), id(3)),
            (id(128), id(160)),
            (id(192), id(255)),
        ]
    );
}

#[test]
fn replication_limits() {
    assert_eq!(replication_cap(&args(ReplicatePolicy::ReplicateOne, 9)), Some(1));
    assert_eq!(replication_cap(&args(ReplicatePolicy::ReplicateSome, 9)), Some(10));
    assert_eq!(replication_cap(&args(ReplicatePolicy::ReplicateAll, 9)), None);
    let mut iterative = args(ReplicatePolicy::ReplicateAll, 9);
    iterative.routing_strategy = RoutingStrategy::Iterative;
    assert_eq!(relay_cap(&iterative), Some(2));
    assert_eq!(relay_cap(&args(ReplicatePolicy::ReplicateAll, 9)), None);
}

#[test]
fn a_key_comes_to_rest() {
    let all: Vec<NodeId> = (0..40u8).map(|n| id(n * 6 + 1)).collect();
    let tables: Vec<RoutingTable> = all
        .iter()
        .map(|n| {
            let others: Vec<NodeId> = all.iter().filter(|o| *o != n).cloned().collect();
            RoutingTable::new(*n, &others)
        })
        .collect();
    for batching in [BatchingStrategy::BucketWise, BatchingStrategy::DistanceWise] {
        for key in [id(0), id(40), id(100), id(254)] {
            for start in 0..all.len() {
                let mut from = None;
                let mut at = start;
                loop {
                    let next = choose_targets(&tables[at], batching, &from, Some(1), &key);
                    assert_eq!(next.len(), 1);
                    if next[0] == all[at] {
                        break;
                    }
                    assert!(xor_distance(&next[0], &key) < xor_distance(&all[at], &key));
                    from = Some(all[at]);
                    at = all.iter().position(|n| *n == next[0]).unwrap();
                }
                let rest = xor_distance(&all[at], &key);
                assert!(rest <= xor_distance(&all[start], &key));
            }
        }
    }
}
