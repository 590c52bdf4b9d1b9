use model_das::allocation::RoutingTable;
use model_das::args::{
    BatchingStrategy, DisseminationArgs, ForwardPolicy, ReplicatePolicy, RoutingStrategy,
};
use model_das::dissemination::{disseminate_samples, Beginning};
use model_das::frame::decode_frame;
use model_das::ids::NodeId;
use model_das::iterative::{
    disseminate_samples_iteratively, Action, Answer, BatchIds, Outbound, PlannedBatch,
};
use model_das::messages::DisseminationMsg;
use model_das::node::{DASNode, Reply, Request};
use model_das::recursive::disseminate_samples_recursively;
use model_das::report::{Holding, Tally};

fn id(last: u8) -> NodeId {
    let mut id = [0u8; 32];
    id[31] = last;
    id
}

fn args(
    routing_strategy: RoutingStrategy,
    batching_strategy: BatchingStrategy,
    forward_mode: ForwardPolicy,
    replicate_mode: ReplicatePolicy,
    redundancy: usize,
    parallelism: usize,
) -> DisseminationArgs {
    DisseminationArgs {
        number_of_samples: 64,
        routing_strategy,
        batching_strategy,
        forward_mode,
        replicate_mode,
        redundancy,
        parallelism,
    }
}

struct Net {
    ids: Vec<NodeId>,
    tables: Vec<RoutingTable>,
    nodes: Vec<DASNode>,
}

impl Net {
    /// Nodes with odd identifiers that each know every third of the others.
    fn new() -> Self {
        let ids: Vec<NodeId> = (0..30u8).map(|n| id(n * 8 + 1)).collect();
        let tables: Vec<RoutingTable> = (0..ids.len())
            .map(|i| {
                let contacts: Vec<NodeId> = (0..ids.len())
                    .filter(|j| *j != i && (i + *j) % 3 != 0)
                    .map(|j| ids[j])
                    .collect();
                RoutingTable::new(ids[i], &contacts)
            })
            .collect();
        let nodes = ids.iter().map(|_| DASNode::new(vec![], vec![])).collect();
        Net { ids, tables, nodes }
    }

    fn index(&self, node: &NodeId) -> usize {
        self.ids.iter().position(|n| n == node).unwrap()
    }

    /// Keys with even last bytes.
    fn keys() -> Vec<NodeId> {
        (0..64u8).map(|n| id(n * 4 + 2)).collect()
    }

    fn relay(&mut self, args: &DisseminationArgs, from: NodeId, to: NodeId, message: Vec<u8>) {
        let mut queue = vec![(from, to, message)];
        while let Some((from, to, message)) = queue.pop() {
            let i = self.index(&to);
            let request = Request::Frame(message);
            assert!(self.nodes[i].can_handle(&self.tables[i], args, &request));
            let known = self.ids.clone();
            let handling = self.nodes[i].handle_dissemination_request(
                &self.tables[i],
                from,
                args,
                &known,
                request,
            );
            for (next, message) in handling.forwards {
                assert_ne!(next, to);
                assert_ne!(next, from);
                queue.push((to, next, message));
            }
        }
    }

    fn tally(&self) -> Tally {
        let holdings: Vec<Holding> = (0..self.ids.len())
            .map(|i| Holding {
                node: self.ids[i],
                keys: self.nodes[i].stored_keys(),
            })
            .collect();
        Tally::new(&holdings)
    }
}

#[test]
fn originator_splits_keys() {
    let mut node = DASNode::new(vec![], vec![]);
    let table = RoutingTable::new(id(128), &vec![id(1), id(192), id(2), id(129)]);
    let args = args(
        RoutingStrategy::Recursive,
        BatchingStrategy::BucketWise,
        ForwardPolicy::ForwardOne,
        ReplicatePolicy::ReplicateOne,
        0,
        1,
    );
    let keys = vec![id(3), id(160), id(4), id(255)];
    let mut departure = disseminate_samples_recursively(&mut node, &table, &args, &keys);
    assert_eq!(departure.stored, vec![(id(160), b"yep".to_vec())]);
    assert_eq!(node.stored_keys(), vec![id(160)]);
    departure.batches.sort_by_key(|batch| batch.to);
    assert_eq!(departure.protocol, b"D2S".to_vec());
    assert_eq!(departure.batches.len(), 2);
    assert_eq!(departure.batches[0].to, id(1));
    assert_eq!(departure.batches[1].to, id(192));
    for batch in &departure.batches {
        assert!(batch
            .id
            .iter()
            .all(|b| b.is_ascii_alphanumeric() || *b == b'-' || *b == b'_'));
        assert_eq!(decode_frame(&batch.message).0, batch.id);
    }
    assert_eq!(decode_frame(&departure.batches[0].message).1, vec![id(3), id(4)]);
    assert_eq!(decode_frame(&departure.batches[1].message).1, vec![id(255)]);
    assert_ne!(departure.batches[0].id, departure.batches[1].id);
}

fn run_recursively(args: &DisseminationArgs) -> Tally {
    let mut net = Net::new();
    let table = RoutingTable::new(net.ids[0], &net.tables[0].buckets.concat());
    let begun = disseminate_samples(&mut net.nodes[0], &table, args, &Net::keys());
    let departure = match begun {
        Beginning::Recursive(departure) => departure,
        Beginning::Iterative(_) => panic!("iterative"),
    };
    let origin = net.ids[0];
    for batch in departure.batches {
        net.relay(args, origin, batch.to, batch.message);
    }
    net.tally()
}

#[test]
fn recursive_dissemination_loses_no_key() {
    for replicate in [
        ReplicatePolicy::ReplicateOne,
        ReplicatePolicy::ReplicateSome,
        ReplicatePolicy::ReplicateAll,
    ] {
        let tally = run_recursively(&args(
            RoutingStrategy::Recursive,
            BatchingStrategy::BucketWise,
            ForwardPolicy::ForwardAll,
            replicate,
            1,
            1,
        ));
        assert_eq!(tally.unique_keys_stored(), 64);
        assert!(tally.missing_keys(&Net::keys()).is_empty());
        assert!(tally.keys_stored_total() >= 64);
    }
}

#[test]
fn one_replica_is_stored_once() {
    let tally = run_recursively(&args(
        RoutingStrategy::Recursive,
        BatchingStrategy::BucketWise,
        ForwardPolicy::ForwardAll,
        ReplicatePolicy::ReplicateOne,
        0,
        1,
    ));
    assert_eq!(tally.keys_stored_total(), 64);
}

fn plan(net: &mut Net, args: &DisseminationArgs) -> Vec<PlannedBatch> {
    let table = RoutingTable::new(net.ids[0], &net.tables[0].buckets.concat());
    match disseminate_samples(&mut net.nodes[0], &table, args, &Net::keys()) {
        Beginning::Iterative(batches) => batches,
        Beginning::Recursive(_) => panic!("recursive"),
    }
}

fn ask(net: &mut Net, args: &DisseminationArgs, request: DisseminationMsg, to: &NodeId) -> Reply {
    let i = net.index(to);
    let request = Request::Message(request);
    assert!(net.nodes[i].can_handle(&net.tables[i], args, &request));
    let known: Vec<NodeId> = net.ids.iter().filter(|n| *n != to).cloned().collect();
    let origin = net.ids[0];
    net.nodes[i]
        .handle_dissemination_request(&net.tables[i], origin, args, &known, request)
        .reply
}

fn run_iteratively(args: &DisseminationArgs) -> Tally {
    let mut net = Net::new();
    let batches = plan(&mut net, args);
    let mut next_id = 100u16;
    let mut fresh = || {
        next_id += 1;
        next_id
    };
    let ids: Vec<BatchIds> = batches
        .iter()
        .map(|batch| BatchIds {
            batch_id: fresh(),
            request_ids: batch.nodes.iter().map(|_| fresh()).collect(),
        })
        .collect();
    let origin = net.ids[0];
    let opening =
        disseminate_samples_iteratively(&mut net.nodes[0], origin, args, &batches, &ids);
    let mut state = opening.dissemination;
    let mut in_flight: Vec<Outbound> = opening.sent;
    assert!(!in_flight.is_empty());
    for (i, request) in in_flight.iter().enumerate() {
        assert!(in_flight[..i].iter().all(|other| other.to != request.to));
    }
    let mut handed_over: Vec<(NodeId, NodeId)> = vec![];
    loop {
        let request = in_flight.remove(0);
        assert_ne!(request.to, origin);
        assert_eq!(request.protocol, b"D2S".to_vec());
        let (request_id, batch_id, to) = (request.request_id, request.batch_id, request.to);
        if let DisseminationMsg::Samples(samples) = &request.message {
            for (key, bytes) in samples {
                assert_eq!(bytes, b"yep");
                assert!(!handed_over.contains(&(to, *key)));
                handed_over.push((to, *key));
            }
        }
        let action = match ask(&mut net, args, request.message, &to) {
            Reply::Message(DisseminationMsg::Received(_)) => {
                assert!(state.awaits(request_id, &to));
                state.received(request_id, &to)
            }
            Reply::Message(DisseminationMsg::CloserNodes(nodes)) => {
                assert!(state.accepts(request_id, batch_id, &to, &nodes));
                match state.closer_nodes(request_id, batch_id, &to, &nodes) {
                    Answer::Stale | Answer::Waiting => continue,
                    Answer::Complete(groups) => {
                        let ids: Vec<(u16, u16)> =
                            groups.iter().map(|_| (fresh(), fresh())).collect();
                        state.proceed(request_id, &to, &groups, &ids)
                    }
                }
            }
            other => panic!("{other:?}"),
        };
        match action {
            Action::Finished => break,
            Action::Send(next) => {
                assert!(in_flight.iter().all(|r| r.to != next.to));
                assert!(in_flight.len() < args.parallelism);
                in_flight.push(next);
            }
            Action::Idle => {}
        }
    }
    assert!(in_flight.is_empty());
    net.tally()
}

#[test]
fn iterative_dissemination_loses_no_key() {
    for replicate in [
        ReplicatePolicy::ReplicateOne,
        ReplicatePolicy::ReplicateSome,
        ReplicatePolicy::ReplicateAll,
    ] {
        let tally = run_iteratively(&args(
            RoutingStrategy::Iterative,
            BatchingStrategy::BucketWise,
            ForwardPolicy::ForwardAll,
            replicate,
            1,
            30,
        ));
        assert_eq!(tally.unique_keys_stored(), 64);
        assert!(tally.missing_keys(&Net::keys()).is_empty());
    }
}

#[test]
fn keys_of_one_bucket_make_one_batch() {
    let mut net = Net::new();
    let args = args(
        RoutingStrategy::Iterative,
        BatchingStrategy::BucketWise,
        ForwardPolicy::ForwardAll,
        ReplicatePolicy::ReplicateSome,
        1,
        30,
    );
    let batches = plan(&mut net, &args);
    let total: usize = batches.iter().map(|batch| batch.keys.len()).sum();
    assert_eq!(total, 64);
    for batch in &batches {
        let highest: Vec<u32> = batch
            .keys
            .iter()
            .map(|key| (key[31] ^ net.ids[0][31]).leading_zeros())
            .collect();
        assert!(highest.iter().all(|h| *h == highest[0]));
        assert!(batch.nodes.len() <= 2);
        assert!(!batch.nodes.is_empty());
    }
}
