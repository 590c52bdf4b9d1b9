use model_das::allocation::RoutingTable;
use model_das::args::{
    BatchingStrategy, DisseminationArgs, ForwardPolicy, ReplicatePolicy, RoutingStrategy,
};
use model_das::collections::KeyedMap;
use model_das::frame::{decode_frame, encode_frame};
use model_das::ids::NodeId;
use model_das::messages::DisseminationMsg;
use model_das::node::{room_for, DASNode, Handling, Reply, Request};

fn id(last: u8) -> NodeId {
    let mut id = [0u8; 32];
    id[31] = last;
    id
}

fn table() -> RoutingTable {
    RoutingTable::new(id(128), &vec![id(1), id(192), id(2), id(129)])
}

fn args(routing_strategy: RoutingStrategy, forward_mode: ForwardPolicy) -> DisseminationArgs {
    DisseminationArgs {
        number_of_samples: 4,
        routing_strategy,
        batching_strategy: BatchingStrategy::BucketWise,
        forward_mode,
        replicate_mode: ReplicatePolicy::ReplicateOne,
        redundancy: 0,
        parallelism: 1,
    }
}

fn handle(node: &mut DASNode, args: &DisseminationArgs, request: Request) -> Handling {
    let known = vec![id(1), id(2), id(192)];
    assert!(node.can_handle(&table(), args, &request));
    node.handle_dissemination_request(&table(), id(1), args, &known, request)
}

fn closer_nodes(handling: Handling) -> Vec<NodeId> {
    assert!(handling.stored.is_empty());
    assert!(handling.forwards.is_empty());
    match handling.reply {
        Reply::Message(DisseminationMsg::CloserNodes(mut nodes)) => {
            nodes.sort();
            nodes
        }
        other => panic!("{other:?}"),
    }
}

#[test]
fn a_new_node_is_empty() {
    let node = DASNode::new(vec![id(1)], vec![id(2)]);
    assert_eq!(node.overlay.protocol, "DAS");
    assert_eq!(node.overlay.bootnodes, vec![id(1)]);
    assert_eq!(node.secure_overlay.protocol, "SECURE_DAS");
    assert_eq!(node.secure_overlay.bootnodes, vec![id(2)]);
    assert_eq!(node.overlay.query_num_results, usize::MAX);
    assert_eq!(node.overlay.radius, [255; 32]);
    assert_eq!(node.secure_overlay.radius, [255; 32]);
    assert_eq!(node.overlay.ping_queue_interval_secs, 10000);
    assert_eq!(node.overlay.query_timeout_secs, 60);
    assert_eq!(node.overlay.query_peer_timeout_secs, 30);
    assert!(node.stored_keys().is_empty());
    assert_eq!(node.handle_sampling_request(&id(1)), None);
}

#[test]
fn samples_are_stored_and_served() {
    let mut node = DASNode::new(vec![], vec![]);
    let args = args(RoutingStrategy::Iterative, ForwardPolicy::ForwardOne);
    let samples = vec![(id(3), b"yep".to_vec()), (id(4), vec![]), (id(3), vec![7])];
    let request = Request::Message(DisseminationMsg::Samples(samples.clone()));
    let handling = handle(&mut node, &args, request);
    assert_eq!(handling.stored, samples);
    assert!(handling.forwards.is_empty());
    assert!(matches!(
        handling.reply,
        Reply::Message(DisseminationMsg::Received(0))
    ));
    assert_eq!(node.samples.get(&id(3)), Some(&2));
    assert_eq!(node.samples.get(&id(4)), Some(&1));
    assert_eq!(node.handle_sampling_request(&id(3)), Some(b"yep".to_vec()));
    assert_eq!(node.handle_sampling_request(&id(4)), Some(b"yep".to_vec()));
    assert_eq!(node.handle_sampling_request(&id(5)), None);
    assert_eq!(node.stored_keys().len(), 2);
    node.store(&vec![id(5)]);
    assert_eq!(node.handle_sampling_request(&id(3)), Some(b"yep".to_vec()));
    assert_eq!(node.handle_sampling_request(&id(5)), Some(b"yep".to_vec()));
}

#[test]
fn closer_nodes_are_named() {
    let mut node = DASNode::new(vec![], vec![]);
    let args = args(RoutingStrategy::Iterative, ForwardPolicy::ForwardOne);
    let keys = vec![id(3), id(255), id(160)];
    let request = Request::Message(DisseminationMsg::Keys((513, keys)));
    assert_eq!(closer_nodes(handle(&mut node, &args, request)), vec![id(2), id(192)]);
    assert_eq!(node.handled_ids.get(&vec![2, 1]), Some(&1));
    assert!(node.stored_keys().is_empty());
}

#[test]
fn a_repeated_request_is_refused() {
    let mut node = DASNode::new(vec![], vec![]);
    let once = args(RoutingStrategy::Iterative, ForwardPolicy::ForwardOne);
    let ask = || Request::Message(DisseminationMsg::Keys((7, vec![id(3)])));
    assert_eq!(closer_nodes(handle(&mut node, &once, ask())), vec![id(2)]);
    assert_eq!(closer_nodes(handle(&mut node, &once, ask())), Vec::<NodeId>::new());
    assert_eq!(node.handled_ids.get(&vec![0, 7]), Some(&1));
    let always = args(RoutingStrategy::Iterative, ForwardPolicy::ForwardAll);
    assert_eq!(closer_nodes(handle(&mut node, &always, ask())), vec![id(2)]);
    assert_eq!(node.handled_ids.get(&vec![0, 7]), Some(&2));
}

#[test]
fn keys_are_relayed() {
    let mut node = DASNode::new(vec![], vec![]);
    let args = args(RoutingStrategy::Recursive, ForwardPolicy::ForwardOne);
    let keys = vec![id(3), id(160), id(4), id(255)];
    let request = Request::Frame(encode_frame(b"abcdefgh", &keys));
    let mut handling = handle(&mut node, &args, request);
    assert!(matches!(handling.reply, Reply::Empty));
    assert_eq!(handling.stored, vec![(id(160), b"yep".to_vec())]);
    assert_eq!(node.samples.get(&id(160)), Some(&1));
    handling.forwards.sort();
    assert_eq!(handling.protocol, b"D2S".to_vec());
    assert_eq!(handling.forwards.len(), 2);
    assert_eq!(handling.forwards[0].0, id(2));
    assert_eq!(
        decode_frame(&handling.forwards[0].1),
        (*b"abcdefgh", vec![id(3), id(4)])
    );
    assert_eq!(handling.forwards[1].0, id(192));
    assert_eq!(
        decode_frame(&handling.forwards[1].1),
        (*b"abcdefgh", vec![id(255)])
    );
    let again = Request::Frame(encode_frame(b"abcdefgh", &keys));
    assert_eq!(closer_nodes(handle(&mut node, &args, again)), Vec::<NodeId>::new());
}

#[test]
fn unfit_requests_are_told_apart() {
    let node = DASNode::new(vec![], vec![]);
    let recursive = args(RoutingStrategy::Recursive, ForwardPolicy::ForwardOne);
    let iterative = args(RoutingStrategy::Iterative, ForwardPolicy::ForwardOne);
    let t = table();
    let frame = |keys: &Vec<NodeId>| Request::Frame(encode_frame(b"abcdefgh", keys));
    assert!(node.can_handle(&t, &recursive, &frame(&vec![id(3)])));
    assert!(!node.can_handle(&t, &iterative, &frame(&vec![id(3)])));
    assert!(!node.can_handle(&t, &recursive, &frame(&vec![id(128)])));
    let received = Request::Message(DisseminationMsg::Received(0));
    assert!(!node.can_handle(&t, &iterative, &received));
    let keys = Request::Message(DisseminationMsg::Keys((1, vec![id(128)])));
    assert!(!node.can_handle(&t, &iterative, &keys));
}

#[test]
fn requests_are_counted_by_identifier() {
    let ask = |request_id: u16| Request::Message(DisseminationMsg::Keys((request_id, vec![id(3)])));
    let calls = [7u16, 8, 7, 7, 9, 8];
    for (mode, expected) in [
        (ForwardPolicy::ForwardOne, [1usize, 1, 1]),
        (ForwardPolicy::ForwardAll, [3, 2, 1]),
    ] {
        let mut node = DASNode::new(vec![], vec![]);
        let args = args(RoutingStrategy::Iterative, mode);
        for call in calls {
            handle(&mut node, &args, ask(call));
            let samples = DisseminationMsg::Samples(vec![(id(4), b"yep".to_vec())]);
            handle(&mut node, &args, Request::Message(samples));
        }
        assert_eq!(node.handled_ids.len(), 3);
        for (i, count) in expected.into_iter().enumerate() {
            assert_eq!(node.handled_ids.get(&vec![0, 7 + i as u8]), Some(&count));
        }
    }
}

#[test]
fn counts_do_not_overflow() {
    let mut counts: KeyedMap<NodeId, usize> = KeyedMap::new();
    assert!(room_for(&counts, usize::MAX));
    counts.insert(id(1), usize::MAX - 2);
    assert!(room_for(&counts, 2));
    assert!(!room_for(&counts, 3));
}
