use model_das::args::{
    BatchingStrategy, DisseminationArgs, ForwardPolicy, ReplicatePolicy, RoutingStrategy,
};
use model_das::closer::RemoteNodeId;
use model_das::ids::NodeId;
use model_das::iterative::{
    disseminate_samples_iteratively, Action, Answer, BatchIds, Dissemination, PlannedBatch,
};
use model_das::messages::DisseminationMsg;
use model_das::node::DASNode;

fn id(last: u8) -> NodeId {
    let mut id = [0u8; 32];
    id[31] = last;
    id
}

/// A dissemination by node 128 that has asked the nodes 1 and 2 about the key 3.
fn asked(parallelism: usize) -> Dissemination {
    let args = DisseminationArgs {
        number_of_samples: 1,
        routing_strategy: RoutingStrategy::Iterative,
        batching_strategy: BatchingStrategy::BucketWise,
        forward_mode: ForwardPolicy::ForwardAll,
        replicate_mode: ReplicatePolicy::ReplicateAll,
        redundancy: 0,
        parallelism,
    };
    let mut node = DASNode::new(vec![], vec![]);
    let batches = vec![
        PlannedBatch { keys: vec![id(3)], nodes: vec![id(1), id(2)] },
        PlannedBatch { keys: vec![id(160), id(161)], nodes: vec![id(128)] },
    ];
    let ids = vec![
        BatchIds { batch_id: 50, request_ids: vec![10, 11] },
        BatchIds { batch_id: 51, request_ids: vec![12] },
    ];
    let opening = disseminate_samples_iteratively(&mut node, id(128), &args, &batches, &ids);
    assert_eq!(
        opening.stored,
        vec![(id(160), b"yep".to_vec()), (id(161), b"yep".to_vec())]
    );
    assert_eq!(node.stored_keys(), vec![id(160), id(161)]);
    let sent: Vec<(NodeId, u16, u16)> = opening
        .sent
        .iter()
        .map(|r| (r.to, r.request_id, r.batch_id))
        .collect();
    assert_eq!(sent, vec![(id(1), 10, 50), (id(2), 11, 50)]);
    for request in &opening.sent {
        match &request.message {
            DisseminationMsg::Keys((batch, keys)) => {
                assert_eq!(*batch, 50);
                assert_eq!(*keys, vec![id(3)]);
            }
            other => panic!("{other:?}"),
        }
    }
    opening.dissemination
}

fn complete(state: &mut Dissemination) -> Vec<(RemoteNodeId, Vec<NodeId>)> {
    assert!(matches!(state.closer_nodes(10, 50, &id(1), &vec![]), Answer::Waiting));
    match state.closer_nodes(11, 50, &id(2), &vec![]) {
        Answer::Complete(mut groups) => {
            groups.sort_by_key(|(remote, _)| remote.unwrap());
            groups
        }
        other => panic!("{other:?}"),
    }
}

#[test]
fn answers_are_awaited_once() {
    let mut state = asked(10);
    assert!(state.awaits(10, &id(1)));
    assert!(state.accepts(10, 50, &id(1), &vec![id(7)]));
    assert!(!state.accepts(10, 50, &id(1), &vec![id(1)]));
    assert!(!state.accepts(10, 99, &id(1), &vec![]));
    assert!(matches!(state.closer_nodes(10, 50, &id(1), &vec![]), Answer::Waiting));
    assert!(!state.awaits(10, &id(1)));
    assert!(state.accepts(10, 50, &id(1), &vec![]));
    assert!(matches!(state.closer_nodes(10, 50, &id(1), &vec![]), Answer::Stale));
}

#[test]
fn all_answers_complete_a_batch() {
    let mut state = asked(10);
    let groups = complete(&mut state);
    assert_eq!(groups.len(), 2);
    for (i, node) in [id(1), id(2)].into_iter().enumerate() {
        assert!(matches!(groups[i].0, RemoteNodeId::SendSamples(_)));
        assert_eq!(groups[i].0.unwrap(), node);
        assert_eq!(groups[i].1, vec![id(3)]);
    }
}

#[test]
fn requests_leave_one_by_one() {
    let mut state = asked(10);
    let groups = complete(&mut state);
    let first = match state.proceed(11, &id(2), &groups, &vec![(20, 60), (21, 61)]) {
        Action::Send(request) => request,
        other => panic!("{other:?}"),
    };
    assert_eq!((first.to, first.request_id, first.batch_id), (id(1), 20, 60));
    match first.message {
        DisseminationMsg::Samples(samples) => {
            assert_eq!(samples, vec![(id(3), b"yep".to_vec())])
        }
        other => panic!("{other:?}"),
    }
    let second = match state.received(20, &id(1)) {
        Action::Send(request) => request,
        other => panic!("{other:?}"),
    };
    assert_eq!((second.to, second.request_id, second.batch_id), (id(2), 21, 61));
    assert!(matches!(state.received(21, &id(2)), Action::Finished));
}

#[test]
fn samples_are_sent_once() {
    let mut state = asked(10);
    let _ = complete(&mut state);
    let groups = vec![
        (RemoteNodeId::SendSamples(id(1)), vec![id(3), id(4)]),
        (RemoteNodeId::SendSamples(id(1)), vec![id(4), id(5), id(5)]),
        (RemoteNodeId::SendSamples(id(1)), vec![id(3)]),
        (RemoteNodeId::SendSamples(id(128)), vec![id(3)]),
        (RemoteNodeId::AskCloser(id(128)), vec![id(3)]),
    ];
    let ids = vec![(20, 60), (21, 61), (22, 62), (23, 63), (24, 64)];
    let action = state.proceed(11, &id(2), &groups, &ids);
    assert!(matches!(action, Action::Send(_)));
    assert_eq!(state.outbound.len(), 1);
    match state.received(20, &id(1)) {
        Action::Send(request) => match request.message {
            DisseminationMsg::Samples(samples) => {
                assert_eq!(samples, vec![(id(5), b"yep".to_vec())])
            }
            other => panic!("{other:?}"),
        },
        other => panic!("{other:?}"),
    }
}

#[test]
fn a_busy_node_loses_its_turn() {
    let mut state = asked(10);
    let _ = complete(&mut state);
    let groups = vec![
        (RemoteNodeId::AskCloser(id(1)), vec![id(3)]),
        (RemoteNodeId::AskCloser(id(1)), vec![id(4)]),
        (RemoteNodeId::AskCloser(id(5)), vec![id(4)]),
    ];
    let ids = vec![(20, 60), (21, 61), (22, 62)];
    assert!(matches!(state.proceed(11, &id(2), &groups, &ids), Action::Send(_)));
    assert!(matches!(state.closer_nodes(20, 60, &id(1), &vec![]), Answer::Complete(_)));
    let more = vec![(RemoteNodeId::AskCloser(id(9)), vec![id(3)])];
    let next = match state.proceed(20, &id(1), &more, &vec![(23, 63)]) {
        Action::Send(request) => request,
        other => panic!("{other:?}"),
    };
    assert_eq!((next.to, next.request_id), (id(1), 21));
    assert_eq!(state.outbound.len(), 2);
    assert!(!state.awaits(22, &id(5)));
}

#[test]
fn a_turn_waits_for_a_busy_node() {
    let mut state = asked(10);
    assert!(matches!(state.closer_nodes(10, 50, &id(1), &vec![]), Answer::Waiting));
    let groups = vec![
        (RemoteNodeId::AskCloser(id(2)), vec![id(3)]),
        (RemoteNodeId::AskCloser(id(5)), vec![id(4)]),
    ];
    state.requests_per_node.insert(id(1), 10);
    state.pending.insert(10, ());
    assert!(matches!(
        state.proceed(10, &id(1), &groups, &vec![(20, 60), (21, 61)]),
        Action::Idle
    ));
    assert_eq!(state.outbound[0].to, id(5));
    assert_eq!(state.outbound[1].to, id(2));
}

#[test]
fn parallelism_is_bounded() {
    let mut state = asked(1);
    let groups = vec![
        (RemoteNodeId::AskCloser(id(5)), vec![id(3)]),
        (RemoteNodeId::AskCloser(id(6)), vec![id(4)]),
    ];
    let ids = vec![(20, 60), (21, 61)];
    assert!(matches!(state.proceed(10, &id(1), &groups, &ids), Action::Idle));
    assert!(matches!(state.received(11, &id(2)), Action::Send(_)));
    assert_eq!(state.pending.len(), 1);
    assert_eq!(state.outbound.len(), 1);
}

#[test]
fn the_last_timeout_ends_it() {
    let mut state = asked(2);
    assert!(matches!(state.timed_out(10), Action::Idle));
    let groups = vec![(RemoteNodeId::AskCloser(id(5)), vec![id(3)])];
    assert!(matches!(state.timed_out(11), Action::Finished));
    let mut state = asked(1);
    assert!(matches!(
        state.proceed(10, &id(1), &groups, &vec![(20, 60)]),
        Action::Idle
    ));
    assert!(matches!(state.timed_out(11), Action::Finished));
    assert_eq!(state.outbound.len(), 1);
}
