use model_das::closer::{offer, regroup, RemoteNodeId};
use model_das::ids::NodeId;

fn id(last: u8) -> NodeId {
    let mut id = [0u8; 32];
    id[31] = last;
    id
}

/// Whether samples are sent, the node, and the keys, in a fixed order.
fn listed(groups: Vec<(RemoteNodeId, Vec<NodeId>)>) -> Vec<(bool, NodeId, Vec<NodeId>)> {
    let mut list: Vec<(bool, NodeId, Vec<NodeId>)> = groups
        .into_iter()
        .map(|(remote, mut keys)| {
            keys.sort();
            let sends = matches!(remote, RemoteNodeId::SendSamples(_));
            (sends, remote.unwrap(), keys)
        })
        .collect();
    list.sort();
    list
}

#[test]
fn the_node_is_unwrapped() {
    assert_eq!(RemoteNodeId::AskCloser(id(4)).unwrap(), id(4));
    assert_eq!(RemoteNodeId::SendSamples(id(5)).unwrap(), id(5));
}

#[test]
fn closer_nodes_are_asked_next() {
    let offered = offer(&vec![id(1), id(192), id(2)], &id(128), &vec![id(3), id(160)]);
    let expected = vec![(id(3), false, id(1)), (id(3), false, id(2)), (id(160), true, id(128))];
    let got: Vec<(NodeId, bool, NodeId)> = offered
        .iter()
        .map(|(key, remote)| {
            let sends = matches!(remote, RemoteNodeId::SendSamples(_));
            (*key, sends, remote.unwrap())
        })
        .collect();
    assert_eq!(got, expected);
}

#[test]
fn the_closest_nodes_are_chosen_once() {
    let responses = vec![
        (id(3), RemoteNodeId::AskCloser(id(1))),
        (id(3), RemoteNodeId::AskCloser(id(2))),
        (id(3), RemoteNodeId::AskCloser(id(1))),
        (id(160), RemoteNodeId::SendSamples(id(128))),
        (id(0), RemoteNodeId::AskCloser(id(2))),
        (id(0), RemoteNodeId::AskCloser(id(1))),
    ];
    assert_eq!(
        listed(regroup(&responses, Some(1))),
        vec![
            (false, id(1), vec![id(0)]),
            (false, id(2), vec![id(3)]),
            (true, id(128), vec![id(160)]),
        ]
    );
    assert_eq!(
        listed(regroup(&responses, None)),
        vec![
            (false, id(1), vec![id(0), id(3)]),
            (false, id(2), vec![id(0), id(3)]),
            (true, id(128), vec![id(160)]),
        ]
    );
    assert_eq!(listed(regroup(&responses, Some(2))), listed(regroup(&responses, None)));
}

#[test]
fn asking_and_sending_are_kept_apart() {
    let responses = vec![
        (id(3), RemoteNodeId::AskCloser(id(1))),
        (id(4), RemoteNodeId::SendSamples(id(1))),
    ];
    assert_eq!(
        listed(regroup(&responses, None)),
        vec![(false, id(1), vec![id(3)]), (true, id(1), vec![id(4)])]
    );
    assert!(regroup(&vec![], None).is_empty());
}
