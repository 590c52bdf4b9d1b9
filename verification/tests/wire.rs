use model_das::args::{
    BatchingStrategy, DisseminationArgs, ForwardPolicy, Options, ReplicatePolicy, RoutingStrategy,
    SimulationCase, TalkWire, Topology,
};
use model_das::events::{
    carries_out, counter_command_on, handle_response, protocol_text, react, route_talk_request,
    Background, MessageCounter, MsgCountCmd, NodeEvent, OverlayCommandKind, Reaction, TalkProtocol,
    TalkRoute,
};
use model_das::messages::{
    dissemination_protocol_id, handle_talk_request, open_packet, send_request, send_results,
    transport, Delivery, ElasticPacket, ElasticResult, Outgoing, Transport,
};

fn dissemination() -> DisseminationArgs {
    DisseminationArgs {
        number_of_samples: 3,
        routing_strategy: RoutingStrategy::Recursive,
        batching_strategy: BatchingStrategy::BucketWise,
        forward_mode: ForwardPolicy::ForwardOne,
        replicate_mode: ReplicatePolicy::ReplicateOne,
        redundancy: 0,
        parallelism: 5,
    }
}

#[test]
fn packets_are_opened() {
    match open_packet(TalkWire::Discv5, ElasticPacket::Data(vec![1, 2])) {
        Delivery::Handle(bytes) => assert_eq!(bytes, vec![1, 2]),
        other => panic!("{other:?}"),
    }
    match open_packet(TalkWire::Libp2p, ElasticPacket::ConnectionId(0x0102)) {
        Delivery::FetchAndHandle(connection) => {
            assert_eq!(connection, u16::from_be(0x0102));
            assert_eq!(connection.to_ne_bytes(), [1, 2]);
        }
        other => panic!("{other:?}"),
    }
    let wires =
        [(TalkWire::Discv5, Transport::Overlay), (TalkWire::Libp2p, Transport::Libp2p)];
    for (wire, expected) in wires {
        let result = ElasticPacket::Result((7, ElasticResult::Data(vec![3])));
        match open_packet(wire, result) {
            Delivery::Fulfil { by, promise, result } => {
                assert_eq!((by, promise, result), (expected, 7, vec![3]))
            }
            other => panic!("{other:?}"),
        }
        let elsewhere = ElasticPacket::Result((7, ElasticResult::ConnectionId(0x0102)));
        match open_packet(wire, elsewhere) {
            Delivery::FetchAndFulfil { by, promise, connection } => {
                assert_eq!((by, promise, connection), (expected, 7, u16::from_be(0x0102)));
                assert_eq!(connection.to_ne_bytes(), [1, 2]);
            }
            other => panic!("{other:?}"),
        }
    }
}

#[test]
fn requests_are_addressed() {
    let wires =
        [(TalkWire::Discv5, Transport::Overlay), (TalkWire::Libp2p, Transport::Libp2p)];
    for (wire, expected) in wires {
        assert_eq!(transport(wire), expected);
        let sent = send_request(wire, [4; 32], dissemination_protocol_id(), vec![1, 2]);
        assert_eq!(sent.by, expected);
        assert_eq!(sent.to, [4; 32]);
        assert_eq!(sent.protocol, b"D2S".to_vec());
        assert_eq!(sent.body, vec![1, 2]);
    }
}

#[test]
fn a_talk_request_is_promised_a_result() {
    let opts = Options {
        node_count: 3,
        ip_listen: "127.0.0.1".to_string(),
        port_udp: 9000,
        topology: Topology::Uniform,
        wire_protocol: TalkWire::Discv5,
        request_timeout: 6,
        snapshot: "new".to_string(),
        cache_dir: "./data".to_string(),
        simulation_case: SimulationCase::Disseminate(dissemination()),
    };
    let packet = ElasticPacket::Data(vec![5]);
    let (answer, job) = handle_talk_request([1; 32], b"D2S", packet, &opts, 77);
    assert!(matches!(answer, ElasticPacket::Promise(77)));
    assert_eq!(job.from, [1; 32]);
    assert_eq!(job.promise_id, 77);
    assert_eq!(job.args, dissemination());
    assert!(matches!(job.packet, ElasticPacket::Data(_)));
    assert_eq!(dissemination_protocol_id(), b"D2S".to_vec());
}

#[test]
fn results_are_addressed() {
    match send_results(TalkWire::Discv5, [1; 32], 9, vec![4]) {
        Outgoing::Overlay { to, protocol, promise_id, payload } => {
            assert_eq!(to, [1; 32]);
            assert_eq!(protocol, b"D2S".to_vec());
            assert_eq!(promise_id, 9);
            assert_eq!(payload, vec![4]);
        }
        other => panic!("{other:?}"),
    }
    match send_results(TalkWire::Libp2p, [1; 32], 9, vec![4]) {
        Outgoing::Libp2p { to, protocol, packet } => {
            assert_eq!(to, [1; 32]);
            assert_eq!(protocol, b"D2S".to_vec());
            match packet {
                ElasticPacket::Result((9, ElasticResult::Data(bytes))) => {
                    assert_eq!(bytes, vec![4])
                }
                other => panic!("{other:?}"),
            }
        }
        other => panic!("{other:?}"),
    }
}

#[test]
fn messages_are_counted() {
    let mut counter = MessageCounter::new();
    assert_eq!(counter.apply(MsgCountCmd::Get), Some(0));
    assert_eq!(counter.apply(MsgCountCmd::Increment), None);
    assert_eq!(counter.apply(MsgCountCmd::Increment), None);
    assert_eq!(counter.apply(MsgCountCmd::Get), Some(2));
    assert_eq!(counter.apply(MsgCountCmd::Reset), None);
    assert_eq!(counter.apply(MsgCountCmd::Get), Some(0));
    assert_eq!(counter.apply(MsgCountCmd::Increment), None);
    assert_eq!(counter.apply(MsgCountCmd::Get), Some(1));
}

#[test]
fn requests_are_counted_and_nothing_else() {
    let mut counter = MessageCounter::new();
    let mut happen = |event| {
        if let Some(command) = counter_command_on(event) {
            assert_eq!(counter.apply(command), None);
        }
        counter.apply(MsgCountCmd::Get)
    };
    for event in [
        NodeEvent::Discovered,
        NodeEvent::EnrAdded,
        NodeEvent::NodeInserted,
        NodeEvent::SessionEstablished,
        NodeEvent::SocketUpdated,
    ] {
        assert_eq!(happen(event), Some(0));
    }
    assert_eq!(happen(NodeEvent::TalkRequest), Some(1));
    assert_eq!(happen(NodeEvent::FindValue), Some(2));
    assert_eq!(happen(NodeEvent::Libp2pTalkRequest), Some(3));
    counter.apply(MsgCountCmd::Reset);
    assert_eq!(counter.apply(MsgCountCmd::Get), Some(0));
}

#[test]
fn protocols_are_routed() {
    assert_eq!(protocol_text(b"D2S"), "443253");
    assert_eq!(protocol_text(&[0xab, 0x0f]), "AB0F");
    let custom = |name: &str| TalkProtocol::Custom(name.to_string());
    assert_eq!(route_talk_request(&TalkProtocol::Utp), TalkRoute::Utp);
    assert_eq!(route_talk_request(&custom("DAS")), TalkRoute::Overlay);
    assert_eq!(route_talk_request(&custom("SECURE_DAS")), TalkRoute::Overlay);
    assert_eq!(route_talk_request(&custom("D2S")), TalkRoute::Dissemination);
    assert_eq!(route_talk_request(&TalkProtocol::Other), TalkRoute::Dissemination);
}

#[test]
fn events_have_reactions() {
    assert_eq!(react(NodeEvent::Discovered), Reaction::Note);
    assert_eq!(react(NodeEvent::SocketUpdated), Reaction::Note);
    assert_eq!(react(NodeEvent::SessionEstablished), Reaction::RememberAddress);
    assert_eq!(react(NodeEvent::TalkRequest), Reaction::RouteTalk);
    assert_eq!(react(NodeEvent::FindValue), Reaction::AnswerSampling);
    assert_eq!(react(NodeEvent::Libp2pTalkRequest), Reaction::AnswerDissemination);
}

#[test]
fn overlay_commands_and_responses() {
    assert!(carries_out(false, OverlayCommandKind::FindContentQuery));
    assert!(carries_out(true, OverlayCommandKind::Request));
    assert!(!carries_out(true, OverlayCommandKind::FindContentQuery));
    let waiting = handle_response(Some(true), true);
    assert!(waiting.notify);
    assert_eq!(waiting.background, Background::ProcessResponse);
    let failed = handle_response(Some(false), false);
    assert!(!failed.notify);
    assert_eq!(failed.background, Background::ProcessFailure);
    let unknown = handle_response(None, true);
    assert!(!unknown.notify);
    assert_eq!(unknown.background, Background::Nothing);
}
