//! The messages that nodes exchange while samples are disseminated.

use vstd::prelude::*;
use crate::args::{DisseminationArgs, Options, TalkWire};
use crate::ids::NodeId;

verus! {

/// A message of the dissemination protocol.
#[derive(Debug)]
pub enum DisseminationMsg {
    /// Asks for nodes that are closer to some keys.
    Keys((u16, Vec<NodeId>)),
    /// Answers with such nodes.
    CloserNodes(Vec<NodeId>),
    /// Hands over samples.
    Samples(Vec<(NodeId, Vec<u8>)>),
    /// Confirms that samples were stored.
    Received(u16),
}

/// A message of the dissemination protocol, in the model.
pub ghost enum Message {
    Keys(u16, Seq<NodeId>),
    CloserNodes(Seq<NodeId>),
    Samples(Seq<(NodeId, Seq<u8>)>),
    Received(u16),
}

/// Samples with the contents of their vectors.
pub open spec fn sample_contents(samples: Seq<(NodeId, Vec<u8>)>) -> Seq<(NodeId, Seq<u8>)> {
    Seq::new(samples.len(), |i: int| (samples[i].0, samples[i].1@))
}

impl View for DisseminationMsg {
    type V = Message;

    open spec fn view(&self) -> Message {
        match self {
            DisseminationMsg::Keys((id, keys)) => Message::Keys(*id, keys@),
            DisseminationMsg::CloserNodes(nodes) => Message::CloserNodes(nodes@),
            DisseminationMsg::Samples(samples) => Message::Samples(sample_contents(samples@)),
            DisseminationMsg::Received(id) => Message::Received(*id),
        }
    }
}

/// A packet that carries a message of any size.
#[derive(Debug)]
pub enum ElasticPacket {
    /// The message itself.
    Data(Vec<u8>),
    /// The connection on which the message can be fetched.
    ConnectionId(u16),
    /// The promise of a result.
    Promise(u16),
    /// The result that was promised.
    Result((u16, ElasticResult)),
}

/// A result, or where to fetch it.
#[derive(Debug)]
pub enum ElasticResult {
    Data(Vec<u8>),
    ConnectionId(u16),
}

/// A number with its two bytes swapped.
pub open spec fn swapped(n: u16) -> u16 {
    ((n % 256) * 256 + n / 256) as u16
}

/// A big-endian number in the byte order of the machine: as it is on a big-endian machine, and with
/// its bytes swapped on a little-endian one.
pub open spec fn in_host_order(number: u16) -> u16 {
    match vstd::endian::endianness() {
        vstd::endian::Endian::Big => number,
        vstd::endian::Endian::Little => swapped(number),
    }
}

/// Turns a big-endian number into the byte order of the machine, with `u16::from_be`: the number is
/// left as it is on a big-endian machine, and its bytes are swapped on a little-endian one.
#[verifier::external_body]
fn from_be(number: u16) -> (local: u16)
    ensures
        local == in_host_order(number),
{
    u16::from_be(number)
}

/// What carries the talk requests of the dissemination protocol and keeps their promises.
#[derive(Clone, Copy, Debug, PartialEq, Eq, Structural)]
pub enum Transport {
    Overlay,
    Libp2p,
}

/// The transport of a wire.
pub open spec fn transport_of(wire: TalkWire) -> Transport {
    match wire {
        TalkWire::Discv5 => Transport::Overlay,
        TalkWire::Libp2p => Transport::Libp2p,
    }
}

/// The transport of a wire.
pub fn transport(wire: TalkWire) -> (by: Transport)
    ensures
        by == transport_of(wire),
{
    match wire {
        TalkWire::Discv5 => Transport::Overlay,
        TalkWire::Libp2p => Transport::Libp2p,
    }
}

/// What to do with a packet. A message or a result that does not fit in it is always fetched from
/// the overlay.
#[derive(Debug)]
pub enum Delivery {
    /// Handle the message.
    Handle(Vec<u8>),
    /// Fetch the message on a connection, then handle it.
    FetchAndHandle(u16),
    /// Fulfil a promise of a transport.
    Fulfil { by: Transport, promise: u16, result: Vec<u8> },
    /// Fetch a result on a connection, then fulfil a promise of a transport with it.
    FetchAndFulfil { by: Transport, promise: u16, connection: u16 },
}

/// Decides what to do with a packet that came over a wire. Connections are named in big-endian
/// order.
pub fn open_packet(wire: TalkWire, packet: ElasticPacket) -> (delivery: Delivery)
    requires
        !(packet is Promise),
    ensures
        match packet {
            ElasticPacket::Data(bytes) => delivery == Delivery::Handle(bytes),
            ElasticPacket::ConnectionId(number) => delivery == Delivery::FetchAndHandle(
                in_host_order(number),
            ),
            ElasticPacket::Result((promise, ElasticResult::Data(result))) => delivery == (
            Delivery::Fulfil { by: transport_of(wire), promise, result }),
            ElasticPacket::Result((promise, ElasticResult::ConnectionId(number))) => delivery == (
            Delivery::FetchAndFulfil {
                by: transport_of(wire),
                promise,
                connection: in_host_order(number),
            }),
            ElasticPacket::Promise(_) => true,
        },
{
    match packet {
        ElasticPacket::Data(bytes) => Delivery::Handle(bytes),
        ElasticPacket::ConnectionId(number) => Delivery::FetchAndHandle(from_be(number)),
        ElasticPacket::Result((promise, ElasticResult::Data(result))) => Delivery::Fulfil {
            by: transport(wire),
            promise,
            result,
        },
        ElasticPacket::Result((promise, ElasticResult::ConnectionId(number))) =>
        Delivery::FetchAndFulfil { by: transport(wire), promise, connection: from_be(number) },
        ElasticPacket::Promise(_) => Delivery::Handle(Vec::new()),
    }
}

/// The identifier of the dissemination protocol.
pub open spec fn dissemination_protocol() -> Seq<u8> {
    seq![68u8, 50u8, 83u8]
}

/// The identifier of the dissemination protocol: `D2S` in ASCII.
pub fn dissemination_protocol_id() -> (id: Vec<u8>)
    ensures
        id@ == dissemination_protocol(),
{
    let id: Vec<u8> = vec![68, 50, 83];
    assert(id@ =~= dissemination_protocol());
    id
}

/// Work that a talk request leaves to be done after it was answered.
#[derive(Debug)]
pub struct TalkJob {
    pub from: NodeId,
    pub args: DisseminationArgs,
    pub promise_id: u16,
    pub packet: ElasticPacket,
}

/// Answers a talk request of the dissemination protocol: with the promise of a result, which the
/// job is to produce under the options of the running simulation.
pub fn handle_talk_request(
    from: NodeId,
    protocol: &[u8],
    packet: ElasticPacket,
    opts: &Options,
    promise_id: u16,
) -> (answer: (ElasticPacket, TalkJob))
    requires
        protocol@ == dissemination_protocol(),
    ensures
        answer.0 == ElasticPacket::Promise(promise_id),
        answer.1 == (TalkJob {
            from,
            args: opts.simulation_case.dissemination(),
            promise_id,
            packet,
        }),
{
    let args: DisseminationArgs = opts.simulation_case.dissemination_args();
    (ElasticPacket::Promise(promise_id), TalkJob { from, args, promise_id, packet })
}

/// A talk request on its way.
#[derive(Debug)]
pub struct TalkMessage {
    pub by: Transport,
    pub to: NodeId,
    pub protocol: Vec<u8>,
    pub body: Vec<u8>,
}

/// Addresses a talk request to a node, under the protocol that it belongs to.
pub fn send_request(wire: TalkWire, to: NodeId, protocol: Vec<u8>, body: Vec<u8>) -> (sent:
    TalkMessage)
    ensures
        sent == (TalkMessage { by: transport_of(wire), to, protocol, body }),
{
    TalkMessage { by: transport(wire), to, protocol, body }
}

/// A result on its way.
#[derive(Debug)]
pub enum Outgoing {
    /// Sent by the overlay, which wraps it as the result of a promise.
    Overlay { to: NodeId, protocol: Vec<u8>, promise_id: u16, payload: Vec<u8> },
    /// Sent as a packet over libp2p.
    Libp2p { to: NodeId, protocol: Vec<u8>, packet: ElasticPacket },
}

/// Addresses the result of a promise to the node that waits for it.
pub fn send_results(wire: TalkWire, to: NodeId, promise_id: u16, msg: Vec<u8>) -> (sent: Outgoing)
    ensures
        match sent {
            Outgoing::Overlay { to: t, protocol, promise_id: p, payload } => {
                &&& wire == TalkWire::Discv5
                &&& t == to
                &&& protocol@ == dissemination_protocol()
                &&& p == promise_id
                &&& payload == msg
            },
            Outgoing::Libp2p { to: t, protocol, packet } => {
                &&& wire == TalkWire::Libp2p
                &&& t == to
                &&& protocol@ == dissemination_protocol()
                &&& packet == ElasticPacket::Result((promise_id, ElasticResult::Data(msg)))
            },
        },
{
    let protocol: Vec<u8> = dissemination_protocol_id();
    match wire {
        TalkWire::Discv5 => Outgoing::Overlay { to, protocol, promise_id, payload: msg },
        TalkWire::Libp2p => Outgoing::Libp2p {
            to,
            protocol,
            packet: ElasticPacket::Result((promise_id, ElasticResult::Data(msg))),
        },
    }
}

/// The dissemination protocol goes by the name `D2S`. Talk requests over discv5 are carried by the
/// overlay, and those over libp2p by libp2p.
pub proof fn lemma_protocol_and_transport(wire: TalkWire)
    ensures
        dissemination_protocol().len() == 3,
        dissemination_protocol()[0] as char == 'D',
        dissemination_protocol()[1] as char == '2',
        dissemination_protocol()[2] as char == 'S',
        transport_of(wire) == Transport::Overlay <==> wire == TalkWire::Discv5,
        transport_of(wire) == Transport::Libp2p <==> wire == TalkWire::Libp2p,
{
}

/// To swap the bytes of a number exchanges its two halves, so that a number in big-endian order and
/// in that of the machine is the same one, or the one with its bytes exchanged.
pub proof fn lemma_byte_order(number: u16)
    ensures
        swapped(number) / 256 == number % 256,
        swapped(number) % 256 == number / 256,
        swapped(swapped(number)) == number,
        vstd::endian::endianness() is Big ==> in_host_order(number) == number,
        vstd::endian::endianness() is Little ==> in_host_order(number) == swapped(number),
{
}

/// Samples are kept apart by their keys and hold what their vectors hold.
pub proof fn lemma_sample_contents(samples: Seq<(NodeId, Vec<u8>)>)
    ensures
        sample_contents(samples).len() == samples.len(),
        forall|i: int|
            0 <= i < samples.len() ==> (#[trigger] sample_contents(samples)[i]).0 == samples[i].0
                && sample_contents(samples)[i].1 == samples[i].1@,
{
}

/// A message stands in the model for what it carries, with nothing left out.
pub proof fn lemma_message_view(message: DisseminationMsg)
    ensures
        message matches DisseminationMsg::Keys((id, keys)) ==> message@ == Message::Keys(
            id,
            keys@,
        ),
        message matches DisseminationMsg::CloserNodes(nodes) ==> message@ == Message::CloserNodes(
            nodes@,
        ),
        message matches DisseminationMsg::Samples(samples) ==> (message@ matches Message::Samples(
            listed,
        ) && listed.len() == samples@.len() && forall|i: int|
            0 <= i < listed.len() ==> (#[trigger] listed[i]).0 == samples@[i].0 && listed[i].1
                == samples@[i].1@),
        message matches DisseminationMsg::Received(id) ==> message@ == Message::Received(id),
{
}

} // verus!
