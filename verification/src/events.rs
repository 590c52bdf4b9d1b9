//! What a running node does when something happens to it.

use vstd::prelude::*;
use crate::hex_text::{encode_upper, hex_digits};

verus! {

/// A command to the counter of messages.
#[derive(Clone, Copy, Debug, PartialEq, Eq, Structural)]
pub enum MsgCountCmd {
    Increment,
    Reset,
    Get,
}

/// Counts the messages that nodes receive.
#[derive(Debug)]
pub struct MessageCounter {
    pub messages: u64,
}

impl MessageCounter {
    /// A counter at zero.
    pub fn new() -> (counter: Self)
        ensures
            counter.messages == 0,
    {
        MessageCounter { messages: 0 }
    }

    /// Carries out a command, and says how many messages were counted if that was asked.
    pub fn apply(&mut self, command: MsgCountCmd) -> (answer: Option<u64>)
        requires
            command == MsgCountCmd::Increment ==> old(self).messages < u64::MAX,
        ensures
            final(self).messages == count_after(old(self).messages as nat, command),
            answer == (if command == MsgCountCmd::Get {
                Some(old(self).messages)
            } else {
                None
            }),
    {
        match command {
            MsgCountCmd::Increment => {
                self.messages = self.messages + 1;
                None
            },
            MsgCountCmd::Reset => {
                self.messages = 0;
                None
            },
            MsgCountCmd::Get => Some(self.messages),
        }
    }
}

/// The count after a command.
pub open spec fn count_after(messages: nat, command: MsgCountCmd) -> nat {
    match command {
        MsgCountCmd::Increment => messages + 1,
        MsgCountCmd::Reset => 0,
        MsgCountCmd::Get => messages,
    }
}

/// The count after commands, one after the other.
pub open spec fn count_after_all(messages: nat, commands: Seq<MsgCountCmd>) -> nat
    decreases commands.len(),
{
    if commands.len() == 0 {
        messages
    } else {
        count_after(count_after_all(messages, commands.drop_last()), commands.last())
    }
}

/// How many commands increment the count.
pub open spec fn increments(commands: Seq<MsgCountCmd>) -> nat
    decreases commands.len(),
{
    if commands.len() == 0 {
        0
    } else {
        increments(commands.drop_last()) + (if commands.last() == MsgCountCmd::Increment {
            1nat
        } else {
            0nat
        })
    }
}

/// The count is the number of increments since the counter was last reset, or since the start if it
/// never was; `since` are the commands from then on.
pub proof fn lemma_count(before: Seq<MsgCountCmd>, since: Seq<MsgCountCmd>)
    requires
        !since.contains(MsgCountCmd::Reset),
    ensures
        count_after_all(0, since) == increments(since),
        count_after_all(0, before.push(MsgCountCmd::Reset) + since) == increments(since),
    decreases since.len(),
{
    let reset = before.push(MsgCountCmd::Reset);
    if since.len() == 0 {
        assert(reset + since =~= reset);
        assert(reset.drop_last() =~= before);
    } else {
        let front = since.drop_last();
        assert(!front.contains(MsgCountCmd::Reset)) by {
            if front.contains(MsgCountCmd::Reset) {
                let i = choose|i: int| 0 <= i < front.len() && front[i] == MsgCountCmd::Reset;
                assert(since[i] == MsgCountCmd::Reset);
            }
        }
        assert(since[since.len() - 1] != MsgCountCmd::Reset);
        lemma_count(before, front);
        assert((reset + since).drop_last() =~= reset + front);
        assert((reset + since).last() == since.last());
    }
}

/// The protocol of a talk request, in the text form by which overlays know it: its bytes in
/// uppercase hexadecimal digits.
pub fn protocol_text(protocol: &[u8]) -> (text: String)
    ensures
        text@ == hex_digits(protocol@, 'A'),
{
    encode_upper(protocol)
}

/// The protocol of a talk request.
#[derive(Debug)]
pub enum TalkProtocol {
    /// The transport of large messages.
    Utp,
    /// An overlay network under this name.
    Custom(String),
    /// Anything else.
    Other,
}

/// Who answers a talk request.
#[derive(Clone, Copy, Debug, PartialEq, Eq, Structural)]
pub enum TalkRoute {
    Utp,
    Overlay,
    Dissemination,
}

/// Decides who answers a talk request. The overlay answers for the secure overlay too.
pub fn route_talk_request(protocol: &TalkProtocol) -> (route: TalkRoute)
    ensures
        route == (match protocol {
            TalkProtocol::Utp => TalkRoute::Utp,
            TalkProtocol::Custom(name) => if name@ == "DAS"@ || name@ == "SECURE_DAS"@ {
                TalkRoute::Overlay
            } else {
                TalkRoute::Dissemination
            },
            TalkProtocol::Other => TalkRoute::Dissemination,
        }),
{
    match protocol {
        TalkProtocol::Utp => TalkRoute::Utp,
        TalkProtocol::Custom(name) => {
            if *name == "DAS".to_owned() || *name == "SECURE_DAS".to_owned() {
                TalkRoute::Overlay
            } else {
                TalkRoute::Dissemination
            }
        },
        TalkProtocol::Other => TalkRoute::Dissemination,
    }
}

/// Something that happens to a node.
#[derive(Clone, Copy, Debug, PartialEq, Eq, Structural)]
pub enum NodeEvent {
    Discovered,
    EnrAdded,
    NodeInserted,
    SessionEstablished,
    SocketUpdated,
    TalkRequest,
    FindValue,
    Libp2pTalkRequest,
}

/// What a node does about it.
#[derive(Clone, Copy, Debug, PartialEq, Eq, Structural)]
pub enum Reaction {
    /// Nothing but to take note.
    Note,
    /// Remember the address of the other node.
    RememberAddress,
    /// Count the message, and answer the talk request as it is routed.
    RouteTalk,
    /// Count the message, and answer the request for a sample.
    AnswerSampling,
    /// Count the message, and answer it as one of the dissemination.
    AnswerDissemination,
}

/// Decides what a node does about an event.
pub fn react(event: NodeEvent) -> (reaction: Reaction)
    ensures
        reaction == (match event {
            NodeEvent::SessionEstablished => Reaction::RememberAddress,
            NodeEvent::TalkRequest => Reaction::RouteTalk,
            NodeEvent::FindValue => Reaction::AnswerSampling,
            NodeEvent::Libp2pTalkRequest => Reaction::AnswerDissemination,
            _ => Reaction::Note,
        }),
{
    match event {
        NodeEvent::SessionEstablished => Reaction::RememberAddress,
        NodeEvent::TalkRequest => Reaction::RouteTalk,
        NodeEvent::FindValue => Reaction::AnswerSampling,
        NodeEvent::Libp2pTalkRequest => Reaction::AnswerDissemination,
        _ => Reaction::Note,
    }
}

/// Whether the message of an event is counted: only requests are.
pub open spec fn is_counted(event: NodeEvent) -> bool {
    ||| event == NodeEvent::TalkRequest
    ||| event == NodeEvent::FindValue
    ||| event == NodeEvent::Libp2pTalkRequest
}

/// The command that an event sends to the counter of messages, if it does.
pub fn counter_command_on(event: NodeEvent) -> (command: Option<MsgCountCmd>)
    ensures
        command == (if is_counted(event) {
            Some(MsgCountCmd::Increment)
        } else {
            None
        }),
{
    match event {
        NodeEvent::TalkRequest => Some(MsgCountCmd::Increment),
        NodeEvent::FindValue => Some(MsgCountCmd::Increment),
        NodeEvent::Libp2pTalkRequest => Some(MsgCountCmd::Increment),
        _ => None,
    }
}

/// Something that may reach the counter of messages.
pub ghost enum Happening {
    /// Something happens to a node.
    Node(NodeEvent),
    /// The simulation asks for the count.
    Asked,
    /// The simulation starts counting anew.
    Restarted,
}

/// The commands that reach the counter of messages when things happen.
pub open spec fn commands_on(happenings: Seq<Happening>) -> Seq<MsgCountCmd>
    decreases happenings.len(),
{
    if happenings.len() == 0 {
        Seq::empty()
    } else {
        let front = commands_on(happenings.drop_last());
        match happenings.last() {
            Happening::Node(event) => if is_counted(event) {
                front.push(MsgCountCmd::Increment)
            } else {
                front
            },
            Happening::Asked => front.push(MsgCountCmd::Get),
            Happening::Restarted => front.push(MsgCountCmd::Reset),
        }
    }
}

/// How many of the things that happen are requests to nodes.
pub open spec fn requests(happenings: Seq<Happening>) -> nat
    decreases happenings.len(),
{
    if happenings.len() == 0 {
        0
    } else {
        let front = requests(happenings.drop_last());
        match happenings.last() {
            Happening::Node(event) => if is_counted(event) {
                front + 1
            } else {
                front
            },
            _ => front,
        }
    }
}

proof fn lemma_commands_on(before: Seq<Happening>, since: Seq<Happening>)
    ensures
        commands_on(before + since) == commands_on(before) + commands_on(since),
    decreases since.len(),
{
    if since.len() == 0 {
        assert(before + since =~= before);
    } else {
        lemma_commands_on(before, since.drop_last());
        assert((before + since).drop_last() =~= before + since.drop_last());
        assert((before + since).last() == since.last());
    }
    assert(commands_on(before + since) =~= commands_on(before) + commands_on(since));
}

proof fn lemma_requests(since: Seq<Happening>)
    requires
        !since.contains(Happening::Restarted),
    ensures
        !commands_on(since).contains(MsgCountCmd::Reset),
        increments(commands_on(since)) == requests(since),
    decreases since.len(),
{
    if since.len() > 0 {
        let front = since.drop_last();
        assert forall|i: int| 0 <= i < front.len() implies front[i] != Happening::Restarted by {
            assert(since[i] != Happening::Restarted);
        }
        assert(since[since.len() - 1] != Happening::Restarted);
        lemma_requests(front);
        let before = commands_on(front);
        let commands = commands_on(since);
        if commands.len() > before.len() {
            assert(commands.drop_last() =~= before);
        }
        assert forall|i: int| 0 <= i < commands.len() implies commands[i]
            != MsgCountCmd::Reset by {
            if i < before.len() {
                assert(commands[i] == before[i]);
            }
        }
    }
}

/// The count is the number of requests that nodes have received since counting was last started
/// anew, or since the start if it never was; `since` is what has happened from then on. No other
/// event changes it.
pub proof fn lemma_requests_are_counted(before: Seq<Happening>, since: Seq<Happening>)
    requires
        !since.contains(Happening::Restarted),
    ensures
        count_after_all(0, commands_on(since)) == requests(since),
        count_after_all(0, commands_on(before.push(Happening::Restarted) + since)) == requests(
            since,
        ),
{
    let restarted = before.push(Happening::Restarted);
    assert(restarted.drop_last() =~= before);
    lemma_commands_on(restarted, since);
    lemma_requests(since);
    lemma_count(commands_on(before), commands_on(since));
}

/// A command to an overlay.
#[derive(Clone, Copy, Debug, PartialEq, Eq, Structural)]
pub enum OverlayCommandKind {
    Request,
    FindContentQuery,
}

/// Whether an overlay carries out a command. The secure overlay carries out requests only.
pub fn carries_out(secure: bool, command: OverlayCommandKind) -> (does: bool)
    ensures
        does == (!secure || command == OverlayCommandKind::Request),
{
    match command {
        OverlayCommandKind::Request => true,
        OverlayCommandKind::FindContentQuery => !secure,
    }
}

/// What is done with the response to a request of an overlay.
#[derive(Clone, Copy, Debug, PartialEq, Eq, Structural)]
pub struct ResponseHandling {
    /// Whether it is handed to the one who waits for it.
    pub notify: bool,
    pub background: Background,
}

/// What goes on in the background.
#[derive(Clone, Copy, Debug, PartialEq, Eq, Structural)]
pub enum Background {
    ProcessResponse,
    ProcessFailure,
    Nothing,
}

/// Decides what is done with a response. `waits` says whether someone waits for it, if the request
/// is an active one; nothing is done with the response to any other request.
pub fn handle_response(waits: Option<bool>, succeeded: bool) -> (handling: ResponseHandling)
    ensures
        handling.notify == (waits == Some(true)),
        handling.background == (if waits is None {
            Background::Nothing
        } else if succeeded {
            Background::ProcessResponse
        } else {
            Background::ProcessFailure
        }),
{
    match waits {
        Some(notify) => ResponseHandling {
            notify,
            background: if succeeded {
                Background::ProcessResponse
            } else {
                Background::ProcessFailure
            },
        },
        None => ResponseHandling { notify: false, background: Background::Nothing },
    }
}

/// Only requests are counted: talk requests, over the overlay or over libp2p, and requests for a
/// value.
pub proof fn lemma_counted_events(event: NodeEvent)
    ensures
        is_counted(event) <==> match event {
            NodeEvent::TalkRequest => true,
            NodeEvent::FindValue => true,
            NodeEvent::Libp2pTalkRequest => true,
            NodeEvent::Discovered => false,
            NodeEvent::EnrAdded => false,
            NodeEvent::NodeInserted => false,
            NodeEvent::SessionEstablished => false,
            NodeEvent::SocketUpdated => false,
        },
{
}

/// The requests among the things that happen are those that a node was sent, one by one.
pub proof fn lemma_requests_are_exact(happenings: Seq<Happening>)
    ensures
        requests(happenings) == happenings.filter(
            |h: Happening|
                h == Happening::Node(NodeEvent::TalkRequest) || h == Happening::Node(
                    NodeEvent::FindValue,
                ) || h == Happening::Node(NodeEvent::Libp2pTalkRequest),
        ).len(),
    decreases happenings.len(),
{
    reveal(Seq::filter);
    if happenings.len() > 0 {
        lemma_requests_are_exact(happenings.drop_last());
    }
}

} // verus!
