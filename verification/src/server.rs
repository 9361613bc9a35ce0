//! The server's state machine: which connections are served, what each
//! event changes, and which frames go where.
//!
//! The machine does no I/O. Its owner accepts connections, reads and decodes
//! what arrives, hands each event to [`Server::process`], and carries out the
//! [`Outcome`]: it writes the reply to the connection that the event came
//! from, and pushes each delivery onto the outbound queue of its peer.
//!
//! A peer that authorizes joins every channel. A channel that is created
//! takes the members of the default channel.

use crate::addr::PeerAddr;
use crate::admission::{Admission, Slots, Ticket, MAX_CONNECTIONS};
use crate::codec::decode_frame;
use crate::frame::{Channel, ChannelView, Frame, FrameView, Message, MessageView, User, UserView};
use crate::registry::{
    default_channel, default_cover, fan_out, lemma_others_contains, lemma_registry_wf, Delivery,
    DeliveryView, Registry, RegistryView, SharedView,
};
use crate::wire::{parse_frame, Parsed};
use vstd::prelude::*;

verus! {

/// What can happen on a connection.
#[derive(Debug, PartialEq)]
pub enum Event {
    /// The connection has been accepted by the listener.
    Accepted,
    /// A frame has arrived.
    Frame(Frame),
    /// Bytes have arrived that are no frame.
    Malformed,
    /// The transport has reached its end or failed.
    Closed,
}

/// What an [`Event`] is, as plain values.
pub enum EventView {
    Accepted,
    Frame(FrameView),
    Malformed,
    Closed,
}

impl View for Event {
    type V = EventView;

    open spec fn view(&self) -> EventView {
        match self {
            Event::Accepted => EventView::Accepted,
            Event::Frame(frame) => EventView::Frame(frame@),
            Event::Malformed => EventView::Malformed,
            Event::Closed => EventView::Closed,
        }
    }
}

/// What the arrival of `bytes` is: the frame that they start with, or
/// bytes that are no frame.
pub open spec fn arrival(bytes: Seq<u8>) -> EventView {
    match parse_frame(bytes) {
        Parsed::Done(frame, _) => EventView::Frame(frame),
        _ => EventView::Malformed,
    }
}

impl Event {
    /// The event that the arrival of `data` is.
    pub fn from_bytes(data: &[u8]) -> (event: Event)
        ensures
            event@ == arrival(data@),
    {
        match decode_frame(data) {
            Ok(Some((frame, _))) => Event::Frame(frame),
            _ => Event::Malformed,
        }
    }
}

/// What is to be done after an event.
#[derive(Debug, PartialEq)]
pub struct Outcome {
    /// Frames for the connection that the event came from, in order.
    pub reply: Vec<Frame>,
    /// Frames for the outbound queues of other peers, in order.
    pub relay: Vec<Delivery>,
    /// Whether the connection is over.
    pub close: bool,
}

/// What an [`Outcome`] is, as plain values.
pub struct OutcomeView {
    pub reply: Seq<FrameView>,
    pub relay: Seq<DeliveryView>,
    pub close: bool,
}

impl View for Outcome {
    type V = OutcomeView;

    open spec fn view(&self) -> OutcomeView {
        OutcomeView {
            reply: self.reply.deep_view(),
            relay: self.relay.deep_view(),
            close: self.close,
        }
    }
}

impl OutcomeView {
    /// Nothing to send; the connection goes on.
    pub open spec fn nothing() -> OutcomeView {
        OutcomeView { reply: Seq::empty(), relay: Seq::empty(), close: false }
    }

    /// Nothing to send; the connection is over.
    pub open spec fn hang_up() -> OutcomeView {
        OutcomeView { reply: Seq::empty(), relay: Seq::empty(), close: true }
    }

    /// One frame for the connection itself, which goes on.
    pub open spec fn answer(frame: FrameView) -> OutcomeView {
        OutcomeView { reply: seq![frame], relay: Seq::empty(), close: false }
    }

    /// An error for the connection itself, which is then over.
    pub open spec fn refuse(reason: Seq<char>) -> OutcomeView {
        OutcomeView { reply: seq![FrameView::Error(reason)], relay: Seq::empty(), close: true }
    }
}

/// Where a connection stands, as far as the server knows of it.
///
/// A connection that the listener has accepted is not known to the server
/// before it has been given a slot, and a peer that has been sent the
/// channels is served from then on: between those, it is authorizing.
#[derive(Clone, Copy, Debug, PartialEq, Eq, Structural)]
pub enum Phase {
    /// Admitted; its first frame is awaited, which must name the user.
    Authorizing,
    /// Authorized; a member of the channels.
    Serving,
    /// Not served: never admitted, or over.
    Closed,
}

/// The server's record of one connection, as plain values.
pub struct PeerView {
    pub addr: PeerAddr,
    /// The user, once the peer has authorized.
    pub user: Option<UserView>,
}

/// The text of the error for a connection that finds every slot taken.
pub open spec fn max_connections_reached() -> Seq<char> {
    "Max connections reached"@
}

/// The text of the error for a connection whose address is being served.
pub open spec fn already_connected() -> Seq<char> {
    "Already connected"@
}

/// The text of the error for a message to a channel that does not exist.
pub open spec fn channel_not_found() -> Seq<char> {
    "Channel not found"@
}

/// The text of the error for the creation of a channel whose name is taken.
pub open spec fn channel_already_exists() -> Seq<char> {
    "Channel already exists"@
}

/// The name of the second channel that exists from the start.
pub open spec fn another_channel() -> Seq<char> {
    "another"@
}

/// The server, as plain values.
pub struct ServerView {
    /// The slots for connections.
    pub slots: Slots,
    /// The connections that hold a slot, in the order of their admission.
    pub peers: Seq<PeerView>,
    pub channels: RegistryView,
}

impl ServerView {
    /// The server as it starts: `capacity` free slots, no connections, and
    /// two channels without members or history, the default one and another.
    pub open spec fn initial(capacity: nat) -> ServerView {
        ServerView {
            slots: Slots { capacity, held: 0 },
            peers: Seq::empty(),
            channels: RegistryView {
                channels: seq![
                    SharedView {
                        name: default_channel(),
                        cover: Some(default_cover()),
                        messages: Seq::empty(),
                        peers: Seq::empty(),
                    },
                    SharedView {
                        name: another_channel(),
                        cover: Some(default_cover()),
                        messages: Seq::empty(),
                        peers: Seq::empty(),
                    },
                ],
            },
        }
    }

    /// Whether `addr` holds a slot.
    pub open spec fn connected(self, addr: PeerAddr) -> bool {
        exists|i: int| 0 <= i < self.peers.len() && self.peers[i].addr == addr
    }

    /// Where the record of `addr` stands.
    pub open spec fn index_of(self, addr: PeerAddr) -> int {
        choose|i: int| 0 <= i < self.peers.len() && self.peers[i].addr == addr
    }

    /// Whether `addr` has authorized and is served.
    pub open spec fn serving(self, addr: PeerAddr) -> bool {
        exists|i: int|
            0 <= i < self.peers.len() && self.peers[i].addr == addr && self.peers[i].user is Some
    }

    /// Where the connection of `addr` stands.
    pub open spec fn phase(self, addr: PeerAddr) -> Phase {
        if self.serving(addr) {
            Phase::Serving
        } else if self.connected(addr) {
            Phase::Authorizing
        } else {
            Phase::Closed
        }
    }

    /// Whether `addr` is a member of some channel.
    pub open spec fn member_somewhere(self, addr: PeerAddr) -> bool {
        exists|c: int|
            0 <= c < self.channels.channels.len() && self.channels.channels[c].peers.contains(addr)
    }

    /// Every connection holds one slot, no address is served twice, the
    /// channels are well formed, and their members are peers that are served.
    pub open spec fn wf(self) -> bool {
        &&& self.slots.wf()
        &&& self.slots.held == self.peers.len()
        &&& forall|i: int, j: int|
            0 <= i < j < self.peers.len() ==> (#[trigger] self.peers[i]).addr != (
            #[trigger] self.peers[j]).addr
        &&& self.channels.wf()
        &&& forall|c: int, addr: PeerAddr|
            0 <= c < self.channels.channels.len() && #[trigger] self.channels.channels[c].peers.contains(
                addr,
            ) ==> self.serving(addr)
    }

    /// The server without the record of `addr`, its memberships and its slot.
    pub open spec fn without(self, addr: PeerAddr) -> ServerView {
        if self.connected(addr) {
            ServerView {
                slots: self.slots.release(),
                peers: self.peers.remove(self.index_of(addr)),
                channels: self.channels.leave_all(addr),
            }
        } else {
            self
        }
    }

    /// A connection is accepted: it is given a slot and awaits authorization,
    /// unless every slot is taken or the address is being served. A refusal
    /// changes nothing.
    pub open spec fn accept(self, addr: PeerAddr) -> (ServerView, OutcomeView) {
        if !self.slots.available() {
            (self, OutcomeView::refuse(max_connections_reached()))
        } else if self.connected(addr) {
            (self, OutcomeView::refuse(already_connected()))
        } else {
            (
                ServerView {
                    slots: self.slots.acquire(),
                    peers: self.peers.push(PeerView { addr, user: None }),
                    ..self
                },
                OutcomeView::nothing(),
            )
        }
    }

    /// The first frame of a connection names its user: the peer is sent the
    /// channels as they are, and joins every one of them.
    pub open spec fn authorize(self, addr: PeerAddr, user: UserView) -> (ServerView, OutcomeView) {
        (
            ServerView {
                peers: self.peers.update(self.index_of(addr), PeerView { addr, user: Some(user) }),
                channels: self.channels.join_all(addr),
                ..self
            },
            OutcomeView::answer(self.channels.snapshot()),
        )
    }

    /// A peer sends a message: it is sent back to the peer, added to the
    /// history of its channel, and relayed to the other members. If the
    /// channel does not exist, the peer is told and nothing else happens.
    pub open spec fn say(self, addr: PeerAddr, message: MessageView) -> (ServerView, OutcomeView) {
        if self.channels.holds(message.channel) {
            (
                ServerView { channels: self.channels.append(message), ..self },
                OutcomeView {
                    reply: seq![FrameView::Message(message)],
                    relay: self.channels.broadcast(
                        message.channel,
                        addr,
                        FrameView::Message(message),
                    ),
                    close: false,
                },
            )
        } else {
            (self, OutcomeView::answer(FrameView::Error(channel_not_found())))
        }
    }

    /// A peer asks for a channel: it is created, and the peer and the other
    /// members of the directory are sent the channels as they then are. If
    /// the name is taken, the peer is told and nothing else happens.
    pub open spec fn found(self, addr: PeerAddr, channel: ChannelView) -> (ServerView, OutcomeView) {
        if self.channels.holds(channel.name) {
            (self, OutcomeView::answer(FrameView::Error(channel_already_exists())))
        } else {
            let channels = self.channels.create(channel);
            (
                ServerView { channels, ..self },
                OutcomeView {
                    reply: seq![channels.snapshot()],
                    relay: fan_out(channels.directory(), addr, channels.snapshot()),
                    close: false,
                },
            )
        }
    }

    /// A frame arrives. From a peer that has not authorized, only a frame
    /// that names the user is taken; any other ends the connection. From a
    /// peer that is served, messages and requests for channels are taken and
    /// every other frame is passed over.
    pub open spec fn handle(self, addr: PeerAddr, frame: FrameView) -> (ServerView, OutcomeView) {
        if self.serving(addr) {
            match frame {
                FrameView::Message(message) => self.say(addr, message),
                FrameView::Channel(channel) => self.found(addr, channel),
                _ => (self, OutcomeView::nothing()),
            }
        } else if self.connected(addr) {
            match frame {
                FrameView::Authorize(user) => self.authorize(addr, user),
                _ => (self.without(addr), OutcomeView::hang_up()),
            }
        } else {
            (self, OutcomeView::hang_up())
        }
    }

    /// Bytes arrive that are no frame: passed over for a peer that is
    /// served, the end of a connection that has not authorized.
    pub open spec fn reject(self, addr: PeerAddr) -> (ServerView, OutcomeView) {
        if self.serving(addr) {
            (self, OutcomeView::nothing())
        } else {
            (self.without(addr), OutcomeView::hang_up())
        }
    }

    /// The transport of a connection ends: its record, its memberships and
    /// its slot go.
    pub open spec fn disconnect(self, addr: PeerAddr) -> (ServerView, OutcomeView) {
        (self.without(addr), OutcomeView::hang_up())
    }

    /// The server and the outcome after `event` on the connection of `addr`.
    pub open spec fn step(self, addr: PeerAddr, event: EventView) -> (ServerView, OutcomeView) {
        match event {
            EventView::Accepted => self.accept(addr),
            EventView::Frame(frame) => self.handle(addr, frame),
            EventView::Malformed => self.reject(addr),
            EventView::Closed => self.disconnect(addr),
        }
    }
}

/// In a well-formed server an address has one record only.
pub proof fn lemma_index_of(server: ServerView, addr: PeerAddr, i: int)
    requires
        server.wf(),
        0 <= i < server.peers.len(),
        server.peers[i].addr == addr,
    ensures
        server.connected(addr),
        server.index_of(addr) == i,
        server.serving(addr) <==> server.peers[i].user is Some,
{
    let j = server.index_of(addr);
    if j < i {
        assert(server.peers[j].addr != server.peers[i].addr);
    } else if i < j {
        assert(server.peers[i].addr != server.peers[j].addr);
    }
    if server.serving(addr) {
        let k = choose|k: int|
            0 <= k < server.peers.len() && server.peers[k].addr == addr
                && server.peers[k].user is Some;
        if k < i {
            assert(server.peers[k].addr != server.peers[i].addr);
        } else if i < k {
            assert(server.peers[i].addr != server.peers[k].addr);
        }
    }
}

/// Accepting a connection keeps the server well formed.
pub proof fn lemma_accept_wf(server: ServerView, addr: PeerAddr)
    requires
        server.wf(),
    ensures
        server.accept(addr).0.wf(),
{
    let next = server.accept(addr).0;
    if server.slots.available() && !server.connected(addr) {
        assert forall|i: int, j: int| 0 <= i < j < next.peers.len() implies (
        #[trigger] next.peers[i]).addr != (#[trigger] next.peers[j]).addr by {
            if j < server.peers.len() {
                assert(server.peers[i].addr != server.peers[j].addr);
            }
        }
        assert forall|c: int, peer: PeerAddr|
            0 <= c < next.channels.channels.len()
                && #[trigger] next.channels.channels[c].peers.contains(peer) implies next.serving(
            peer,
        ) by {
            assert(server.serving(peer));
            let k = choose|k: int|
                0 <= k < server.peers.len() && server.peers[k].addr == peer
                    && server.peers[k].user is Some;
            assert(next.peers[k] == server.peers[k]);
        }
    }
}

/// Authorizing a connection keeps the server well formed.
pub proof fn lemma_authorize_wf(server: ServerView, addr: PeerAddr, user: UserView)
    requires
        server.wf(),
        server.connected(addr),
    ensures
        server.authorize(addr, user).0.wf(),
        server.authorize(addr, user).0.serving(addr),
{
    let next = server.authorize(addr, user).0;
    let at = server.index_of(addr);
    lemma_registry_wf(server.channels, addr, Seq::empty(), arbitrary(), arbitrary());
    assert(next.peers[at].addr == addr && next.peers[at].user is Some);
    assert forall|i: int, j: int| 0 <= i < j < next.peers.len() implies (
    #[trigger] next.peers[i]).addr != (#[trigger] next.peers[j]).addr by {
        assert(server.peers[i].addr != server.peers[j].addr);
    }
    assert forall|c: int, peer: PeerAddr|
        0 <= c < next.channels.channels.len() && #[trigger] next.channels.channels[c].peers.contains(
            peer,
        ) implies next.serving(peer) by {
        if peer != addr {
            let before = server.channels.channels[c];
            assert(before.peers.contains(peer)) by {
                let members = next.channels.channels[c].peers;
                let k = choose|k: int| 0 <= k < members.len() && members[k] == peer;
                if !before.peers.contains(addr) {
                    assert(members == before.peers.push(addr));
                    assert(before.peers[k] == peer);
                }
            }
            assert(server.serving(peer));
            let k = choose|k: int|
                0 <= k < server.peers.len() && server.peers[k].addr == peer
                    && server.peers[k].user is Some;
            assert(next.peers[k] == server.peers[k]);
        }
    }
}

/// Dropping a connection keeps the server well formed, and leaves no trace
/// of the address.
pub proof fn lemma_without_wf(server: ServerView, addr: PeerAddr)
    requires
        server.wf(),
    ensures
        server.without(addr).wf(),
        !server.without(addr).connected(addr),
        !server.without(addr).member_somewhere(addr),
{
    let next = server.without(addr);
    if server.connected(addr) {
        let at = server.index_of(addr);
        lemma_registry_wf(server.channels, addr, Seq::empty(), arbitrary(), arbitrary());
        assert forall|i: int, j: int| 0 <= i < j < next.peers.len() implies (
        #[trigger] next.peers[i]).addr != (#[trigger] next.peers[j]).addr by {
            let si = if i < at { i } else { i + 1 };
            let sj = if j < at { j } else { j + 1 };
            assert(server.peers[si].addr != server.peers[sj].addr);
        }
        assert forall|i: int| 0 <= i < next.peers.len() implies (#[trigger] next.peers[i]).addr
            != addr by {
            let si = if i < at { i } else { i + 1 };
            if si < at {
                assert(server.peers[si].addr != server.peers[at].addr);
            } else {
                assert(server.peers[at].addr != server.peers[si].addr);
            }
        }
        assert forall|c: int, peer: PeerAddr|
            0 <= c < next.channels.channels.len()
                && #[trigger] next.channels.channels[c].peers.contains(peer) implies next.serving(
            peer,
        ) && peer != addr by {
            let before = server.channels.channels[c];
            lemma_others_contains(before.peers, addr, peer);
            assert(server.serving(peer));
            let k = choose|k: int|
                0 <= k < server.peers.len() && server.peers[k].addr == peer
                    && server.peers[k].user is Some;
            let nk = if k < at { k } else { k - 1 };
            assert(next.peers[nk] == server.peers[k]);
        }
    } else {
        assert forall|c: int|
            0 <= c < server.channels.channels.len() implies !(
        #[trigger] server.channels.channels[c]).peers.contains(addr) by {
            if server.channels.channels[c].peers.contains(addr) {
                assert(server.serving(addr));
            }
        }
    }
}

/// A message keeps the server well formed.
pub proof fn lemma_say_wf(server: ServerView, addr: PeerAddr, message: MessageView)
    requires
        server.wf(),
    ensures
        server.say(addr, message).0.wf(),
{
    let next = server.say(addr, message).0;
    lemma_registry_wf(server.channels, addr, Seq::empty(), message, arbitrary());
    assert forall|c: int, peer: PeerAddr|
        0 <= c < next.channels.channels.len() && #[trigger] next.channels.channels[c].peers.contains(
            peer,
        ) implies next.serving(peer) by {
        assert(server.channels.channels[c].peers.contains(peer));
    }
}

/// The creation of a channel keeps the server well formed.
pub proof fn lemma_found_wf(server: ServerView, addr: PeerAddr, channel: ChannelView)
    requires
        server.wf(),
    ensures
        server.found(addr, channel).0.wf(),
{
    let next = server.found(addr, channel).0;
    lemma_registry_wf(server.channels, addr, Seq::empty(), arbitrary(), channel);
    assert forall|c: int, peer: PeerAddr|
        0 <= c < next.channels.channels.len() && #[trigger] next.channels.channels[c].peers.contains(
            peer,
        ) implies next.serving(peer) by {
        if c < server.channels.channels.len() {
            assert(server.channels.channels[c].peers.contains(peer));
        } else {
            assert(server.channels.channels[0].peers.contains(peer));
        }
    }
}

/// Whatever happens, the server stays well formed: the slots in use are the
/// connections served, channel names stay unique, the default channel stays,
/// and only peers that are served are members.
pub proof fn law_step_keeps_wf(server: ServerView, addr: PeerAddr, event: EventView)
    requires
        server.wf(),
    ensures
        server.step(addr, event).0.wf(),
{
    lemma_accept_wf(server, addr);
    lemma_without_wf(server, addr);
    match event {
        EventView::Frame(frame) => {
            match frame {
                FrameView::Message(message) => lemma_say_wf(server, addr, message),
                FrameView::Channel(channel) => lemma_found_wf(server, addr, channel),
                FrameView::Authorize(user) => {
                    if server.connected(addr) {
                        lemma_authorize_wf(server, addr, user);
                    }
                },
                _ => {},
            }
        },
        _ => {},
    }
}

/// The server's record of one connection: its address, its slot, and its
/// user once it has authorized.
#[derive(Debug)]
pub struct Peer {
    addr: PeerAddr,
    user: Option<User>,
    ticket: Ticket,
}

impl View for Peer {
    type V = PeerView;

    closed spec fn view(&self) -> PeerView {
        PeerView { addr: self.addr, user: self.user.deep_view() }
    }
}

impl DeepView for Peer {
    type V = PeerView;

    open spec fn deep_view(&self) -> PeerView {
        self@
    }
}

impl Peer {
    /// The record of a connection that holds `ticket` and has not authorized.
    pub fn new(addr: PeerAddr, ticket: Ticket) -> (peer: Peer)
        ensures
            peer@ == (PeerView { addr, user: None }),
    {
        Peer { addr, user: None, ticket }
    }

    /// The address of the connection.
    pub fn addr(&self) -> (addr: PeerAddr)
        ensures
            addr == self@.addr,
    {
        self.addr
    }

    /// The user, once the peer has authorized.
    pub fn user(&self) -> (user: &Option<User>)
        ensures
            user.deep_view() == self@.user,
    {
        &self.user
    }
}

/// An outcome that sends nothing.
fn silent(close: bool) -> (outcome: Outcome)
    ensures
        outcome@ == (OutcomeView { reply: Seq::empty(), relay: Seq::empty(), close }),
{
    let outcome = Outcome { reply: Vec::new(), relay: Vec::new(), close };
    assert(outcome.reply.deep_view() =~= Seq::empty());
    assert(outcome.relay.deep_view() =~= Seq::empty());
    outcome
}

/// An outcome that sends `frame` to the connection itself, and `relay` on.
fn reply_with(frame: Frame, relay: Vec<Delivery>, close: bool) -> (outcome: Outcome)
    ensures
        outcome@ == (OutcomeView { reply: seq![frame@], relay: relay.deep_view(), close }),
{
    let mut reply: Vec<Frame> = Vec::new();
    reply.push(frame);
    let outcome = Outcome { reply, relay, close };
    assert(outcome.reply.deep_view() =~= seq![frame@]);
    outcome
}

/// An outcome that sends an error with the text `reason` to the connection
/// itself.
fn error_reply(reason: &str, close: bool) -> (outcome: Outcome)
    ensures
        outcome@ == (OutcomeView {
            reply: seq![FrameView::Error(reason@)],
            relay: Seq::empty(),
            close,
        }),
{
    let relay: Vec<Delivery> = Vec::new();
    assert(relay.deep_view() =~= Seq::empty());
    reply_with(Frame::Error(String::from_str(reason)), relay, close)
}

/// The chat server: its slots, its connections and its channels.
#[derive(Debug)]
pub struct Server {
    admission: Admission,
    peers: Vec<Peer>,
    channels: Registry,
}

impl View for Server {
    type V = ServerView;

    closed spec fn view(&self) -> ServerView {
        ServerView {
            slots: self.admission@,
            peers: self.peers.deep_view(),
            channels: self.channels@,
        }
    }
}

impl Server {
    /// A server with [`MAX_CONNECTIONS`] slots, no connections, and the
    /// channels it starts with.
    pub fn new() -> (server: Server)
        ensures
            server@.wf(),
            server@ == ServerView::initial(MAX_CONNECTIONS as nat),
    {
        Server::with_capacity(MAX_CONNECTIONS)
    }

    /// A server with `capacity` slots, no connections, and the channels it
    /// starts with.
    pub fn with_capacity(capacity: usize) -> (server: Server)
        ensures
            server@.wf(),
            server@ == ServerView::initial(capacity as nat),
    {
        let mut channels = Registry::new();
        let second = Channel {
            name: String::from_str("another"),
            messages: Vec::new(),
            cover: Some(String::from_str("https://cdn-icons-png.flaticon.com/512/134/134932.png")),
        };
        proof {
            reveal_strlit("default");
            reveal_strlit("another");
            assert("default"@[0] != "another"@[0]);
            assert(!channels@.holds(second@.name)) by {
                if channels@.holds(second@.name) {
                    let i = choose|i: int|
                        0 <= i < channels@.channels.len() && channels@.channels[i].name
                            == second@.name;
                    assert(channels@.channels[i].name == default_channel());
                }
            }
        }
        let _ = channels.create_channel(&second);
        let server = Server { admission: Admission::new(capacity), peers: Vec::new(), channels };
        assert(server.peers.deep_view() =~= Seq::empty());
        assert(server@.channels.channels =~= ServerView::initial(capacity as nat).channels.channels);
        server
    }

    /// Where the record of `addr` stands, if it has one.
    fn find_peer(&self, addr: PeerAddr) -> (found: Option<usize>)
        requires
            self@.wf(),
        ensures
            found is Some <==> self@.connected(addr),
            found is Some ==> found->0 == self@.index_of(addr) && found->0 < self.peers.len(),
    {
        let mut i: usize = 0;
        while i < self.peers.len()
            invariant
                self@.wf(),
                i <= self.peers.len(),
                forall|k: int| 0 <= k < i ==> self@.peers[k].addr != addr,
            decreases self.peers.len() - i,
        {
            if self.peers[i].addr == addr {
                proof {
                    lemma_index_of(self@, addr, i as int);
                }
                return Some(i);
            }
            i += 1;
        }
        None
    }

    /// Removes the record at `at`, with its memberships, and frees its slot.
    fn drop_peer(&mut self, at: usize)
        requires
            old(self)@.wf(),
            at < old(self).peers.len(),
        ensures
            final(self)@ == old(self)@.without(old(self)@.peers[at as int].addr),
            final(self)@.wf(),
    {
        let ghost before = self@;
        let ghost addr = before.peers[at as int].addr;
        proof {
            lemma_index_of(before, addr, at as int);
            lemma_without_wf(before, addr);
        }
        let peer = self.peers.remove(at);
        assert(self.peers.deep_view() =~= before.peers.remove(at as int));
        self.admission.release(peer.ticket);
        self.channels.remove_peer(peer.addr);
    }

    /// A connection has been accepted by the listener.
    pub fn accept(&mut self, addr: PeerAddr) -> (outcome: Outcome)
        requires
            old(self)@.wf(),
        ensures
            final(self)@.wf(),
            (final(self)@, outcome@) == old(self)@.accept(addr),
    {
        let ghost before = self@;
        proof {
            lemma_accept_wf(before, addr);
        }
        if self.admission.held() >= self.admission.capacity() {
            return error_reply("Max connections reached", true);
        }
        if self.find_peer(addr).is_some() {
            return error_reply("Already connected", true);
        }
        match self.admission.try_acquire() {
            Some(ticket) => {
                self.peers.push(Peer::new(addr, ticket));
                assert(self.peers.deep_view() =~= before.peers.push(PeerView { addr, user: None }));
                silent(false)
            },
            None => error_reply("Max connections reached", true),
        }
    }

    /// A frame has arrived on the connection of `addr`.
    pub fn handle(&mut self, addr: PeerAddr, frame: Frame) -> (outcome: Outcome)
        requires
            old(self)@.wf(),
        ensures
            final(self)@.wf(),
            (final(self)@, outcome@) == old(self)@.handle(addr, frame@),
    {
        let ghost before = self@;
        let at = match self.find_peer(addr) {
            Some(at) => at,
            None => {
                assert(!before.serving(addr)) by {
                    if before.serving(addr) {
                        assert(before.connected(addr));
                    }
                }
                return silent(true);
            },
        };
        proof {
            lemma_index_of(before, addr, at as int);
        }
        if self.peers[at].user.is_some() {
            match frame {
                Frame::Message(message) => self.say(addr, message),
                Frame::Channel(channel) => self.found(addr, &channel),
                _ => silent(false),
            }
        } else {
            match frame {
                Frame::Authorize(user) => {
                    proof {
                        lemma_authorize_wf(before, addr, user@);
                    }
                    let snapshot = self.channels.snapshot();
                    self.channels.register_peer(None, addr);
                    self.peers[at].user = Some(user);
                    assert(self.peers.deep_view() =~= before.peers.update(
                        at as int,
                        PeerView { addr, user: Some(user@) },
                    ));
                    let relay: Vec<Delivery> = Vec::new();
                    assert(relay.deep_view() =~= Seq::empty());
                    reply_with(snapshot, relay, false)
                },
                _ => {
                    self.drop_peer(at);
                    silent(true)
                },
            }
        }
    }

    /// A peer that is served sends a message.
    fn say(&mut self, addr: PeerAddr, message: Message) -> (outcome: Outcome)
        requires
            old(self)@.wf(),
        ensures
            final(self)@.wf(),
            (final(self)@, outcome@) == old(self)@.say(addr, message@),
    {
        let ghost before = self@;
        proof {
            lemma_say_wf(before, addr, message@);
        }
        let frame = Frame::Message(message.clone());
        match self.channels.broadcast(&message.channel, addr, &frame) {
            Ok(relay) => {
                let _ = self.channels.append_message(message);
                reply_with(frame, relay, false)
            },
            Err(_) => error_reply("Channel not found", false),
        }
    }

    /// A peer that is served asks for a channel.
    fn found(&mut self, addr: PeerAddr, channel: &Channel) -> (outcome: Outcome)
        requires
            old(self)@.wf(),
        ensures
            final(self)@.wf(),
            (final(self)@, outcome@) == old(self)@.found(addr, channel@),
    {
        let ghost before = self@;
        proof {
            lemma_found_wf(before, addr, channel@);
        }
        match self.channels.create_channel(channel) {
            Ok(()) => {
                let snapshot = self.channels.snapshot();
                let relay = self.channels.notify_directory(addr, &snapshot);
                reply_with(snapshot, relay, false)
            },
            Err(_) => error_reply("Channel already exists", false),
        }
    }

    /// Bytes have arrived on the connection of `addr` that are no frame.
    pub fn reject(&mut self, addr: PeerAddr) -> (outcome: Outcome)
        requires
            old(self)@.wf(),
        ensures
            final(self)@.wf(),
            (final(self)@, outcome@) == old(self)@.reject(addr),
    {
        let ghost before = self@;
        proof {
            lemma_without_wf(before, addr);
        }
        match self.find_peer(addr) {
            Some(at) => {
                proof {
                    lemma_index_of(before, addr, at as int);
                }
                if self.peers[at].user.is_some() {
                    silent(false)
                } else {
                    self.drop_peer(at);
                    silent(true)
                }
            },
            None => {
                assert(!before.serving(addr)) by {
                    if before.serving(addr) {
                        assert(before.connected(addr));
                    }
                }
                silent(true)
            },
        }
    }

    /// The transport of the connection of `addr` has reached its end or
    /// failed.
    pub fn disconnect(&mut self, addr: PeerAddr) -> (outcome: Outcome)
        requires
            old(self)@.wf(),
        ensures
            final(self)@.wf(),
            (final(self)@, outcome@) == old(self)@.disconnect(addr),
    {
        match self.find_peer(addr) {
            Some(at) => {
                proof {
                    lemma_index_of(self@, addr, at as int);
                }
                self.drop_peer(at);
            },
            None => {},
        }
        silent(true)
    }

    /// Bytes have arrived on the connection of `addr`: they are read as a
    /// frame, and taken as [`Server::process`] takes what they are.
    pub fn receive(&mut self, addr: PeerAddr, data: &[u8]) -> (outcome: Outcome)
        requires
            old(self)@.wf(),
        ensures
            final(self)@.wf(),
            (final(self)@, outcome@) == old(self)@.step(addr, arrival(data@)),
    {
        self.process(addr, Event::from_bytes(data))
    }

    /// The number of slots.
    pub fn capacity(&self) -> (n: usize)
        ensures
            n == self@.slots.capacity,
    {
        self.admission.capacity()
    }

    /// The number of connections that hold a slot.
    pub fn connections(&self) -> (n: usize)
        ensures
            n == self@.peers.len(),
    {
        self.peers.len()
    }

    /// Where the connection of `addr` stands.
    pub fn phase(&self, addr: PeerAddr) -> (phase: Phase)
        requires
            self@.wf(),
        ensures
            phase == self@.phase(addr),
    {
        match self.find_peer(addr) {
            Some(at) => {
                proof {
                    lemma_index_of(self@, addr, at as int);
                }
                if self.peers[at].user.is_some() {
                    Phase::Serving
                } else {
                    Phase::Authorizing
                }
            },
            None => {
                assert(!self@.serving(addr)) by {
                    if self@.serving(addr) {
                        assert(self@.connected(addr));
                    }
                }
                Phase::Closed
            },
        }
    }

    /// The user of the connection of `addr`, once it has authorized.
    pub fn user(&self, addr: PeerAddr) -> (user: Option<&User>)
        requires
            self@.wf(),
        ensures
            user is Some <==> self@.serving(addr),
            user is Some ==> Some(user->0@) == self@.peers[self@.index_of(addr)].user,
    {
        match self.find_peer(addr) {
            Some(at) => {
                proof {
                    lemma_index_of(self@, addr, at as int);
                }
                self.peers[at].user.as_ref()
            },
            None => {
                assert(!self@.serving(addr)) by {
                    if self@.serving(addr) {
                        assert(self@.connected(addr));
                    }
                }
                None
            },
        }
    }

    /// The channels.
    pub fn channels(&self) -> (channels: &Registry)
        ensures
            channels@ == self@.channels,
    {
        &self.channels
    }

    /// Takes one event on the connection of `addr`: changes the server as
    /// the event asks, and says what is to be sent and whether the
    /// connection is over.
    pub fn process(&mut self, addr: PeerAddr, event: Event) -> (outcome: Outcome)
        requires
            old(self)@.wf(),
        ensures
            final(self)@.wf(),
            (final(self)@, outcome@) == old(self)@.step(addr, event@),
    {
        match event {
            Event::Accepted => self.accept(addr),
            Event::Frame(frame) => self.handle(addr, frame),
            Event::Malformed => self.reject(addr),
            Event::Closed => self.disconnect(addr),
        }
    }
}

} // verus!
