//! Channels: who is in them, what was said in them, and who is sent a frame.

use crate::addr::PeerAddr;
use crate::frame::{clone_messages, Channel, ChannelView, Frame, FrameView, Message, MessageView};
use vstd::prelude::*;

verus! {

/// One frame for the outbound queue of one peer.
#[derive(Debug, PartialEq)]
pub struct Delivery {
    pub to: PeerAddr,
    pub frame: Frame,
}

/// What a [`Delivery`] is, as plain values.
pub struct DeliveryView {
    pub to: PeerAddr,
    pub frame: FrameView,
}

impl View for Delivery {
    type V = DeliveryView;

    open spec fn view(&self) -> DeliveryView {
        DeliveryView { to: self.to, frame: self.frame@ }
    }
}

impl DeepView for Delivery {
    type V = DeliveryView;

    open spec fn deep_view(&self) -> DeliveryView {
        self@
    }
}

/// The test that a peer is not `sender`.
pub open spec fn is_other(sender: PeerAddr) -> spec_fn(PeerAddr) -> bool {
    |peer: PeerAddr| peer != sender
}

/// The delivery of `frame` to a peer.
pub open spec fn deliver(frame: FrameView) -> spec_fn(PeerAddr) -> DeliveryView {
    |to: PeerAddr| DeliveryView { to, frame }
}

/// The peers of `peers` other than `sender`, in their order.
pub open spec fn others(peers: Seq<PeerAddr>, sender: PeerAddr) -> Seq<PeerAddr> {
    peers.filter(is_other(sender))
}

/// One delivery of `frame` to each of `peers` but `sender`, in their order.
pub open spec fn fan_out(peers: Seq<PeerAddr>, sender: PeerAddr, frame: FrameView) -> Seq<
    DeliveryView,
> {
    others(peers, sender).map_values(deliver(frame))
}

/// `peers` without repetitions: of each address the first occurrence stays.
pub open spec fn distinct(peers: Seq<PeerAddr>) -> Seq<PeerAddr>
    decreases peers.len(),
{
    if peers.len() == 0 {
        peers
    } else {
        let rest = distinct(peers.drop_last());
        if rest.contains(peers.last()) {
            rest
        } else {
            rest.push(peers.last())
        }
    }
}

/// The state of one channel, as plain values.
pub struct SharedView {
    pub name: Seq<char>,
    pub cover: Option<Seq<char>>,
    /// The messages accepted so far, in the order of their arrival.
    pub messages: Seq<MessageView>,
    /// The members, in the order in which they joined.
    pub peers: Seq<PeerAddr>,
}

impl SharedView {
    /// No peer is a member twice.
    pub open spec fn wf(self) -> bool {
        self.peers.no_duplicates()
    }

    /// The channel after `addr` has joined; a member joins to no effect.
    pub open spec fn join(self, addr: PeerAddr) -> SharedView {
        if self.peers.contains(addr) {
            self
        } else {
            SharedView { peers: self.peers.push(addr), ..self }
        }
    }

    /// The channel after `addr` has left.
    pub open spec fn leave(self, addr: PeerAddr) -> SharedView {
        SharedView { peers: others(self.peers, addr), ..self }
    }

    /// The channel after `message` has been added to its history.
    pub open spec fn record(self, message: MessageView) -> SharedView {
        SharedView { messages: self.messages.push(message), ..self }
    }

    /// What a broadcast of `frame` by `sender` puts on the members' queues.
    pub open spec fn relay(self, sender: PeerAddr, frame: FrameView) -> Seq<DeliveryView> {
        fan_out(self.peers, sender, frame)
    }

    /// The channel as clients are shown it.
    pub open spec fn listing(self) -> ChannelView {
        ChannelView { name: self.name, messages: self.messages, cover: self.cover }
    }
}

/// `others` keeps the peers that differ from `sender`, and only those.
pub proof fn lemma_others_contains(peers: Seq<PeerAddr>, sender: PeerAddr, peer: PeerAddr)
    ensures
        others(peers, sender).contains(peer) <==> peers.contains(peer) && peer != sender,
{
    let keep = is_other(sender);
    if others(peers, sender).contains(peer) {
        peers.lemma_filter_contains_rev(keep, peer);
        let i = choose|i: int| 0 <= i < peers.filter(keep).len() && peers.filter(keep)[i] == peer;
        peers.lemma_filter_pred(keep, i);
    }
    if peers.contains(peer) && peer != sender {
        let i = choose|i: int| 0 <= i < peers.len() && peers[i] == peer;
        peers.lemma_filter_contains(keep, i);
    }
}

/// `others` of a sequence without repetitions has none.
pub proof fn lemma_others_no_duplicates(peers: Seq<PeerAddr>, sender: PeerAddr)
    requires
        peers.no_duplicates(),
    ensures
        others(peers, sender).no_duplicates(),
    decreases peers.len(),
{
    reveal(Seq::filter);
    if peers.len() > 0 {
        let rest = peers.drop_last();
        lemma_others_no_duplicates(rest, sender);
        lemma_others_contains(rest, sender, peers.last());
        assert(!rest.contains(peers.last())) by {
            if rest.contains(peers.last()) {
                let i = choose|i: int| 0 <= i < rest.len() && rest[i] == peers.last();
                assert(peers[i] == peers[peers.len() - 1]);
            }
        }
    }
}

/// `distinct` has no repetitions and the same members.
pub proof fn lemma_distinct(peers: Seq<PeerAddr>)
    ensures
        distinct(peers).no_duplicates(),
        forall|peer: PeerAddr| distinct(peers).contains(peer) <==> peers.contains(peer),
        peers.no_duplicates() ==> distinct(peers) == peers,
    decreases peers.len(),
{
    if peers.len() > 0 {
        let rest = peers.drop_last();
        let last = peers.last();
        let kept = distinct(rest);
        lemma_distinct(rest);
        assert(peers =~= rest.push(last));
        assert forall|peer: PeerAddr| rest.contains(peer) implies peers.contains(peer) by {
            let i = choose|i: int| 0 <= i < rest.len() && rest[i] == peer;
            assert(peers[i] == peer);
        }
        assert(peers.contains(last)) by {
            assert(peers[peers.len() - 1] == last);
        }
        assert forall|peer: PeerAddr| peers.contains(peer) implies rest.contains(peer) || peer
            == last by {
            let i = choose|i: int| 0 <= i < peers.len() && peers[i] == peer;
            if i < rest.len() {
                assert(rest[i] == peer);
            }
        }
        if kept.contains(last) {
            assert(rest.contains(last));
        } else {
            let grown = kept.push(last);
            assert forall|peer: PeerAddr| grown.contains(peer) <==> kept.contains(peer) || peer
                == last by {
                if kept.contains(peer) {
                    let i = choose|i: int| 0 <= i < kept.len() && kept[i] == peer;
                    assert(grown[i] == peer);
                }
                if peer == last {
                    assert(grown[kept.len() as int] == peer);
                }
                if grown.contains(peer) {
                    let i = choose|i: int| 0 <= i < grown.len() && grown[i] == peer;
                    if i < kept.len() {
                        assert(kept[i] == peer);
                    }
                }
            }
            assert(grown.no_duplicates()) by {
                assert forall|i: int, j: int|
                    0 <= i < grown.len() && 0 <= j < grown.len() && i != j implies grown[i]
                    != grown[j] by {
                    if i < kept.len() && j < kept.len() {
                    } else if i < kept.len() {
                        assert(kept.contains(kept[i]));
                    } else {
                        assert(kept.contains(kept[j]));
                    }
                }
            }
        }
        if peers.no_duplicates() {
            assert(rest.no_duplicates());
            assert(!rest.contains(last)) by {
                if rest.contains(last) {
                    let i = choose|i: int| 0 <= i < rest.len() && rest[i] == last;
                    assert(peers[i] == peers[peers.len() - 1]);
                }
            }
        }
    }
}

/// Whether `addr` is among `peers`.
pub fn has_addr(peers: &Vec<PeerAddr>, addr: PeerAddr) -> (found: bool)
    ensures
        found == peers@.contains(addr),
{
    let mut i: usize = 0;
    while i < peers.len()
        invariant
            i <= peers.len(),
            forall|k: int| 0 <= k < i ==> peers[k] != addr,
        decreases peers.len() - i,
    {
        if peers[i] == addr {
            return true;
        }
        i += 1;
    }
    false
}

/// The state of one channel: its members and its history.
#[derive(Debug)]
pub struct Shared {
    peers: Vec<PeerAddr>,
    messages: Vec<Message>,
    name: String,
    cover: Option<String>,
}

impl View for Shared {
    type V = SharedView;

    closed spec fn view(&self) -> SharedView {
        SharedView {
            name: self.name@,
            cover: self.cover.deep_view(),
            messages: self.messages.deep_view(),
            peers: self.peers@,
        }
    }
}

impl DeepView for Shared {
    type V = SharedView;

    open spec fn deep_view(&self) -> SharedView {
        self@
    }
}

impl Shared {
    /// A channel without members or history.
    pub fn new(name: String, cover: Option<String>) -> (channel: Shared)
        ensures
            channel@.wf(),
            channel@ == (SharedView {
                name: name@,
                cover: cover.deep_view(),
                messages: Seq::empty(),
                peers: Seq::empty(),
            }),
    {
        let channel = Shared { peers: Vec::new(), name, cover, messages: Vec::new() };
        assert(channel.messages.deep_view() =~= Seq::empty());
        channel
    }

    /// A channel without history whose members are `peers`, each once.
    pub fn with_peers(name: String, cover: Option<String>, peers: Vec<PeerAddr>) -> (channel:
        Shared)
        ensures
            channel@.wf(),
            channel@ == (SharedView {
                name: name@,
                cover: cover.deep_view(),
                messages: Seq::empty(),
                peers: distinct(peers@),
            }),
    {
        proof {
            lemma_distinct(peers@);
        }
        let mut members: Vec<PeerAddr> = Vec::new();
        let mut i: usize = 0;
        while i < peers.len()
            invariant
                i <= peers.len(),
                members@ == distinct(peers@.take(i as int)),
            decreases peers.len() - i,
        {
            assert(peers@.take(i + 1).drop_last() =~= peers@.take(i as int));
            if !has_addr(&members, peers[i]) {
                members.push(peers[i]);
            }
            i += 1;
        }
        assert(peers@.take(i as int) =~= peers@);
        let channel = Shared { peers: members, name, cover, messages: Vec::new() };
        assert(channel.messages.deep_view() =~= Seq::empty());
        channel
    }

    /// What a broadcast of `frame` by `sender` puts on the members' queues:
    /// the frame for every member but the sender, in the order of joining.
    pub fn broadcast(&self, sender: PeerAddr, frame: &Frame) -> (out: Vec<Delivery>)
        ensures
            out.deep_view() == self@.relay(sender, frame@),
    {
        let mut out: Vec<Delivery> = Vec::new();
        let mut i: usize = 0;
        while i < self.peers.len()
            invariant
                i <= self.peers.len(),
                out.deep_view() == fan_out(self.peers@.take(i as int), sender, frame@),
            decreases self.peers.len() - i,
        {
            let to = self.peers[i];
            proof {
                let seen = self.peers@.take(i as int);
                assert(self.peers@.take(i + 1) =~= seen.push(to));
                seen.lemma_filter_push(to, is_other(sender));
                others(seen, sender).lemma_push_map_commute(deliver(frame@), to);
            }
            if to != sender {
                let ghost before = out.deep_view();
                let delivery = Delivery { to, frame: frame.clone() };
                out.push(delivery);
                assert(out.deep_view() =~= before.push(delivery@));
            }
            i += 1;
        }
        assert(self.peers@.take(i as int) =~= self.peers@);
        out
    }

    /// The name of the channel.
    pub fn name(&self) -> (name: &String)
        ensures
            name@ == self@.name,
    {
        &self.name
    }

    /// The picture of the channel.
    pub fn cover(&self) -> (cover: &Option<String>)
        ensures
            cover.deep_view() == self@.cover,
    {
        &self.cover
    }

    /// The history of the channel.
    pub fn messages(&self) -> (messages: &Vec<Message>)
        ensures
            messages.deep_view() == self@.messages,
    {
        &self.messages
    }

    /// The members of the channel.
    pub fn peers(&self) -> (peers: &Vec<PeerAddr>)
        ensures
            peers@ == self@.peers,
    {
        &self.peers
    }

    /// Makes `addr` a member; a member stays one.
    pub fn join(&mut self, addr: PeerAddr)
        ensures
            final(self)@ == old(self)@.join(addr),
            old(self)@.wf() ==> final(self)@.wf(),
    {
        proof {
            if self@.wf() {
                lemma_membership_wf(self@, addr);
            }
        }
        if !has_addr(&self.peers, addr) {
            self.peers.push(addr);
        }
    }

    /// Ends the membership of `addr`.
    pub fn leave(&mut self, addr: PeerAddr)
        ensures
            final(self)@ == old(self)@.leave(addr),
            old(self)@.wf() ==> final(self)@.wf(),
    {
        proof {
            if self@.wf() {
                lemma_membership_wf(self@, addr);
            }
        }
        let mut kept: Vec<PeerAddr> = Vec::new();
        let mut i: usize = 0;
        while i < self.peers.len()
            invariant
                i <= self.peers.len(),
                kept@ == others(self.peers@.take(i as int), addr),
            decreases self.peers.len() - i,
        {
            let peer = self.peers[i];
            proof {
                let seen = self.peers@.take(i as int);
                assert(self.peers@.take(i + 1) =~= seen.push(peer));
                seen.lemma_filter_push(peer, is_other(addr));
            }
            if peer != addr {
                kept.push(peer);
            }
            i += 1;
        }
        assert(self.peers@.take(i as int) =~= self.peers@);
        self.peers = kept;
    }

    /// Adds `message` at the end of the history.
    pub fn record(&mut self, message: Message)
        ensures
            final(self)@ == old(self)@.record(message@),
            old(self)@.wf() ==> final(self)@.wf(),
    {
        let ghost before = self.messages.deep_view();
        self.messages.push(message);
        assert(self.messages.deep_view() =~= before.push(message@));
    }

    /// The channel as clients are shown it: name, history and picture.
    pub fn listing(&self) -> (channel: Channel)
        ensures
            channel@ == self@.listing(),
    {
        Channel {
            name: self.name.clone(),
            messages: clone_messages(&self.messages),
            cover: self.cover.clone(),
        }
    }
}

/// Why the registry refused an operation on a channel.
#[derive(Clone, Copy, Debug, PartialEq, Eq, Structural)]
pub enum ChannelError {
    /// No channel has the name.
    NotFound,
    /// A channel already has the name.
    AlreadyExists,
}

/// The name of the channel that exists from the start and is never removed.
/// Its members are the ones told of a new channel.
pub open spec fn default_channel() -> Seq<char> {
    "default"@
}

/// The picture of a channel that was given none.
pub open spec fn default_cover() -> Seq<char> {
    "https://cdn-icons-png.flaticon.com/512/134/134932.png"@
}

/// The step that makes `addr` a member of a channel.
pub open spec fn joining(addr: PeerAddr) -> spec_fn(SharedView) -> SharedView {
    |channel: SharedView| channel.join(addr)
}

/// The step that ends the membership of `addr` in a channel.
pub open spec fn leaving(addr: PeerAddr) -> spec_fn(SharedView) -> SharedView {
    |channel: SharedView| channel.leave(addr)
}

/// The step from a channel to what clients are shown of it.
pub open spec fn listed() -> spec_fn(SharedView) -> ChannelView {
    |channel: SharedView| channel.listing()
}

/// All channels, as plain values, in the order of their creation.
pub struct RegistryView {
    pub channels: Seq<SharedView>,
}

impl RegistryView {
    /// Whether a channel is named `name`.
    pub open spec fn holds(self, name: Seq<char>) -> bool {
        exists|i: int| 0 <= i < self.channels.len() && self.channels[i].name == name
    }

    /// Where the channel named `name` stands.
    pub open spec fn position(self, name: Seq<char>) -> int {
        choose|i: int| 0 <= i < self.channels.len() && self.channels[i].name == name
    }

    /// The channel named `name`.
    pub open spec fn channel(self, name: Seq<char>) -> SharedView {
        self.channels[self.position(name)]
    }

    /// The default channel comes first, no two channels share a name, and no
    /// channel has a member twice.
    pub open spec fn wf(self) -> bool {
        &&& self.channels.len() > 0
        &&& self.channels[0].name == default_channel()
        &&& forall|i: int| 0 <= i < self.channels.len() ==> (#[trigger] self.channels[i]).wf()
        &&& forall|i: int, j: int|
            0 <= i < j < self.channels.len() ==> (#[trigger] self.channels[i]).name != (
            #[trigger] self.channels[j]).name
    }

    /// The peers that are told when the list of channels changes: the members
    /// of the default channel.
    pub open spec fn directory(self) -> Seq<PeerAddr> {
        self.channels[0].peers
    }

    /// Every channel as clients are shown it.
    pub open spec fn listing(self) -> Seq<ChannelView> {
        self.channels.map_values(listed())
    }

    /// The frame that seeds a client's state: no loose messages, every channel.
    pub open spec fn snapshot(self) -> FrameView {
        FrameView::Bulk(Seq::empty(), self.listing())
    }

    /// The registry after `addr` has joined every channel.
    pub open spec fn join_all(self, addr: PeerAddr) -> RegistryView {
        RegistryView { channels: self.channels.map_values(joining(addr)) }
    }

    /// The registry after `addr` has joined the channel named `name`; unchanged
    /// if there is none.
    pub open spec fn join(self, name: Seq<char>, addr: PeerAddr) -> RegistryView {
        if self.holds(name) {
            RegistryView {
                channels: self.channels.update(self.position(name), self.channel(name).join(addr)),
            }
        } else {
            self
        }
    }

    /// The registry after `addr` has joined `channel`, or every channel if
    /// none is named.
    pub open spec fn register_peer(self, channel: Option<Seq<char>>, addr: PeerAddr) -> RegistryView {
        match channel {
            Some(name) => self.join(name, addr),
            None => self.join_all(addr),
        }
    }

    /// The registry after `addr` has left every channel.
    pub open spec fn leave_all(self, addr: PeerAddr) -> RegistryView {
        RegistryView { channels: self.channels.map_values(leaving(addr)) }
    }

    /// The registry after `message` has been added to the history of the
    /// channel it names; unchanged if there is none.
    pub open spec fn append(self, message: MessageView) -> RegistryView {
        if self.holds(message.channel) {
            RegistryView {
                channels: self.channels.update(
                    self.position(message.channel),
                    self.channel(message.channel).record(message),
                ),
            }
        } else {
            self
        }
    }

    /// What a broadcast of `frame` by `sender` in the channel named `name`
    /// puts on the members' queues; nothing if there is no such channel.
    pub open spec fn broadcast(self, name: Seq<char>, sender: PeerAddr, frame: FrameView) -> Seq<
        DeliveryView,
    > {
        if self.holds(name) {
            self.channel(name).relay(sender, frame)
        } else {
            Seq::empty()
        }
    }

    /// The channel that a request to create `channel` adds: it takes the name
    /// and the picture, starts without history, and its members are those of
    /// the directory.
    pub open spec fn founded(self, channel: ChannelView) -> SharedView {
        SharedView {
            name: channel.name,
            cover: channel.cover,
            messages: Seq::empty(),
            peers: self.directory(),
        }
    }

    /// The registry after a request to create `channel`; unchanged if the
    /// name is taken.
    pub open spec fn create(self, channel: ChannelView) -> RegistryView {
        if self.holds(channel.name) {
            self
        } else {
            RegistryView { channels: self.channels.push(self.founded(channel)) }
        }
    }
}

/// In a well-formed registry a name stands at one place only.
pub proof fn lemma_position(registry: RegistryView, name: Seq<char>, i: int)
    requires
        registry.wf(),
        0 <= i < registry.channels.len(),
        registry.channels[i].name == name,
    ensures
        registry.holds(name),
        registry.position(name) == i,
{
    let j = registry.position(name);
    if j < i {
        assert(registry.channels[j].name != registry.channels[i].name);
    } else if i < j {
        assert(registry.channels[i].name != registry.channels[j].name);
    }
}

/// Joining and leaving keep a channel well formed.
pub proof fn lemma_membership_wf(channel: SharedView, addr: PeerAddr)
    requires
        channel.wf(),
    ensures
        channel.join(addr).wf(),
        channel.leave(addr).wf(),
        !channel.leave(addr).peers.contains(addr),
        channel.join(addr).peers.contains(addr),
{
    lemma_others_no_duplicates(channel.peers, addr);
    lemma_others_contains(channel.peers, addr, addr);
    if !channel.peers.contains(addr) {
        let grown = channel.peers.push(addr);
        assert(grown[channel.peers.len() as int] == addr);
        assert forall|i: int, j: int|
            0 <= i < grown.len() && 0 <= j < grown.len() && i != j implies grown[i]
            != grown[j] by {
            if i < channel.peers.len() && j < channel.peers.len() {
            } else if i < channel.peers.len() {
                assert(channel.peers.contains(channel.peers[i]));
            } else {
                assert(channel.peers.contains(channel.peers[j]));
            }
        }
    }
}

/// Every operation of the registry keeps it well formed.
pub proof fn lemma_registry_wf(
    registry: RegistryView,
    addr: PeerAddr,
    name: Seq<char>,
    message: MessageView,
    channel: ChannelView,
)
    requires
        registry.wf(),
    ensures
        registry.join_all(addr).wf(),
        registry.join(name, addr).wf(),
        registry.leave_all(addr).wf(),
        registry.append(message).wf(),
        registry.create(channel).wf(),
{
    assert forall|i: int| 0 <= i < registry.channels.len() implies (
    #[trigger] registry.channels[i]).join(addr).wf() && registry.channels[i].leave(addr).wf() by {
        lemma_membership_wf(registry.channels[i], addr);
    }
    if registry.holds(name) {
        lemma_membership_wf(registry.channel(name), addr);
    }
    if !registry.holds(channel.name) {
        let grown = registry.channels.push(registry.founded(channel));
        assert forall|i: int, j: int| 0 <= i < j < grown.len() implies (#[trigger] grown[i]).name
            != (#[trigger] grown[j]).name by {
            if j < registry.channels.len() {
                assert(registry.channels[i].name != registry.channels[j].name);
            }
        }
    }
}

/// The server's channels: the one place where membership and history are kept.
#[derive(Debug)]
pub struct Registry {
    channels: Vec<Shared>,
}

impl View for Registry {
    type V = RegistryView;

    closed spec fn view(&self) -> RegistryView {
        RegistryView { channels: self.channels.deep_view() }
    }
}

impl Registry {
    /// A registry that holds the default channel, without members or history.
    pub fn new() -> (registry: Registry)
        ensures
            registry@.wf(),
            registry@.channels == seq![
                SharedView {
                    name: default_channel(),
                    cover: Some(default_cover()),
                    messages: Seq::empty(),
                    peers: Seq::empty(),
                },
            ],
    {
        let name = String::from_str("default");
        let cover = String::from_str("https://cdn-icons-png.flaticon.com/512/134/134932.png");
        let mut channels: Vec<Shared> = Vec::new();
        channels.push(Shared::new(name, Some(cover)));
        let registry = Registry { channels };
        assert(registry@.channels =~= seq![
            SharedView {
                name: default_channel(),
                cover: Some(default_cover()),
                messages: Seq::empty(),
                peers: Seq::empty(),
            },
        ]);
        registry
    }

    /// Where the channel named `name` stands, if there is one.
    pub fn find(&self, name: &String) -> (found: Option<usize>)
        requires
            self@.wf(),
        ensures
            found is Some <==> self@.holds(name@),
            found is Some ==> found->0 == self@.position(name@),
    {
        let mut i: usize = 0;
        while i < self.channels.len()
            invariant
                self@.wf(),
                i <= self.channels.len(),
                forall|k: int| 0 <= k < i ==> self@.channels[k].name != name@,
            decreases self.channels.len() - i,
        {
            if self.channels[i].name == *name {
                proof {
                    lemma_position(self@, name@, i as int);
                }
                return Some(i);
            }
            i += 1;
        }
        None
    }

    /// The channel named `name`, if there is one.
    pub fn get(&self, name: &String) -> (channel: Option<&Shared>)
        requires
            self@.wf(),
        ensures
            channel is Some <==> self@.holds(name@),
            channel is Some ==> channel->0@ == self@.channel(name@),
    {
        match self.find(name) {
            Some(i) => Some(&self.channels[i]),
            None => None,
        }
    }

    /// The number of channels.
    pub fn len(&self) -> (n: usize)
        ensures
            n == self@.channels.len(),
    {
        self.channels.len()
    }

    /// Every channel as clients are shown it, in the order of creation.
    pub fn listing(&self) -> (channels: Vec<Channel>)
        ensures
            channels.deep_view() == self@.listing(),
    {
        let mut out: Vec<Channel> = Vec::new();
        let mut i: usize = 0;
        while i < self.channels.len()
            invariant
                i <= self.channels.len(),
                out.len() == i,
                forall|k: int| 0 <= k < i ==> out[k]@ == self@.channels[k].listing(),
            decreases self.channels.len() - i,
        {
            out.push(self.channels[i].listing());
            i += 1;
        }
        assert(out.deep_view() =~= self@.listing());
        out
    }

    /// The frame that seeds a client's state after it has authorized.
    pub fn snapshot(&self) -> (frame: Frame)
        ensures
            frame@ == self@.snapshot(),
    {
        let loose: Vec<Message> = Vec::new();
        assert(loose.deep_view() =~= Seq::empty());
        Frame::Bulk(loose, self.listing())
    }

    /// Makes `addr` a member of the channel named `channel`, or of every
    /// channel if none is named. A name that no channel has changes nothing.
    pub fn register_peer(&mut self, channel: Option<&String>, addr: PeerAddr)
        requires
            old(self)@.wf(),
        ensures
            final(self)@.wf(),
            final(self)@ == old(self)@.register_peer(
                match channel {
                    Some(name) => Some(name@),
                    None => None,
                },
                addr,
            ),
    {
        let ghost before = self@;
        proof {
            lemma_registry_wf(
                before,
                addr,
                match channel {
                    Some(name) => name@,
                    None => Seq::empty(),
                },
                arbitrary(),
                arbitrary(),
            );
        }
        match channel {
            Some(name) => {
                match self.find(name) {
                    Some(i) => {
                        self.channels[i].join(addr);
                        assert(self@.channels =~= before.channels.update(
                            i as int,
                            before.channels[i as int].join(addr),
                        ));
                    },
                    None => {},
                }
            },
            None => {
                let mut i: usize = 0;
                while i < self.channels.len()
                    invariant
                        i <= self.channels.len(),
                        self.channels.len() == before.channels.len(),
                        forall|k: int|
                            0 <= k < i ==> (#[trigger] self.channels[k])@
                                == before.channels[k].join(addr),
                        forall|k: int|
                            i <= k < self.channels.len() ==> (#[trigger] self.channels[k])@
                                == before.channels[k],
                    decreases self.channels.len() - i,
                {
                    self.channels[i].join(addr);
                    i += 1;
                }
                assert(self@.channels =~= before.join_all(addr).channels);
            },
        }
    }

    /// Ends the membership of `addr` in every channel.
    pub fn remove_peer(&mut self, addr: PeerAddr)
        requires
            old(self)@.wf(),
        ensures
            final(self)@.wf(),
            final(self)@ == old(self)@.leave_all(addr),
    {
        let ghost before = self@;
        proof {
            lemma_registry_wf(before, addr, Seq::empty(), arbitrary(), arbitrary());
        }
        let mut i: usize = 0;
        while i < self.channels.len()
            invariant
                i <= self.channels.len(),
                self.channels.len() == before.channels.len(),
                forall|k: int|
                    0 <= k < i ==> (#[trigger] self.channels[k])@ == before.channels[k].leave(addr),
                forall|k: int|
                    i <= k < self.channels.len() ==> (#[trigger] self.channels[k])@
                        == before.channels[k],
            decreases self.channels.len() - i,
        {
            self.channels[i].leave(addr);
            i += 1;
        }
        assert(self@.channels =~= before.leave_all(addr).channels);
    }

    /// Adds `message` to the history of the channel it names. If there is no
    /// such channel the message is dropped.
    pub fn append_message(&mut self, message: Message) -> (outcome: Result<(), ChannelError>)
        requires
            old(self)@.wf(),
        ensures
            final(self)@.wf(),
            final(self)@ == old(self)@.append(message@),
            outcome is Ok <==> old(self)@.holds(message@.channel),
            outcome is Err ==> outcome == Err::<(), ChannelError>(ChannelError::NotFound),
    {
        let ghost before = self@;
        proof {
            lemma_registry_wf(before, arbitrary(), Seq::empty(), message@, arbitrary());
        }
        match self.find(&message.channel) {
            Some(i) => {
                self.channels[i].record(message);
                assert(self@.channels =~= before.channels.update(
                    i as int,
                    before.channels[i as int].record(message@),
                ));
                Ok(())
            },
            None => Err(ChannelError::NotFound),
        }
    }

    /// What a broadcast of `frame` by `sender` in the channel named `channel`
    /// puts on the members' queues: the frame for every member but the
    /// sender.
    pub fn broadcast(&self, channel: &String, sender: PeerAddr, frame: &Frame) -> (outcome: Result<
        Vec<Delivery>,
        ChannelError,
    >)
        requires
            self@.wf(),
        ensures
            outcome is Ok <==> self@.holds(channel@),
            outcome is Ok ==> outcome->Ok_0.deep_view() == self@.broadcast(channel@, sender, frame@),
            outcome is Err ==> outcome->Err_0 == ChannelError::NotFound,
    {
        match self.find(channel) {
            Some(i) => Ok(self.channels[i].broadcast(sender, frame)),
            None => Err(ChannelError::NotFound),
        }
    }

    /// What telling the directory of `frame` puts on the queues: the frame
    /// for every member of the default channel but `sender`.
    pub fn notify_directory(&self, sender: PeerAddr, frame: &Frame) -> (out: Vec<Delivery>)
        requires
            self@.wf(),
        ensures
            out.deep_view() == fan_out(self@.directory(), sender, frame@),
    {
        self.channels[0].broadcast(sender, frame)
    }

    /// Creates the channel that `channel` asks for: its name and picture are
    /// taken, its history is not, and the members of the directory become its
    /// members. Refused if the name is taken.
    pub fn create_channel(&mut self, channel: &Channel) -> (outcome: Result<(), ChannelError>)
        requires
            old(self)@.wf(),
        ensures
            final(self)@.wf(),
            final(self)@ == old(self)@.create(channel@),
            outcome is Ok <==> !old(self)@.holds(channel@.name),
            outcome is Err ==> outcome == Err::<(), ChannelError>(ChannelError::AlreadyExists),
    {
        let ghost before = self@;
        proof {
            lemma_registry_wf(before, arbitrary(), Seq::empty(), arbitrary(), channel@);
        }
        match self.find(&channel.name) {
            Some(_) => Err(ChannelError::AlreadyExists),
            None => {
                let peers = self.channels[0].peers.clone();
                proof {
                    lemma_distinct(peers@);
                }
                let founded = Shared::with_peers(channel.name.clone(), channel.cover.clone(), peers);
                self.channels.push(founded);
                assert(self@.channels =~= before.channels.push(before.founded(channel@)));
                Ok(())
            },
        }
    }
}

} // verus!
