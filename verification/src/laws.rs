//! What holds of the server whatever happens: who is admitted, who is sent
//! what, in which order, and what is left of a connection that has ended.

use crate::addr::PeerAddr;
use crate::frame::{ChannelView, FrameView, MessageView};
use crate::registry::{
    deliver, fan_out, is_other, lemma_membership_wf, lemma_others_contains, lemma_position,
    lemma_registry_wf, others, DeliveryView, RegistryView,
};
use crate::server::{
    law_step_keeps_wf, lemma_authorize_wf, lemma_index_of, lemma_without_wf,
    max_connections_reached, EventView, OutcomeView, ServerView,
};
use vstd::prelude::*;

verus! {

/// The test that a delivery is for `peer`.
pub open spec fn is_for(peer: PeerAddr) -> spec_fn(DeliveryView) -> bool {
    |delivery: DeliveryView| delivery.to == peer
}

/// The step from a delivery to its frame.
pub open spec fn frame_of() -> spec_fn(DeliveryView) -> FrameView {
    |delivery: DeliveryView| delivery.frame
}

/// The frames that `relay` puts on the queue of `peer`, in order.
pub open spec fn delivered(relay: Seq<DeliveryView>, peer: PeerAddr) -> Seq<FrameView> {
    relay.filter(is_for(peer)).map_values(frame_of())
}

/// What one more delivery adds to what a peer is sent.
pub proof fn lemma_delivered_push(relay: Seq<DeliveryView>, last: DeliveryView, peer: PeerAddr)
    ensures
        delivered(relay.push(last), peer) == if last.to == peer {
            delivered(relay, peer).push(last.frame)
        } else {
            delivered(relay, peer)
        },
{
    relay.lemma_filter_push(last, is_for(peer));
    relay.filter(is_for(peer)).lemma_push_map_commute(frame_of(), last);
}

/// What a peer is sent of two relays, one after the other.
pub proof fn lemma_delivered_add(one: Seq<DeliveryView>, two: Seq<DeliveryView>, peer: PeerAddr)
    ensures
        delivered(one + two, peer) == delivered(one, peer) + delivered(two, peer),
{
    Seq::filter_distributes_over_add(one, two, is_for(peer));
    assert(delivered(one + two, peer) =~= delivered(one, peer) + delivered(two, peer));
}

/// A broadcast among `peers` puts the frame once on the queue of every one
/// of them but the sender, and on no other queue.
pub proof fn lemma_fan_out_delivered(
    peers: Seq<PeerAddr>,
    sender: PeerAddr,
    frame: FrameView,
    peer: PeerAddr,
)
    requires
        peers.no_duplicates(),
    ensures
        delivered(fan_out(peers, sender, frame), peer) == if peers.contains(peer) && peer
            != sender {
            seq![frame]
        } else {
            Seq::<FrameView>::empty()
        },
    decreases peers.len(),
{
    reveal(Seq::filter);
    if peers.len() == 0 {
        assert(delivered(fan_out(peers, sender, frame), peer) =~= Seq::empty());
    } else {
        let rest = peers.drop_last();
        let last = peers.last();
        assert(peers =~= rest.push(last));
        lemma_fan_out_delivered(rest, sender, frame, peer);
        rest.lemma_filter_push(last, is_other(sender));
        others(rest, sender).lemma_push_map_commute(deliver(frame), last);
        assert(rest.contains(peer) ==> peers.contains(peer)) by {
            if rest.contains(peer) {
                let i = choose|i: int| 0 <= i < rest.len() && rest[i] == peer;
                assert(peers[i] == peer);
            }
        }
        assert(peers.contains(last)) by {
            assert(peers[peers.len() - 1] == last);
        }
        assert(!rest.contains(last)) by {
            if rest.contains(last) {
                let i = choose|i: int| 0 <= i < rest.len() && rest[i] == last;
                assert(peers[i] == peers[peers.len() - 1]);
            }
        }
        assert(peers.contains(peer) ==> rest.contains(peer) || peer == last) by {
            if peers.contains(peer) {
                let i = choose|i: int| 0 <= i < peers.len() && peers[i] == peer;
                if i < rest.len() {
                    assert(rest[i] == peer);
                }
            }
        }
        if last != sender {
            lemma_delivered_push(
                fan_out(rest, sender, frame),
                DeliveryView { to: last, frame },
                peer,
            );
            if last == peer {
                assert(Seq::<FrameView>::empty().push(frame) =~= seq![frame]);
            }
        }
    }
}

/// While every slot is taken, one more connection is told so and closed, and
/// the server stays as it was. As soon as one of the connections has ended,
/// the next one is admitted.
pub proof fn law_admission_bound(
    server: ServerView,
    newcomer: PeerAddr,
    leaver: PeerAddr,
    next: PeerAddr,
)
    requires
        server.wf(),
        server.slots.held == server.slots.capacity,
        server.connected(leaver),
        next == leaver || !server.connected(next),
    ensures
        server.step(newcomer, EventView::Accepted) == (
            server,
            OutcomeView::refuse(max_connections_reached()),
        ),
        ({
            let freed = server.step(leaver, EventView::Closed).0;
            let (after, outcome) = freed.step(next, EventView::Accepted);
            &&& freed.slots.available()
            &&& outcome == OutcomeView::nothing()
            &&& after.connected(next)
            &&& after.slots.held == server.slots.capacity
        }),
{
    let freed = server.step(leaver, EventView::Closed).0;
    lemma_without_wf(server, leaver);
    let at = server.index_of(leaver);
    assert(!freed.connected(next)) by {
        if next != leaver && freed.connected(next) {
            let k = choose|k: int| 0 <= k < freed.peers.len() && freed.peers[k].addr == next;
            let sk = if k < at { k } else { k + 1 };
            assert(server.peers[sk].addr == next);
        }
    }
    let after = freed.step(next, EventView::Accepted).0;
    assert(after.peers[freed.peers.len() as int].addr == next);
}

/// A message from a peer that is served, to a channel that exists, is put once
/// on the queue of every other member of that channel and never on the
/// sender's; the sender has it back once, as the reply.
pub proof fn law_broadcast_exclusion(
    server: ServerView,
    sender: PeerAddr,
    message: MessageView,
    peer: PeerAddr,
)
    requires
        server.wf(),
        server.serving(sender),
        server.channels.holds(message.channel),
    ensures
        ({
            let outcome = server.step(sender, EventView::Frame(FrameView::Message(message))).1;
            let members = server.channels.channel(message.channel).peers;
            &&& outcome.reply == seq![FrameView::Message(message)]
            &&& !outcome.close
            &&& delivered(outcome.relay, sender) == Seq::<FrameView>::empty()
            &&& members.contains(peer) && peer != sender ==> delivered(outcome.relay, peer)
                == seq![FrameView::Message(message)]
        }),
{
    let members = server.channels.channel(message.channel).peers;
    let frame = FrameView::Message(message);
    lemma_fan_out_delivered(members, sender, frame, sender);
    lemma_fan_out_delivered(members, sender, frame, peer);
}

/// A message to a channel is put on the queue of nobody who is not a member of
/// that channel.
pub proof fn law_membership_isolation(
    server: ServerView,
    sender: PeerAddr,
    message: MessageView,
    outsider: PeerAddr,
)
    requires
        server.wf(),
        !(server.channels.holds(message.channel) && server.channels.channel(
            message.channel,
        ).peers.contains(outsider)),
    ensures
        delivered(
            server.step(sender, EventView::Frame(FrameView::Message(message))).1.relay,
            outsider,
        ) == Seq::<FrameView>::empty(),
{
    let outcome = server.step(sender, EventView::Frame(FrameView::Message(message))).1;
    if server.serving(sender) && server.channels.holds(message.channel) {
        let members = server.channels.channel(message.channel).peers;
        lemma_fan_out_delivered(members, sender, FrameView::Message(message), outsider);
    } else {
        assert(outcome.relay =~= Seq::empty());
        assert(delivered(outcome.relay, outsider) =~= Seq::empty());
    }
}

/// Two messages that a peer sends to one channel, one after the other, are put
/// on the queue of every other member in that order, and stand in the
/// channel's history in that order.
pub proof fn law_channel_order(
    server: ServerView,
    sender: PeerAddr,
    first: MessageView,
    second: MessageView,
    peer: PeerAddr,
)
    requires
        server.wf(),
        server.serving(sender),
        server.channels.holds(first.channel),
        second.channel == first.channel,
        server.channels.channel(first.channel).peers.contains(peer),
        peer != sender,
    ensures
        ({
            let (between, one) = server.step(sender, EventView::Frame(FrameView::Message(first)));
            let (after, two) = between.step(sender, EventView::Frame(FrameView::Message(second)));
            &&& delivered(one.relay + two.relay, peer) == seq![
                FrameView::Message(first),
                FrameView::Message(second),
            ]
            &&& after.channels.channel(first.channel).messages == server.channels.channel(
                first.channel,
            ).messages.push(first).push(second)
        }),
{
    let name = first.channel;
    let (between, one) = server.step(sender, EventView::Frame(FrameView::Message(first)));
    let (after, two) = between.step(sender, EventView::Frame(FrameView::Message(second)));
    let at = server.channels.position(name);
    law_step_keeps_wf(server, sender, EventView::Frame(FrameView::Message(first)));
    assert(between.peers == server.peers);
    assert(between.serving(sender));
    assert(between.channels.channels[at].name == name);
    lemma_position(between.channels, name, at);
    law_step_keeps_wf(between, sender, EventView::Frame(FrameView::Message(second)));
    assert(after.channels.channels[at].name == name);
    lemma_position(after.channels, name, at);
    law_broadcast_exclusion(server, sender, first, peer);
    law_broadcast_exclusion(between, sender, second, peer);
    lemma_delivered_add(one.relay, two.relay, peer);
    assert(seq![FrameView::Message(first)] + seq![FrameView::Message(second)] =~= seq![
        FrameView::Message(first),
        FrameView::Message(second),
    ]);
}

/// After the transport of a connection has closed, its address is a member of
/// no channel and has no record, and the slot it held is free.
pub proof fn law_cleanup_on_disconnect(server: ServerView, addr: PeerAddr)
    requires
        server.wf(),
        server.connected(addr),
    ensures
        ({
            let after = server.step(addr, EventView::Closed).0;
            &&& after.wf()
            &&& !after.connected(addr)
            &&& !after.serving(addr)
            &&& !after.member_somewhere(addr)
            &&& after.slots.held == server.slots.held - 1
            &&& after.slots.available()
        }),
{
    lemma_without_wf(server, addr);
    let after = server.step(addr, EventView::Closed).0;
    assert(!after.serving(addr)) by {
        if after.serving(addr) {
            assert(after.connected(addr));
        }
    }
}

/// A connection that ends before it has authorized was never a member of a
/// channel, and leaves the channels as they were for everybody else.
pub proof fn law_unauthorized_leaves_no_trace(server: ServerView, addr: PeerAddr, c: int)
    requires
        server.wf(),
        server.connected(addr),
        !server.serving(addr),
        0 <= c < server.channels.channels.len(),
    ensures
        !server.channels.channels[c].peers.contains(addr),
        server.step(addr, EventView::Closed).0.channels.channels[c] == server.channels.channels[c],
        server.step(addr, EventView::Malformed).0.channels.channels[c]
            == server.channels.channels[c],
{
    let members = server.channels.channels[c].peers;
    lemma_keep_all(members, addr);
}

/// Leaving out a peer that is not there changes nothing.
pub proof fn lemma_keep_all(peers: Seq<PeerAddr>, absent: PeerAddr)
    requires
        !peers.contains(absent),
    ensures
        others(peers, absent) == peers,
    decreases peers.len(),
{
    reveal(Seq::filter);
    if peers.len() > 0 {
        let rest = peers.drop_last();
        assert(!rest.contains(absent)) by {
            if rest.contains(absent) {
                let i = choose|i: int| 0 <= i < rest.len() && rest[i] == absent;
                assert(peers[i] == absent);
            }
        }
        assert(peers.last() != absent) by {
            assert(peers[peers.len() - 1] == peers.last());
        }
        lemma_keep_all(rest, absent);
        assert(rest.push(peers.last()) =~= peers);
    } else {
        assert(others(peers, absent) =~= peers);
    }
}

/// Histories only grow and channels stay: whatever happens, every channel is
/// still there under its name, at its place, and what was in its history is
/// still there, in the same order, before anything new.
pub proof fn law_history_append_only(server: ServerView, addr: PeerAddr, event: EventView, c: int)
    requires
        server.wf(),
        0 <= c < server.channels.channels.len(),
    ensures
        ({
            let after = server.step(addr, event).0;
            &&& c < after.channels.channels.len()
            &&& after.channels.channels[c].name == server.channels.channels[c].name
            &&& server.channels.channels[c].messages.is_prefix_of(
                after.channels.channels[c].messages,
            )
        }),
{
    let after = server.step(addr, event).0;
    let old_messages = server.channels.channels[c].messages;
    assert(old_messages.is_prefix_of(old_messages));
    assert(old_messages.is_prefix_of(after.channels.channels[c].messages)) by {
        let new_messages = after.channels.channels[c].messages;
        if new_messages != old_messages {
            assert(new_messages.len() >= old_messages.len());
            assert(new_messages.subrange(0, old_messages.len() as int) =~= old_messages);
        }
    }
}

/// A peer that has joined a channel before a broadcast in it is sent the
/// frame, once; a peer that has left every channel before a broadcast is not.
pub proof fn law_membership_decides_delivery(
    registry: RegistryView,
    name: Seq<char>,
    peer: PeerAddr,
    sender: PeerAddr,
    frame: FrameView,
)
    requires
        registry.wf(),
        registry.holds(name),
        peer != sender,
    ensures
        delivered(registry.join(name, peer).broadcast(name, sender, frame), peer) == seq![frame],
        delivered(registry.join_all(peer).broadcast(name, sender, frame), peer) == seq![frame],
        delivered(registry.leave_all(peer).broadcast(name, sender, frame), peer) == Seq::<
            FrameView,
        >::empty(),
{
    let at = registry.position(name);
    let channel = registry.channels[at];
    lemma_registry_wf(registry, peer, name, arbitrary(), arbitrary());
    lemma_membership_wf(channel, peer);

    let joined = registry.join(name, peer);
    assert(joined.channels[at].name == name);
    lemma_position(joined, name, at);
    lemma_fan_out_delivered(channel.join(peer).peers, sender, frame, peer);

    let joined_all = registry.join_all(peer);
    assert(joined_all.channels[at].name == name);
    lemma_position(joined_all, name, at);

    let left = registry.leave_all(peer);
    assert(left.channels[at].name == name);
    lemma_position(left, name, at);
    lemma_fan_out_delivered(channel.leave(peer).peers, sender, frame, peer);
}

/// Whatever happens on one connection, every other connection stands where it
/// stood, under the same user, and is a member of the same channels among
/// those that there were.
pub proof fn law_fault_isolation(
    server: ServerView,
    addr: PeerAddr,
    event: EventView,
    other: PeerAddr,
    c: int,
)
    requires
        server.wf(),
        other != addr,
        0 <= c < server.channels.channels.len(),
    ensures
        ({
            let after = server.step(addr, event).0;
            &&& after.connected(other) == server.connected(other)
            &&& after.serving(other) == server.serving(other)
            &&& server.connected(other) ==> after.peers[after.index_of(other)]
                == server.peers[server.index_of(other)]
            &&& c < after.channels.channels.len()
            &&& after.channels.channels[c].peers.contains(other)
                == server.channels.channels[c].peers.contains(other)
        }),
{
    let after = server.step(addr, event).0;
    law_step_keeps_wf(server, addr, event);
    // the channels: only `addr` joins or leaves
    let before_members = server.channels.channels[c].peers;
    let after_members = after.channels.channels[c].peers;
    lemma_others_contains(before_members, addr, other);
    if after_members == before_members.push(addr) {
        if after_members.contains(other) {
            let k = choose|k: int| 0 <= k < after_members.len() && after_members[k] == other;
            assert(before_members[k] == other);
        }
        if before_members.contains(other) {
            let k = choose|k: int| 0 <= k < before_members.len() && before_members[k] == other;
            assert(after_members[k] == other);
        }
    }
    // the records: only that of `addr` is added, changed or removed
    if server.connected(other) {
        let at = server.index_of(other);
        if after.peers == server.peers {
        } else if after.peers.len() == server.peers.len() + 1 {
            assert(after.peers[at] == server.peers[at]);
            lemma_index_of(after, other, at);
        } else if after.peers.len() == server.peers.len() {
            assert(after.peers[at] == server.peers[at]);
            lemma_index_of(after, other, at);
        } else {
            let gone = server.index_of(addr);
            let now = if at < gone { at } else { at - 1 };
            assert(after.peers[now] == server.peers[at]);
            lemma_index_of(after, other, now);
        }
        lemma_index_of(server, other, at);
    } else {
        if after.connected(other) {
            let k = after.index_of(other);
            if after.peers == server.peers {
            } else if after.peers.len() == server.peers.len() + 1 {
                if k < server.peers.len() {
                    assert(server.peers[k].addr == other);
                }
            } else if after.peers.len() == server.peers.len() {
                assert(server.peers[k].addr == other);
            } else {
                let gone = server.index_of(addr);
                let was = if k < gone { k } else { k + 1 };
                assert(server.peers[was].addr == other);
            }
        }
        assert(!server.serving(other)) by {
            if server.serving(other) {
                assert(server.connected(other));
            }
        }
        assert(!after.serving(other)) by {
            if after.serving(other) {
                assert(after.connected(other));
            }
        }
    }
}

/// A channel name is given once: a second request under a name changes
/// nothing, whatever else it asks for.
pub proof fn law_channel_is_created_once(
    registry: RegistryView,
    first: ChannelView,
    second: ChannelView,
)
    requires
        registry.wf(),
        second.name == first.name,
    ensures
        registry.create(first).holds(first.name),
        registry.create(first).create(second) == registry.create(first),
{
    let created = registry.create(first);
    if !registry.holds(first.name) {
        assert(created.channels[registry.channels.len() as int].name == first.name);
    }
}

/// Joining is done once: a member that joins again changes nothing.
pub proof fn law_joining_twice_is_joining_once(
    registry: RegistryView,
    name: Seq<char>,
    peer: PeerAddr,
)
    requires
        registry.wf(),
    ensures
        registry.join_all(peer).join_all(peer) == registry.join_all(peer),
        registry.join(name, peer).join(name, peer) == registry.join(name, peer),
{
    let once = registry.join_all(peer);
    assert forall|c: int| 0 <= c < registry.channels.len() implies (
    #[trigger] registry.channels[c]).join(peer).join(peer) == registry.channels[c].join(peer) by {
        lemma_membership_wf(registry.channels[c], peer);
    }
    assert(once.join_all(peer).channels =~= once.channels);
    if registry.holds(name) {
        let at = registry.position(name);
        let joined = registry.join(name, peer);
        lemma_registry_wf(registry, peer, name, arbitrary(), arbitrary());
        lemma_membership_wf(registry.channels[at], peer);
        assert(joined.channels[at].name == name);
        lemma_position(joined, name, at);
        assert(joined.join(name, peer).channels =~= joined.channels);
    }
}

/// A peer is served under the user it authorized as, for as long as it is
/// served: no frame changes who it is.
pub proof fn law_user_is_kept(server: ServerView, peer: PeerAddr, addr: PeerAddr, event: EventView)
    requires
        server.wf(),
        server.serving(peer),
    ensures
        ({
            let after = server.step(addr, event).0;
            after.serving(peer) ==> after.peers[after.index_of(peer)]
                == server.peers[server.index_of(peer)]
        }),
{
    let after = server.step(addr, event).0;
    assert(server.connected(peer));
    if peer != addr {
        law_fault_isolation(server, addr, event, peer, 0);
    } else if after.serving(peer) {
        law_step_keeps_wf(server, addr, event);
        lemma_without_wf(server, addr);
        assert(after.connected(peer));
        assert(after.peers == server.peers);
    }
}

/// A session that the server ends is gone: after an event other than the
/// acceptance of a connection, a connection that is over has no record and
/// holds no slot.
pub proof fn law_over_means_gone(server: ServerView, addr: PeerAddr, event: EventView)
    requires
        server.wf(),
        !(event is Accepted),
    ensures
        ({
            let (after, outcome) = server.step(addr, event);
            outcome.close <==> !after.connected(addr)
        }),
{
    let (after, outcome) = server.step(addr, event);
    lemma_without_wf(server, addr);
    if server.serving(addr) {
        assert(server.connected(addr));
        match event {
            EventView::Closed => {},
            _ => {
                assert(after.peers == server.peers);
            },
        }
    } else if server.connected(addr) {
        match event {
            EventView::Frame(FrameView::Authorize(user)) => {
                lemma_authorize_wf(server, addr, user);
                assert(after.connected(addr));
            },
            _ => {},
        }
    }
}

} // verus!
