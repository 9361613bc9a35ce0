use chat::addr::PeerAddr;
use chat::admission::{Admission, MAX_CONNECTIONS};
use chat::codec::encode_frame;
use chat::frame::{Channel, Frame, Message, User};
use chat::registry::{ChannelError, Delivery, Registry, Shared};
use chat::server::{Event, Outcome, Phase, Server};
use chat::time::Timestamp;

const COVER: &str = "https://cdn-icons-png.flaticon.com/512/134/134932.png";

fn addr(n: u16) -> PeerAddr {
    PeerAddr { ip: 0x7f00_0001, port: 40_000 + n }
}

fn user(name: &str) -> User {
    User { username: name.to_string(), color: None, avatar: None }
}

fn message(from: &str, channel: &str, body: &str) -> Message {
    Message {
        from: user(from),
        channel: channel.to_string(),
        body: body.to_string(),
        created: Timestamp::parse("2023-03-01T12:00:00Z").unwrap(),
    }
}

fn listed(name: &str, messages: Vec<Message>) -> Channel {
    Channel { name: name.to_string(), messages, cover: Some(COVER.to_string()) }
}

fn nothing() -> Outcome {
    Outcome { reply: vec![], relay: vec![], close: false }
}

fn hang_up() -> Outcome {
    Outcome { reply: vec![], relay: vec![], close: true }
}

fn refusal(reason: &str) -> Outcome {
    Outcome { reply: vec![Frame::Error(reason.to_string())], relay: vec![], close: true }
}

fn to(peer: PeerAddr, frame: &Frame) -> Delivery {
    Delivery { to: peer, frame: frame.clone() }
}

/// Connects and authorizes `peer` under `name`.
fn join(server: &mut Server, peer: PeerAddr, name: &str) -> Outcome {
    assert_eq!(server.process(peer, Event::Accepted), nothing());
    server.process(peer, Event::Frame(Frame::Authorize(user(name))))
}

fn members(server: &Server, channel: &str) -> Vec<PeerAddr> {
    server.channels().get(&channel.to_string()).unwrap().peers().clone()
}

fn history(server: &Server, channel: &str) -> Vec<Message> {
    server.channels().get(&channel.to_string()).unwrap().messages().clone()
}

#[test]
fn server_starts_with_two_channels_and_no_connections() {
    let server = Server::new();
    assert_eq!(server.capacity(), 64);
    assert_eq!(MAX_CONNECTIONS, 64);
    assert_eq!(server.connections(), 0);
    assert_eq!(server.channels().len(), 2);
    assert_eq!(
        server.channels().listing(),
        vec![listed("default", vec![]), listed("another", vec![])]
    );
    assert!(members(&server, "default").is_empty());
    assert!(members(&server, "another").is_empty());
}

#[test]
fn scenario_with_two_slots() {
    let (x, y, z) = (addr(1), addr(2), addr(3));
    let mut server = Server::with_capacity(2);
    let channels = vec![listed("default", vec![]), listed("another", vec![])];

    let outcome = join(&mut server, x, "alice");
    assert_eq!(
        outcome,
        Outcome { reply: vec![Frame::Bulk(vec![], channels.clone())], relay: vec![], close: false }
    );
    let outcome = join(&mut server, y, "bob");
    assert_eq!(
        outcome,
        Outcome { reply: vec![Frame::Bulk(vec![], channels)], relay: vec![], close: false }
    );

    assert_eq!(server.process(z, Event::Accepted), refusal("Max connections reached"));
    assert_eq!(server.connections(), 2);
    assert_eq!(server.phase(z), Phase::Closed);

    let hi = Frame::Message(message("alice", "default", "hi"));
    let outcome = server.process(x, Event::Frame(hi.clone()));
    assert_eq!(outcome.reply, vec![hi.clone()]);
    assert_eq!(outcome.relay, vec![to(y, &hi)]);
    assert!(!outcome.close);
    match &outcome.relay[0].frame {
        Frame::Message(received) => assert_eq!(received.body, "hi"),
        other => panic!("{:?}", other),
    }
    assert!(outcome.relay.iter().all(|delivery| delivery.to != x));
}

#[test]
fn full_server_refuses_and_stays_as_it_was() {
    let mut server = Server::with_capacity(3);
    for n in 0..3 {
        join(&mut server, addr(n), "peer");
    }
    let before = server.channels().listing();
    for n in 3..6 {
        assert_eq!(server.process(addr(n), Event::Accepted), refusal("Max connections reached"));
        assert_eq!(server.connections(), 3);
        assert_eq!(server.phase(addr(n)), Phase::Closed);
    }
    assert_eq!(server.channels().listing(), before);
    assert_eq!(members(&server, "default"), vec![addr(0), addr(1), addr(2)]);
}

#[test]
fn a_slot_that_is_freed_is_taken_at_once() {
    let mut server = Server::with_capacity(2);
    join(&mut server, addr(1), "alice");
    join(&mut server, addr(2), "bob");
    assert_eq!(server.process(addr(3), Event::Accepted), refusal("Max connections reached"));
    assert_eq!(server.process(addr(1), Event::Closed), hang_up());
    assert_eq!(server.connections(), 1);
    assert_eq!(server.process(addr(3), Event::Accepted), nothing());
    assert_eq!(server.connections(), 2);
    assert_eq!(server.phase(addr(3)), Phase::Authorizing);
    assert_eq!(server.process(addr(4), Event::Accepted), refusal("Max connections reached"));
}

#[test]
fn server_without_slots_refuses_everybody() {
    let mut server = Server::with_capacity(0);
    assert_eq!(server.process(addr(1), Event::Accepted), refusal("Max connections reached"));
    assert_eq!(server.connections(), 0);
}

#[test]
fn an_address_is_served_once() {
    let mut server = Server::with_capacity(4);
    join(&mut server, addr(1), "alice");
    assert_eq!(server.process(addr(1), Event::Accepted), refusal("Already connected"));
    assert_eq!(server.connections(), 1);
    assert_eq!(server.phase(addr(1)), Phase::Serving);
    assert_eq!(members(&server, "default"), vec![addr(1)]);
}

#[test]
fn broadcast_reaches_every_member_but_the_sender() {
    let (a, b, c) = (addr(1), addr(2), addr(3));
    let mut server = Server::new();
    join(&mut server, a, "a");
    join(&mut server, b, "b");
    join(&mut server, c, "c");
    let frame = Frame::Message(message("a", "default", "hello"));
    let outcome = server.process(a, Event::Frame(frame.clone()));
    assert_eq!(
        outcome,
        Outcome { reply: vec![frame.clone()], relay: vec![to(b, &frame), to(c, &frame)], close: false }
    );
    let frame = Frame::Message(message("b", "another", "hello"));
    let outcome = server.process(b, Event::Frame(frame.clone()));
    assert_eq!(
        outcome,
        Outcome { reply: vec![frame.clone()], relay: vec![to(a, &frame), to(c, &frame)], close: false }
    );
}

#[test]
fn messages_arrive_in_the_order_sent() {
    let (a, b) = (addr(1), addr(2));
    let mut server = Server::new();
    join(&mut server, a, "a");
    join(&mut server, b, "b");
    let first = message("a", "default", "m1");
    let second = message("a", "default", "m2");
    let mut queue_of_b = vec![];
    for sent in [&first, &second] {
        let outcome = server.process(a, Event::Frame(Frame::Message(sent.clone())));
        for delivery in outcome.relay {
            assert_eq!(delivery.to, b);
            queue_of_b.push(delivery.frame);
        }
    }
    assert_eq!(queue_of_b, vec![Frame::Message(first.clone()), Frame::Message(second.clone())]);
    assert_eq!(history(&server, "default"), vec![first, second]);
    assert!(history(&server, "another").is_empty());
}

#[test]
fn a_channel_keeps_to_its_members() {
    let (a, b, c) = (addr(1), addr(2), addr(3));
    let mut registry = Registry::new();
    for name in ["room1", "room2"] {
        let asked = Channel { name: name.to_string(), messages: vec![], cover: None };
        assert_eq!(registry.create_channel(&asked), Ok(()));
    }
    let (room1, room2) = ("room1".to_string(), "room2".to_string());
    registry.register_peer(Some(&room1), a);
    registry.register_peer(Some(&room1), b);
    registry.register_peer(Some(&room2), c);
    assert_eq!(registry.get(&room1).unwrap().peers(), &vec![a, b]);
    assert_eq!(registry.get(&room2).unwrap().peers(), &vec![c]);

    let frame = Frame::Message(message("a", "room1", "psst"));
    assert_eq!(registry.broadcast(&room1, a, &frame), Ok(vec![to(b, &frame)]));
    assert_eq!(registry.broadcast(&room2, a, &frame), Ok(vec![to(c, &frame)]));
    assert_eq!(registry.broadcast(&room2, c, &frame), Ok(vec![]));
    assert_eq!(
        registry.broadcast(&"room3".to_string(), a, &frame),
        Err(ChannelError::NotFound)
    );
}

#[test]
fn registering_twice_is_registering_once() {
    let mut registry = Registry::new();
    let default = "default".to_string();
    registry.register_peer(None, addr(1));
    registry.register_peer(None, addr(1));
    registry.register_peer(Some(&default), addr(1));
    registry.register_peer(Some(&"nowhere".to_string()), addr(2));
    assert_eq!(registry.get(&default).unwrap().peers(), &vec![addr(1)]);
    registry.remove_peer(addr(1));
    assert!(registry.get(&default).unwrap().peers().is_empty());
}

#[test]
fn disconnect_leaves_no_trace() {
    let (a, b) = (addr(1), addr(2));
    let mut server = Server::with_capacity(2);
    join(&mut server, a, "a");
    join(&mut server, b, "b");
    assert_eq!(members(&server, "default"), vec![a, b]);
    assert_eq!(members(&server, "another"), vec![a, b]);

    assert_eq!(server.process(a, Event::Closed), hang_up());
    assert_eq!(members(&server, "default"), vec![b]);
    assert_eq!(members(&server, "another"), vec![b]);
    assert_eq!(server.phase(a), Phase::Closed);
    assert!(server.user(a).is_none());
    assert_eq!(server.connections(), 1);

    let frame = Frame::Message(message("b", "default", "anyone?"));
    let outcome = server.process(b, Event::Frame(frame.clone()));
    assert_eq!(outcome, Outcome { reply: vec![frame], relay: vec![], close: false });

    assert_eq!(server.process(a, Event::Closed), hang_up());
    assert_eq!(server.connections(), 1);
}

#[test]
fn first_frame_must_name_the_user() {
    let mut server = Server::with_capacity(1);
    assert_eq!(server.process(addr(1), Event::Accepted), nothing());
    assert_eq!(server.phase(addr(1)), Phase::Authorizing);
    let early = Frame::Message(message("a", "default", "too early"));
    assert_eq!(server.process(addr(1), Event::Frame(early)), hang_up());
    assert_eq!(server.phase(addr(1)), Phase::Closed);
    assert_eq!(server.connections(), 0);
    assert!(members(&server, "default").is_empty());
    assert!(history(&server, "default").is_empty());
    assert_eq!(server.process(addr(2), Event::Accepted), nothing());
}

#[test]
fn end_of_stream_before_authorizing_frees_the_slot() {
    let mut server = Server::with_capacity(1);
    assert_eq!(server.process(addr(1), Event::Accepted), nothing());
    assert_eq!(server.process(addr(1), Event::Closed), hang_up());
    assert_eq!(server.connections(), 0);
    assert!(members(&server, "default").is_empty());
}

#[test]
fn bytes_that_are_no_frame() {
    let mut server = Server::with_capacity(2);
    join(&mut server, addr(1), "a");
    assert_eq!(server.process(addr(1), Event::Malformed), nothing());
    assert_eq!(server.receive(addr(1), &[9, 9, 9, 9]), nothing());
    assert_eq!(server.receive(addr(1), &[2, 0]), nothing());
    assert_eq!(server.phase(addr(1)), Phase::Serving);

    assert_eq!(server.process(addr(2), Event::Accepted), nothing());
    assert_eq!(server.receive(addr(2), &[9, 9, 9, 9]), hang_up());
    assert_eq!(server.phase(addr(2)), Phase::Closed);
    assert_eq!(server.connections(), 1);
}

#[test]
fn bytes_that_are_a_frame() {
    let (a, b) = (addr(1), addr(2));
    let mut server = Server::with_capacity(2);
    assert_eq!(server.process(a, Event::Accepted), nothing());
    let outcome = server.receive(a, &encode_frame(&Frame::Authorize(user("a"))));
    assert_eq!(outcome.reply.len(), 1);
    assert_eq!(server.phase(a), Phase::Serving);
    assert_eq!(server.user(a), Some(&user("a")));
    join(&mut server, b, "b");

    let frame = Frame::Message(message("a", "default", "hi"));
    let mut bytes = encode_frame(&frame);
    bytes.extend_from_slice(&[1, 2, 3]);
    let outcome = server.receive(a, &bytes);
    assert_eq!(outcome, Outcome { reply: vec![frame.clone()], relay: vec![to(b, &frame)], close: false });
    assert_eq!(Event::from_bytes(&bytes), Event::Frame(frame));
    assert_eq!(Event::from_bytes(&[]), Event::Malformed);
}

#[test]
fn events_of_an_unknown_connection_change_nothing() {
    let mut server = Server::new();
    join(&mut server, addr(1), "a");
    let frame = Frame::Message(message("x", "default", "hi"));
    assert_eq!(server.process(addr(9), Event::Frame(frame)), hang_up());
    assert_eq!(server.process(addr(9), Event::Malformed), hang_up());
    assert_eq!(server.process(addr(9), Event::Closed), hang_up());
    assert_eq!(server.connections(), 1);
    assert!(history(&server, "default").is_empty());
}

#[test]
fn message_to_a_channel_that_does_not_exist() {
    let (a, b) = (addr(1), addr(2));
    let mut server = Server::new();
    join(&mut server, a, "a");
    join(&mut server, b, "b");
    let frame = Frame::Message(message("a", "nowhere", "hi"));
    assert_eq!(
        server.process(a, Event::Frame(frame)),
        Outcome {
            reply: vec![Frame::Error("Channel not found".to_string())],
            relay: vec![],
            close: false,
        }
    );
    assert!(history(&server, "default").is_empty());
    assert_eq!(server.channels().len(), 2);
    assert_eq!(server.phase(a), Phase::Serving);
}

#[test]
fn creating_a_channel_tells_the_directory() {
    let (a, b, c) = (addr(1), addr(2), addr(3));
    let mut server = Server::new();
    join(&mut server, a, "a");
    join(&mut server, b, "b");
    let said = message("a", "default", "before");
    server.process(a, Event::Frame(Frame::Message(said.clone())));

    let asked = Channel {
        name: "room1".to_string(),
        messages: vec![message("a", "room1", "made up")],
        cover: None,
    };
    let outcome = server.process(b, Event::Frame(Frame::Channel(asked)));
    let list = Frame::Bulk(
        vec![],
        vec![
            listed("default", vec![said]),
            listed("another", vec![]),
            Channel { name: "room1".to_string(), messages: vec![], cover: None },
        ],
    );
    assert_eq!(outcome, Outcome { reply: vec![list.clone()], relay: vec![to(a, &list)], close: false });
    assert_eq!(members(&server, "room1"), vec![a, b]);

    join(&mut server, c, "c");
    assert_eq!(members(&server, "room1"), vec![a, b, c]);
    let frame = Frame::Message(message("c", "room1", "hi"));
    let outcome = server.process(c, Event::Frame(frame.clone()));
    assert_eq!(outcome.relay, vec![to(a, &frame), to(b, &frame)]);
}

#[test]
fn a_channel_name_is_given_once() {
    let mut server = Server::new();
    join(&mut server, addr(1), "a");
    join(&mut server, addr(2), "b");
    for name in ["default", "another"] {
        let asked = Channel { name: name.to_string(), messages: vec![], cover: None };
        assert_eq!(
            server.process(addr(1), Event::Frame(Frame::Channel(asked))),
            Outcome {
                reply: vec![Frame::Error("Channel already exists".to_string())],
                relay: vec![],
                close: false,
            }
        );
    }
    assert_eq!(server.channels().len(), 2);
    assert_eq!(
        server.channels().listing(),
        vec![listed("default", vec![]), listed("another", vec![])]
    );
    let mut registry = Registry::new();
    let asked = Channel { name: "default".to_string(), messages: vec![], cover: None };
    assert_eq!(registry.create_channel(&asked), Err(ChannelError::AlreadyExists));
}

#[test]
fn other_frames_are_passed_over() {
    let mut server = Server::new();
    join(&mut server, addr(1), "a");
    join(&mut server, addr(2), "b");
    let passed_over = vec![
        Frame::Authorize(user("again")),
        Frame::Connect(vec![]),
        Frame::Bulk(vec![], vec![]),
        Frame::Okay,
        Frame::Error("oops".to_string()),
        Frame::Disconnect(user("a")),
    ];
    for frame in passed_over {
        assert_eq!(server.process(addr(1), Event::Frame(frame)), nothing());
    }
    assert_eq!(server.user(addr(1)), Some(&user("a")));
    assert_eq!(server.connections(), 2);
}

#[test]
fn history_is_sent_to_who_authorizes_later() {
    let mut server = Server::new();
    join(&mut server, addr(1), "a");
    let first = message("a", "default", "one");
    let second = message("a", "another", "two");
    server.process(addr(1), Event::Frame(Frame::Message(first.clone())));
    server.process(addr(1), Event::Frame(Frame::Message(second.clone())));
    let outcome = join(&mut server, addr(2), "b");
    assert_eq!(
        outcome.reply,
        vec![Frame::Bulk(
            vec![],
            vec![listed("default", vec![first]), listed("another", vec![second])]
        )]
    );
    assert_eq!(server.channels().snapshot(), outcome.reply[0]);
}

#[test]
fn channel_state_by_hand() {
    let mut channel = Shared::new("room".to_string(), None);
    assert_eq!(channel.name(), "room");
    assert_eq!(channel.cover(), &None);
    assert!(channel.peers().is_empty());
    channel.join(addr(1));
    channel.join(addr(2));
    channel.join(addr(1));
    assert_eq!(channel.peers(), &vec![addr(1), addr(2)]);
    let said = message("a", "room", "hi");
    channel.record(said.clone());
    assert_eq!(channel.messages(), &vec![said.clone()]);
    assert_eq!(
        channel.listing(),
        Channel { name: "room".to_string(), messages: vec![said], cover: None }
    );
    assert_eq!(channel.broadcast(addr(2), &Frame::Okay), vec![to(addr(1), &Frame::Okay)]);
    assert_eq!(
        channel.broadcast(addr(3), &Frame::Okay),
        vec![to(addr(1), &Frame::Okay), to(addr(2), &Frame::Okay)]
    );
    channel.leave(addr(1));
    channel.leave(addr(7));
    assert_eq!(channel.peers(), &vec![addr(2)]);
    assert_eq!(channel.broadcast(addr(2), &Frame::Okay), vec![]);
}

#[test]
fn channel_with_given_members_has_each_once() {
    let peers = vec![addr(1), addr(2), addr(1), addr(3), addr(2)];
    let channel = Shared::with_peers("room".to_string(), Some("c".to_string()), peers);
    assert_eq!(channel.peers(), &vec![addr(1), addr(2), addr(3)]);
    assert_eq!(channel.cover(), &Some("c".to_string()));
    assert!(channel.messages().is_empty());
}

#[test]
fn pool_of_slots() {
    let mut pool = Admission::new(2);
    assert_eq!((pool.capacity(), pool.held()), (2, 0));
    let first = pool.try_acquire().unwrap();
    let second = pool.try_acquire().unwrap();
    assert_eq!(pool.held(), 2);
    assert!(pool.try_acquire().is_none());
    assert!(pool.try_acquire().is_none());
    assert_eq!(pool.held(), 2);
    pool.release(first);
    assert_eq!(pool.held(), 1);
    let third = pool.try_acquire().unwrap();
    assert_eq!(pool.held(), 2);
    pool.release(second);
    pool.release(third);
    assert_eq!(pool.held(), 0);
}

#[test]
fn record_of_a_connection() {
    let mut pool = Admission::new(1);
    let ticket = pool.try_acquire().unwrap();
    let peer = chat::server::Peer::new(addr(5), ticket);
    assert_eq!(peer.addr(), addr(5));
    assert_eq!(peer.user(), &None);
}

#[test]
fn registry_by_hand() {
    let mut registry = Registry::new();
    assert_eq!(registry.len(), 1);
    assert_eq!(registry.find(&"default".to_string()), Some(0));
    assert_eq!(registry.find(&"another".to_string()), None);
    assert!(registry.get(&"another".to_string()).is_none());
    assert_eq!(registry.snapshot(), Frame::Bulk(vec![], vec![listed("default", vec![])]));

    registry.register_peer(None, addr(1));
    registry.register_peer(None, addr(2));
    let asked = Channel { name: "room".to_string(), messages: vec![], cover: None };
    assert_eq!(registry.create_channel(&asked), Ok(()));
    assert_eq!(registry.find(&"room".to_string()), Some(1));
    assert_eq!(registry.get(&"room".to_string()).unwrap().peers(), &vec![addr(1), addr(2)]);
    assert_eq!(
        registry.notify_directory(addr(1), &Frame::Okay),
        vec![to(addr(2), &Frame::Okay)]
    );

    let said = message("a", "room", "hi");
    assert_eq!(registry.append_message(said.clone()), Ok(()));
    assert_eq!(registry.append_message(message("a", "nowhere", "hi")), Err(ChannelError::NotFound));
    assert_eq!(registry.get(&"room".to_string()).unwrap().messages(), &vec![said]);
    assert!(registry.get(&"default".to_string()).unwrap().messages().is_empty());
}
