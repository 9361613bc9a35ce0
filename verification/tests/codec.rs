use bytes::{Bytes, BytesMut};
use chat::buffer::ChatCodec;
use chat::codec::{decode_frame, encode_frame};
use chat::errors::{ConnectionError, ProtocolError};
use chat::frame::{Channel, Frame, Message, User};
use chat::server::Event;
use chat::time::Timestamp;

fn alice() -> User {
    User { username: "alice".to_string(), color: Some("red".to_string()), avatar: None }
}

fn bob() -> User {
    User {
        username: "bób".to_string(),
        color: None,
        avatar: Some("https://example.org/b.png".to_string()),
    }
}

fn stamp(text: &str) -> Timestamp {
    Timestamp::parse(text).unwrap()
}

fn hello() -> Message {
    Message {
        from: alice(),
        channel: "default".to_string(),
        body: "hi".to_string(),
        created: stamp("2023-03-01T12:34:56.789Z"),
    }
}

fn reply() -> Message {
    Message {
        from: bob(),
        channel: "another".to_string(),
        body: "grüß dich".to_string(),
        created: stamp("2023-03-01T12:35:00Z"),
    }
}

fn room() -> Channel {
    Channel {
        name: "room1".to_string(),
        messages: vec![hello(), reply()],
        cover: Some("https://example.org/c.png".to_string()),
    }
}

fn every_kind() -> Vec<Frame> {
    vec![
        Frame::Authorize(alice()),
        Frame::Connect(vec![room(), Channel { name: String::new(), messages: vec![], cover: None }]),
        Frame::Message(hello()),
        Frame::Bulk(vec![hello(), reply()], vec![room()]),
        Frame::Bulk(vec![], vec![]),
        Frame::Channel(room()),
        Frame::Okay,
        Frame::Error("Max connections reached".to_string()),
        Frame::Disconnect(bob()),
    ]
}

#[test]
fn round_trip_of_every_kind_of_frame() {
    for frame in every_kind() {
        let bytes = encode_frame(&frame);
        let (back, len) = decode_frame(&bytes).unwrap().unwrap();
        assert_eq!(back, frame);
        assert_eq!(len, bytes.len());
    }
}

#[test]
fn round_trip_passes_over_what_follows() {
    for frame in every_kind() {
        let mut bytes = encode_frame(&frame);
        let len = bytes.len();
        bytes.extend_from_slice(&[0xff, 0x00, 0x07]);
        let (back, taken) = decode_frame(&bytes).unwrap().unwrap();
        assert_eq!(back, frame);
        assert_eq!(taken, len);
    }
}

#[test]
fn round_trip_through_bytes() {
    for frame in every_kind() {
        let bytes: Bytes = frame.clone().try_into().unwrap();
        assert_eq!(bytes.as_ref(), encode_frame(&frame).as_slice());
        assert_eq!(Frame::try_from(bytes), Ok(frame));
    }
}

#[test]
fn acknowledgement_is_its_variant_number() {
    assert_eq!(encode_frame(&Frame::Okay), vec![5, 0, 0, 0]);
}

#[test]
fn error_is_variant_length_and_text() {
    assert_eq!(
        encode_frame(&Frame::Error("hi".to_string())),
        vec![6, 0, 0, 0, 2, 0, 0, 0, 0, 0, 0, 0, b'h', b'i']
    );
}

#[test]
fn user_is_name_and_optional_texts() {
    let user = User { username: "a".to_string(), color: Some("é".to_string()), avatar: None };
    assert_eq!(
        encode_frame(&Frame::Authorize(user)),
        vec![
            0, 0, 0, 0, // variant
            1, 0, 0, 0, 0, 0, 0, 0, b'a', // name
            1, 2, 0, 0, 0, 0, 0, 0, 0, 0xc3, 0xa9, // colour, two bytes in UTF-8
            0, // no picture
        ]
    );
}

#[test]
fn text_longer_than_a_byte_counts() {
    let body = "x".repeat(300);
    let bytes = encode_frame(&Frame::Error(body.clone()));
    assert_eq!(&bytes[..12], &[6, 0, 0, 0, 0x2c, 0x01, 0, 0, 0, 0, 0, 0]);
    assert_eq!(bytes.len(), 12 + 300);
    assert_eq!(decode_frame(&bytes), Ok(Some((Frame::Error(body), 312))));
}

#[test]
fn same_bytes_as_bincode_for_a_user() {
    let expected = bincode::serialize(&(
        0u32,
        ("alice".to_string(), Some("red".to_string()), None::<String>),
    ))
    .unwrap();
    assert_eq!(encode_frame(&Frame::Authorize(alice())), expected);
    let expected = bincode::serialize(&(
        7u32,
        ("bób".to_string(), None::<String>, Some("https://example.org/b.png".to_string())),
    ))
    .unwrap();
    assert_eq!(encode_frame(&Frame::Disconnect(bob())), expected);
}

type WireUser = (String, Option<String>, Option<String>);
type WireMessage = (WireUser, String, String, String);
type WireChannel = (String, Vec<WireMessage>, Option<String>);

fn wire_user(user: &User) -> WireUser {
    (user.username.clone(), user.color.clone(), user.avatar.clone())
}

fn wire_message(message: &Message) -> WireMessage {
    (
        wire_user(&message.from),
        message.channel.clone(),
        message.body.clone(),
        message.created.as_str().to_string(),
    )
}

fn wire_channel(channel: &Channel) -> WireChannel {
    (
        channel.name.clone(),
        channel.messages.iter().map(wire_message).collect(),
        channel.cover.clone(),
    )
}

#[test]
fn same_bytes_as_bincode_for_messages_and_channels() {
    let expected = bincode::serialize(&(2u32, wire_message(&hello()))).unwrap();
    assert_eq!(encode_frame(&Frame::Message(hello())), expected);

    let expected = bincode::serialize(&(4u32, wire_channel(&room()))).unwrap();
    assert_eq!(encode_frame(&Frame::Channel(room())), expected);

    let expected = bincode::serialize(&(1u32, vec![wire_channel(&room())])).unwrap();
    assert_eq!(encode_frame(&Frame::Connect(vec![room()])), expected);

    let expected = bincode::serialize(&(
        3u32,
        vec![wire_message(&hello()), wire_message(&reply())],
        vec![wire_channel(&room())],
    ))
    .unwrap();
    assert_eq!(encode_frame(&Frame::Bulk(vec![hello(), reply()], vec![room()])), expected);

    assert_eq!(encode_frame(&Frame::Okay), bincode::serialize(&5u32).unwrap());
    assert_eq!(
        encode_frame(&Frame::Error("no".to_string())),
        bincode::serialize(&(6u32, "no".to_string())).unwrap()
    );
}

#[test]
fn bincode_reads_what_was_written() {
    let bytes = encode_frame(&Frame::Bulk(vec![hello()], vec![room()]));
    let (variant, messages, channels): (u32, Vec<WireMessage>, Vec<WireChannel>) =
        bincode::deserialize(&bytes).unwrap();
    assert_eq!(variant, 3);
    assert_eq!(messages, vec![wire_message(&hello())]);
    assert_eq!(channels, vec![wire_channel(&room())]);
}

#[test]
fn timestamp_is_written_as_chrono_writes_it() {
    let instant: chrono::DateTime<chrono::Utc> = "2023-03-01T12:34:56.789Z".parse().unwrap();
    let text = instant.to_rfc3339_opts(chrono::SecondsFormat::AutoSi, true);
    assert_eq!(hello().created.as_str(), text);
}

#[test]
fn unknown_variant_is_no_frame() {
    assert_eq!(decode_frame(&[8, 0, 0, 0]), Err(ProtocolError::Decode));
    assert_eq!(decode_frame(&[0, 0, 0, 1, 0, 0]), Err(ProtocolError::Decode));
    assert_eq!(
        Frame::try_from(Bytes::from(vec![8u8, 0, 0, 0])),
        Err(ConnectionError::MessageParse)
    );
}

#[test]
fn optional_text_must_start_with_zero_or_one() {
    let mut bytes = encode_frame(&Frame::Authorize(alice()));
    let last = bytes.len() - 1;
    assert_eq!(bytes[last], 0);
    bytes[last] = 2;
    assert_eq!(decode_frame(&bytes), Err(ProtocolError::Decode));
}

#[test]
fn text_must_be_utf8() {
    let bytes = vec![6, 0, 0, 0, 2, 0, 0, 0, 0, 0, 0, 0, 0xc3, 0x28];
    assert_eq!(decode_frame(&bytes), Err(ProtocolError::Decode));
    let bytes = vec![6, 0, 0, 0, 1, 0, 0, 0, 0, 0, 0, 0, 0xff];
    assert_eq!(decode_frame(&bytes), Err(ProtocolError::Decode));
}

#[test]
fn timestamp_must_be_a_date_and_time() {
    let written = (2u32, (wire_user(&alice()), "default".to_string(), "hi".to_string(), "soon".to_string()));
    let bytes = bincode::serialize(&written).unwrap();
    assert_eq!(decode_frame(&bytes), Err(ProtocolError::Decode));
    assert_eq!(Frame::try_from(Bytes::from(bytes)), Err(ConnectionError::MessageParse));
}

#[test]
fn timestamp_is_kept_as_written() {
    let text = "2012-12-12 12:12:12+01:00";
    let written = (2u32, (wire_user(&alice()), "default".to_string(), "hi".to_string(), text.to_string()));
    let bytes = bincode::serialize(&written).unwrap();
    match decode_frame(&bytes) {
        Ok(Some((Frame::Message(message), _))) => assert_eq!(message.created.as_str(), text),
        other => panic!("{:?}", other),
    }
}

#[test]
fn every_proper_prefix_is_incomplete() {
    for frame in every_kind() {
        let bytes = encode_frame(&frame);
        for cut in 0..bytes.len() {
            assert_eq!(decode_frame(&bytes[..cut]), Ok(None), "{:?} cut at {}", frame, cut);
            assert_eq!(
                Frame::try_from(Bytes::copy_from_slice(&bytes[..cut])),
                Err(ConnectionError::MessageParse)
            );
        }
    }
}

#[test]
fn empty_input_is_incomplete() {
    assert_eq!(decode_frame(&[]), Ok(None));
}

#[test]
fn a_length_beyond_the_input_is_incomplete() {
    let bytes = vec![6, 0, 0, 0, 0xff, 0xff, 0xff, 0xff, 0xff, 0xff, 0xff, 0xff, b'a'];
    assert_eq!(decode_frame(&bytes), Ok(None));
    let bytes = vec![1, 0, 0, 0, 0xff, 0xff, 0xff, 0xff, 0xff, 0xff, 0xff, 0xff];
    assert_eq!(decode_frame(&bytes), Ok(None));
}

#[test]
fn codec_writes_frames_behind_one_another() {
    let mut codec = ChatCodec::new();
    let mut buffer = BytesMut::new();
    assert_eq!(codec.encode(Frame::Okay, &mut buffer), Ok(()));
    assert_eq!(codec.encode(Frame::Error("x".to_string()), &mut buffer), Ok(()));
    assert_eq!(&buffer[..], &[5, 0, 0, 0, 6, 0, 0, 0, 1, 0, 0, 0, 0, 0, 0, 0, b'x']);
}

#[test]
fn codec_reads_frames_one_at_a_time() {
    let mut codec = ChatCodec::new();
    let mut buffer = BytesMut::new();
    for frame in every_kind() {
        codec.encode(frame, &mut buffer).unwrap();
    }
    for frame in every_kind() {
        assert_eq!(codec.decode(&mut buffer), Ok(Some(frame)));
    }
    assert!(buffer.is_empty());
    assert_eq!(codec.decode(&mut buffer), Ok(None));
}

#[test]
fn codec_waits_for_the_rest_of_a_frame() {
    let mut codec = ChatCodec::new();
    let bytes = encode_frame(&Frame::Message(hello()));
    let mut buffer = BytesMut::new();
    for (i, byte) in bytes.iter().enumerate() {
        assert_eq!(codec.decode(&mut buffer), Ok(None));
        assert_eq!(buffer.len(), i);
        buffer.extend_from_slice(&[*byte]);
    }
    assert_eq!(codec.decode(&mut buffer), Ok(Some(Frame::Message(hello()))));
    assert!(buffer.is_empty());
}

#[test]
fn codec_leaves_the_start_of_the_next_frame() {
    let mut codec = ChatCodec::new();
    let mut buffer = BytesMut::new();
    codec.encode(Frame::Authorize(alice()), &mut buffer).unwrap();
    buffer.extend_from_slice(&[2, 0]);
    assert_eq!(codec.decode(&mut buffer), Ok(Some(Frame::Authorize(alice()))));
    assert_eq!(&buffer[..], &[2, 0]);
    assert_eq!(codec.decode(&mut buffer), Ok(None));
    assert_eq!(&buffer[..], &[2, 0]);
}

#[test]
fn codec_refuses_what_is_no_frame_and_keeps_it() {
    let mut codec = ChatCodec::new();
    let mut buffer = BytesMut::from(&[9u8, 0, 0, 0, 1][..]);
    assert_eq!(codec.decode(&mut buffer), Err(ProtocolError::Decode));
    assert_eq!(&buffer[..], &[9, 0, 0, 0, 1]);
}

#[test]
fn codec_tells_frames_from_what_is_no_frame() {
    let mut codec = ChatCodec::new();
    let mut buffer = BytesMut::new();
    assert_eq!(codec.next_event(&mut buffer), None);
    codec.encode(Frame::Message(hello()), &mut buffer).unwrap();
    buffer.extend_from_slice(&[5, 0]);
    assert_eq!(codec.next_event(&mut buffer), Some(Event::Frame(Frame::Message(hello()))));
    assert_eq!(codec.next_event(&mut buffer), None);
    assert_eq!(&buffer[..], &[5, 0]);
    buffer.extend_from_slice(&[0, 0, 77, 0, 0, 0, 1, 2, 3]);
    assert_eq!(codec.next_event(&mut buffer), Some(Event::Frame(Frame::Okay)));
    assert_eq!(codec.next_event(&mut buffer), Some(Event::Malformed));
    assert!(buffer.is_empty());
    assert_eq!(codec.next_event(&mut buffer), None);
}

#[test]
fn names_at_the_root_of_the_crate() {
    let frame: chat::Frame = chat::Frame::Okay;
    assert_eq!(chat::Event::from_bytes(&[5, 0, 0, 0]), chat::Event::Frame(frame));
    let mut server = chat::Server::new();
    let outcome = server.process(chat::PeerAddr { ip: 1, port: 2 }, chat::Event::Accepted);
    assert_eq!(outcome, chat::Outcome { reply: vec![], relay: vec![], close: false });
    assert_eq!(chat::ProtocolError::Decode.to_string(), "frame decode error");
    assert_eq!(chat::ConnectionError::Unauthorized.to_string(), "peer is not authorized");
    let decoded: chat::Result<Option<(chat::Frame, usize)>> = decode_frame(&[5, 0, 0, 0]);
    assert_eq!(decoded, Ok(Some((chat::Frame::Okay, 4))));
}

#[test]
fn message_of_a_frame() {
    assert_eq!(Message::try_from(Frame::Message(hello())), Ok(hello()));
    assert_eq!(Message::try_from(Frame::Okay), Err(ConnectionError::MessageParse));
    assert_eq!(Message::try_from(Frame::Authorize(alice())), Err(ConnectionError::MessageParse));
    assert_eq!(Frame::from(hello()), Frame::Message(hello()));
}

#[test]
fn new_message_is_stamped_and_read_back() {
    let message = Message::new(alice(), "default".to_string(), "now".to_string());
    assert_eq!(message.from, alice());
    assert_eq!(message.channel, "default");
    assert_eq!(message.body, "now");
    assert!(Timestamp::parse(message.created.as_str()).is_some());
    let frame = Frame::Message(message);
    let bytes = encode_frame(&frame);
    assert_eq!(decode_frame(&bytes), Ok(Some((frame.clone(), bytes.len()))));
}

#[test]
fn timestamp_is_read_from_a_date_and_time_only() {
    assert!(Timestamp::parse("2023-03-01T12:34:56Z").is_some());
    assert!(Timestamp::parse("2023-03-01T12:34:56.5+02:00").is_some());
    assert!(Timestamp::parse("").is_none());
    assert!(Timestamp::parse("yesterday").is_none());
    assert!(Timestamp::parse("2023-03-01").is_none());
    assert!(Timestamp::parse("2023-13-01T00:00:00Z").is_none());
    assert_eq!(Timestamp::parse("2023-03-01T12:34:56Z").unwrap().as_str(), "2023-03-01T12:34:56Z");
}

#[test]
fn errors_in_words() {
    assert_eq!(ProtocolError::Encode.to_string(), "frame encode error");
    assert_eq!(ProtocolError::Decode.to_string(), "frame decode error");
    assert_eq!(ProtocolError::Serialize.to_string(), "unable to serialize value");
    assert_eq!(ConnectionError::AlreadyInUse.to_string(), "unable listen to adderss");
    assert_eq!(ConnectionError::Parse(ProtocolError::Decode).to_string(), "frame parsing error");
    assert_eq!(ConnectionError::Unauthorized.to_string(), "peer is not authorized");
    assert_eq!(ConnectionError::MessageParse.to_string(), "mesage parsing error");
    assert_eq!(ConnectionError::TracingError.to_string(), "failed to establish tracing");
}
