use chat::cli::Cli;
use chat::client::{channel_request, cover_of, preview, shorten, shortens, Preview, Store};
use chat::frame::{Channel, Frame, Message, User};
use chat::time::Timestamp;

const COVER: &str = "https://cdn-icons-png.flaticon.com/512/134/134932.png";
const AVATAR: &str = "https://w7.pngwing.com/pngs/754/2/png-transparent-samsung-galaxy-a8-a8-user-login-telephone-avatar-pawn-blue-angle-sphere-thumbnail.png";

fn said(from: &str, channel: &str, body: &str, at: &str) -> Message {
    Message {
        from: User { username: from.to_string(), color: None, avatar: None },
        channel: channel.to_string(),
        body: body.to_string(),
        created: Timestamp::parse(at).unwrap(),
    }
}

fn channel(name: &str, messages: Vec<Message>) -> Channel {
    Channel { name: name.to_string(), messages, cover: None }
}

#[test]
fn login_names_the_user() {
    let mut store = Store::new();
    assert_eq!(store.user(), &None);
    let frame = store.login("alice".to_string(), "https://example.org/a.png".to_string());
    let alice = User {
        username: "alice".to_string(),
        color: None,
        avatar: Some("https://example.org/a.png".to_string()),
    };
    assert_eq!(frame, Frame::Authorize(alice.clone()));
    assert_eq!(store.user(), &Some(alice));
}

#[test]
fn login_without_picture_takes_the_default_one() {
    let mut store = Store::new();
    let frame = store.login("bob".to_string(), String::new());
    let bob = User { username: "bob".to_string(), color: None, avatar: Some(AVATAR.to_string()) };
    assert_eq!(frame, Frame::Authorize(bob));
}

#[test]
fn channel_request_takes_the_default_picture_when_given_none() {
    assert_eq!(
        channel_request("room".to_string(), String::new()),
        Frame::Channel(Channel {
            name: "room".to_string(),
            messages: vec![],
            cover: Some(COVER.to_string())
        })
    );
    assert_eq!(
        channel_request("room".to_string(), "c.png".to_string()),
        Frame::Channel(Channel {
            name: "room".to_string(),
            messages: vec![],
            cover: Some("c.png".to_string())
        })
    );
}

#[test]
fn store_keeps_what_it_is_told() {
    let mut store = Store::new();
    assert!(store.channels().is_empty());
    let first = said("a", "default", "one", "2023-03-01T10:00:00Z");
    assert!(store.apply(Frame::Bulk(
        vec![],
        vec![channel("default", vec![first.clone()]), channel("another", vec![])]
    )));
    assert_eq!(
        store.channels(),
        &vec![channel("default", vec![first.clone()]), channel("another", vec![])]
    );
    assert!(store.knows(&"default".to_string()));
    assert!(!store.knows(&"room".to_string()));

    let second = said("b", "default", "two", "2023-03-01T10:01:00Z");
    assert!(store.accepts(&Frame::Message(second.clone())));
    assert!(store.apply(Frame::Message(second.clone())));
    assert_eq!(
        store.channels(),
        &vec![channel("default", vec![first.clone(), second.clone()]), channel("another", vec![])]
    );

    // A later list takes the place of what was kept under the same names.
    assert!(store.apply(Frame::Bulk(
        vec![said("x", "default", "loose", "2023-03-01T10:02:00Z")],
        vec![channel("another", vec![second.clone()]), channel("room", vec![]), channel("room", vec![first.clone()])]
    )));
    assert_eq!(
        store.channels(),
        &vec![
            channel("default", vec![first.clone(), second.clone()]),
            channel("another", vec![second]),
            channel("room", vec![first]),
        ]
    );
}

#[test]
fn store_does_not_take_a_message_for_a_channel_it_does_not_know() {
    let store = Store::new();
    let stray = Frame::Message(said("a", "nowhere", "hi", "2023-03-01T10:00:00Z"));
    assert!(!store.accepts(&stray));
    assert!(store.accepts(&Frame::Okay));
    assert!(store.accepts(&Frame::Bulk(vec![], vec![])));
}

#[test]
fn an_error_ends_the_conversation() {
    let mut store = Store::new();
    store.apply(Frame::Bulk(vec![], vec![channel("default", vec![])]));
    assert!(!store.apply(Frame::Error("Max connections reached".to_string())));
    assert!(store.apply(Frame::Okay));
    assert!(store.apply(Frame::Connect(vec![channel("ignored", vec![])])));
    assert!(store.apply(Frame::Disconnect(User {
        username: "a".to_string(),
        color: None,
        avatar: None
    })));
    assert_eq!(store.channels(), &vec![channel("default", vec![])]);
}

#[test]
fn compose_writes_to_the_channel_that_is_shown() {
    let mut store = Store::new();
    store.login("alice".to_string(), String::new());
    store.apply(Frame::Bulk(vec![], vec![channel("default", vec![]), channel("room", vec![])]));
    assert!(!store.is_current(&"room".to_string()));
    store.select("room".to_string());
    assert!(store.is_current(&"room".to_string()));
    assert!(!store.is_current(&"default".to_string()));
    assert_eq!(store.current(), &Some("room".to_string()));
    match store.compose("hello".to_string()) {
        Frame::Message(message) => {
            assert_eq!(Some(message.from.clone()), store.user().clone());
            assert_eq!(message.channel, "room");
            assert_eq!(message.body, "hello");
            assert!(Timestamp::parse(message.created.as_str()).is_some());
            assert!(!store.is_from_other(&message));
            store.apply(Frame::Message(message.clone()));
            assert_eq!(store.shown(), &vec![message]);
        }
        other => panic!("{:?}", other),
    }
    assert!(store.is_from_other(&said("bob", "room", "hi", "2023-03-01T10:00:00Z")));
}

#[test]
fn short_text_is_shown_whole() {
    assert_eq!(shorten(""), "");
    assert_eq!(shorten("hi"), "hi");
    assert_eq!(shorten("1234567890123456789012345"), "1234567890123456789012345");
}

#[test]
fn long_text_is_cut_after_twenty_five_bytes() {
    assert_eq!(shorten("12345678901234567890123456"), "1234567890123456789012345...");
    assert_eq!(
        shorten("the quick brown fox jumps over the lazy dog"),
        "the quick brown fox jumps..."
    );
    // 24 bytes, then a character of two bytes, then more: the cut would split it
    let awkward = "123456789012345678901234éxyz";
    assert!(!shortens(awkward));
    assert!(shortens("1234567890123456789012345éxyz"));
    assert_eq!(shorten("1234567890123456789012345éxyz"), "1234567890123456789012345...");
    assert!(shortens("short é"));
}

#[test]
fn preview_shows_the_last_message() {
    let empty = channel("room", vec![]);
    assert_eq!(preview(&empty), Preview { text: String::new(), time: String::new() });

    let busy = channel(
        "room",
        vec![
            said("a", "room", "first", "2023-03-01T09:05:00Z"),
            said("b", "room", "a rather long message that goes on", "2023-03-01T23:59:59+01:00"),
        ],
    );
    assert_eq!(
        preview(&busy),
        Preview { text: "a rather long message tha...".to_string(), time: "22:59".to_string() }
    );
    let quiet = channel("room", vec![said("a", "room", "first", "2023-03-01T09:05:00Z")]);
    assert_eq!(preview(&quiet), Preview { text: "first".to_string(), time: "09:05".to_string() });
}

#[test]
fn time_of_day_of_a_timestamp() {
    let stamp = Timestamp::parse("2023-03-01T12:34:56.789Z").unwrap();
    assert_eq!(stamp.hour_minute(), Some("12:34".to_string()));
    assert_eq!(Timestamp::now().hour_minute().map(|time| time.len()), Some(5));
}

#[test]
fn cover_of_a_channel() {
    assert_eq!(cover_of(&channel("room", vec![])), COVER);
    let own = Channel { name: "room".to_string(), messages: vec![], cover: Some("c.png".to_string()) };
    assert_eq!(cover_of(&own), "c.png");
}

#[test]
fn identity_of_the_command_line_client() {
    let args = Cli { user: "carol".to_string(), color: Some("green".to_string()), room: None };
    let user = args.identity();
    assert_eq!(user.username, "carol");
    assert_eq!(user.color, Some("green".to_string()));
    assert_eq!(
        user.avatar,
        Some("https://images.unsplash.com/photo-1675456110416-53a9df455bae?ixlib=rb-4.0.3&ixid=MnwxMjA3fDB8MHxwaG90by1wYWdlfHx8fGVufDB8fHx8&auto=format&fit=crop&w=687&q=80".to_string())
    );
}
