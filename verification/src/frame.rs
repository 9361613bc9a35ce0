//! The values that travel between client and server.

use crate::errors::ConnectionError;
use crate::time::Timestamp;
use vstd::prelude::*;

verus! {

/// A participant, as it names itself when it authorizes.
#[derive(Debug, PartialEq)]
pub struct User {
    pub username: String,
    pub color: Option<String>,
    pub avatar: Option<String>,
}

/// What a [`User`] is, as plain values.
pub struct UserView {
    pub username: Seq<char>,
    pub color: Option<Seq<char>>,
    pub avatar: Option<Seq<char>>,
}

impl View for User {
    type V = UserView;

    open spec fn view(&self) -> UserView {
        UserView {
            username: self.username@,
            color: self.color.deep_view(),
            avatar: self.avatar.deep_view(),
        }
    }
}

impl DeepView for User {
    type V = UserView;

    open spec fn deep_view(&self) -> UserView {
        self@
    }
}

impl Clone for User {
    fn clone(&self) -> (copy: Self)
        ensures
            copy@ == self@,
    {
        User {
            username: self.username.clone(),
            color: self.color.clone(),
            avatar: self.avatar.clone(),
        }
    }
}

/// A chat message.
#[derive(Debug, PartialEq)]
pub struct Message {
    pub from: User,
    pub channel: String,
    pub body: String,
    pub created: Timestamp,
}

/// What a [`Message`] is, as plain values.
pub struct MessageView {
    pub from: UserView,
    pub channel: Seq<char>,
    pub body: Seq<char>,
    pub created: Seq<char>,
}

impl View for Message {
    type V = MessageView;

    open spec fn view(&self) -> MessageView {
        MessageView {
            from: self.from@,
            channel: self.channel@,
            body: self.body@,
            created: self.created@,
        }
    }
}

impl DeepView for Message {
    type V = MessageView;

    open spec fn deep_view(&self) -> MessageView {
        self@
    }
}

impl Clone for Message {
    fn clone(&self) -> (copy: Self)
        ensures
            copy@ == self@,
    {
        Message {
            from: self.from.clone(),
            channel: self.channel.clone(),
            body: self.body.clone(),
            created: self.created.clone(),
        }
    }
}

impl Message {
    /// A message written now: it is stamped with the current time.
    pub fn new(from: User, channel: String, body: String) -> (message: Message)
        ensures
            message.from == from,
            message.channel == channel,
            message.body == body,
    {
        Message::written_at(from, channel, body, Timestamp::now())
    }

    /// A message written at `created`.
    pub fn written_at(from: User, channel: String, body: String, created: Timestamp) -> (message:
        Message)
        ensures
            message == (Message { from, channel, body, created }),
    {
        Message { from, channel, body, created }
    }

    /// The message that `frame` carries; a frame of another kind carries none.
    pub fn try_from(frame: Frame) -> (outcome: Result<Message, ConnectionError>)
        ensures
            outcome == match frame {
                Frame::Message(message) => Ok::<Message, ConnectionError>(message),
                _ => Err::<Message, ConnectionError>(ConnectionError::MessageParse),
            },
    {
        match frame {
            Frame::Message(message) => Ok(message),
            _ => Err(ConnectionError::MessageParse),
        }
    }
}

/// A named room, as clients see it: its history and its picture.
#[derive(Debug, PartialEq)]
pub struct Channel {
    pub name: String,
    pub messages: Vec<Message>,
    pub cover: Option<String>,
}

/// What a [`Channel`] is, as plain values.
pub struct ChannelView {
    pub name: Seq<char>,
    pub messages: Seq<MessageView>,
    pub cover: Option<Seq<char>>,
}

impl View for Channel {
    type V = ChannelView;

    open spec fn view(&self) -> ChannelView {
        ChannelView {
            name: self.name@,
            messages: self.messages.deep_view(),
            cover: self.cover.deep_view(),
        }
    }
}

impl DeepView for Channel {
    type V = ChannelView;

    open spec fn deep_view(&self) -> ChannelView {
        self@
    }
}

/// A copy of `messages`, message by message.
pub fn clone_messages(messages: &Vec<Message>) -> (copy: Vec<Message>)
    ensures
        copy.deep_view() == messages.deep_view(),
{
    let mut copy: Vec<Message> = Vec::new();
    let mut i: usize = 0;
    while i < messages.len()
        invariant
            i <= messages.len(),
            copy.len() == i,
            forall|k: int| 0 <= k < i ==> copy[k]@ == messages[k]@,
        decreases messages.len() - i,
    {
        copy.push(messages[i].clone());
        i += 1;
    }
    assert(copy.deep_view() =~= messages.deep_view());
    copy
}

impl Clone for Channel {
    fn clone(&self) -> (copy: Self)
        ensures
            copy@ == self@,
    {
        Channel {
            name: self.name.clone(),
            messages: clone_messages(&self.messages),
            cover: self.cover.clone(),
        }
    }
}

/// A copy of `channels`, channel by channel.
pub fn clone_channels(channels: &Vec<Channel>) -> (copy: Vec<Channel>)
    ensures
        copy.deep_view() == channels.deep_view(),
{
    let mut copy: Vec<Channel> = Vec::new();
    let mut i: usize = 0;
    while i < channels.len()
        invariant
            i <= channels.len(),
            copy.len() == i,
            forall|k: int| 0 <= k < i ==> copy[k]@ == channels[k]@,
        decreases channels.len() - i,
    {
        copy.push(channels[i].clone());
        i += 1;
    }
    assert(copy.deep_view() =~= channels.deep_view());
    copy
}

/// One unit of the protocol.
#[derive(Debug, PartialEq)]
pub enum Frame {
    /// Client to server, first on a connection: who is connecting.
    Authorize(User),
    /// A list of channels.
    Connect(Vec<Channel>),
    /// A chat message, sent or relayed.
    Message(Message),
    /// Server to client: messages and channels to seed the client's state.
    Bulk(Vec<Message>, Vec<Channel>),
    /// Client to server: create this channel.
    Channel(Channel),
    /// An acknowledgement.
    Okay,
    /// A failure, in words.
    Error(String),
    /// A peer has left.
    Disconnect(User),
}

/// What a [`Frame`] is, as plain values.
pub enum FrameView {
    Authorize(UserView),
    Connect(Seq<ChannelView>),
    Message(MessageView),
    Bulk(Seq<MessageView>, Seq<ChannelView>),
    Channel(ChannelView),
    Okay,
    Error(Seq<char>),
    Disconnect(UserView),
}

impl View for Frame {
    type V = FrameView;

    open spec fn view(&self) -> FrameView {
        match self {
            Frame::Authorize(user) => FrameView::Authorize(user@),
            Frame::Connect(channels) => FrameView::Connect(channels.deep_view()),
            Frame::Message(message) => FrameView::Message(message@),
            Frame::Bulk(messages, channels) => FrameView::Bulk(
                messages.deep_view(),
                channels.deep_view(),
            ),
            Frame::Channel(channel) => FrameView::Channel(channel@),
            Frame::Okay => FrameView::Okay,
            Frame::Error(text) => FrameView::Error(text@),
            Frame::Disconnect(user) => FrameView::Disconnect(user@),
        }
    }
}

impl DeepView for Frame {
    type V = FrameView;

    open spec fn deep_view(&self) -> FrameView {
        self@
    }
}

impl From<Message> for Frame {
    fn from(message: Message) -> (frame: Frame) {
        Frame::Message(message)
    }
}

impl vstd::std_specs::convert::FromSpecImpl<Message> for Frame {
    open spec fn obeys_from_spec() -> bool {
        true
    }

    open spec fn from_spec(message: Message) -> Frame {
        Frame::Message(message)
    }
}

impl Clone for Frame {
    fn clone(&self) -> (copy: Self)
        ensures
            copy@ == self@,
    {
        match self {
            Frame::Authorize(user) => Frame::Authorize(user.clone()),
            Frame::Connect(channels) => Frame::Connect(clone_channels(channels)),
            Frame::Message(message) => Frame::Message(message.clone()),
            Frame::Bulk(messages, channels) => Frame::Bulk(
                clone_messages(messages),
                clone_channels(channels),
            ),
            Frame::Channel(channel) => Frame::Channel(channel.clone()),
            Frame::Okay => Frame::Okay,
            Frame::Error(text) => Frame::Error(text.clone()),
            Frame::Disconnect(user) => Frame::Disconnect(user.clone()),
        }
    }
}

} // verus!
