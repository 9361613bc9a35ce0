//! What a client keeps of a conversation, and the frames it sends.

use crate::frame::{
    clone_channels, Channel, ChannelView, Frame, FrameView, Message, MessageView, User, UserView,
};
use crate::registry::default_cover;
use crate::time::clock_time;
use vstd::prelude::*;
use vstd::utf8::{decode_utf8, encode_utf8, encode_utf8_decode_utf8, is_char_boundary};

verus! {

/// The picture of a user who gave none.
pub open spec fn default_avatar() -> Seq<char> {
    "https://w7.pngwing.com/pngs/754/2/png-transparent-samsung-galaxy-a8-a8-user-login-telephone-avatar-pawn-blue-angle-sphere-thumbnail.png"@
}

/// The longest text, in bytes, that a preview shows whole.
pub const PREVIEW_LEN: usize = 25;

/// What stands for the rest of a text that a preview cuts.
pub open spec fn ellipsis() -> Seq<char> {
    "..."@
}

/// The preview of `body`: all of it if it is short, else its first
/// [`PREVIEW_LEN`] bytes and an ellipsis.
pub open spec fn shortened(body: Seq<char>) -> Seq<char> {
    if encode_utf8(body).len() > PREVIEW_LEN {
        decode_utf8(encode_utf8(body).subrange(0, PREVIEW_LEN as int)) + ellipsis()
    } else {
        body
    }
}

/// Whether `body` can be shortened: a cut, if there is one, falls between
/// two characters.
pub open spec fn can_shorten(body: Seq<char>) -> bool {
    encode_utf8(body).len() > PREVIEW_LEN ==> is_char_boundary(
        encode_utf8(body),
        PREVIEW_LEN as int,
    )
}

/// Whether [`shorten`] can be called on `body`.
pub fn shortens(body: &str) -> (ok: bool)
    ensures
        ok == can_shorten(body@),
{
    body.as_bytes().len() <= PREVIEW_LEN || body.is_char_boundary(PREVIEW_LEN)
}

/// The preview of `body`.
pub fn shorten(body: &str) -> (preview: String)
    requires
        can_shorten(body@),
    ensures
        preview@ == shortened(body@),
{
    if body.as_bytes().len() > PREVIEW_LEN {
        let (head, _) = body.split_at(PREVIEW_LEN);
        proof {
            encode_utf8_decode_utf8(head@);
        }
        head.to_owned().concat("...")
    } else {
        body.to_owned()
    }
}

/// What a list of channels shows of one channel besides its name and picture.
#[derive(Debug, PartialEq)]
pub struct Preview {
    /// The last message, shortened; empty if there is none.
    pub text: String,
    /// The time of day of the last message; empty if there is none.
    pub time: String,
}

/// What a [`Preview`] is, as plain values.
pub struct PreviewView {
    pub text: Seq<char>,
    pub time: Seq<char>,
}

impl View for Preview {
    type V = PreviewView;

    open spec fn view(&self) -> PreviewView {
        PreviewView { text: self.text@, time: self.time@ }
    }
}

/// The preview of a channel with the history `messages`.
pub open spec fn preview_of(messages: Seq<MessageView>) -> PreviewView {
    if messages.len() == 0 {
        PreviewView { text: Seq::empty(), time: Seq::empty() }
    } else {
        PreviewView {
            text: shortened(messages.last().body),
            time: match clock_time(messages.last().created) {
                Some(time) => time,
                None => Seq::empty(),
            },
        }
    }
}

/// The preview of `channel`: its last message, shortened, and when it was
/// written.
pub fn preview(channel: &Channel) -> (preview: Preview)
    requires
        channel@.messages.len() > 0 ==> can_shorten(channel@.messages.last().body),
    ensures
        preview@ == preview_of(channel@.messages),
{
    let len = channel.messages.len();
    if len > 0 {
        let last = &channel.messages[len - 1];
        assert(last@ == channel@.messages.last());
        let time = match last.created.hour_minute() {
            Some(time) => time,
            None => String::new(),
        };
        Preview { text: shorten(last.body.as_str()), time }
    } else {
        Preview { text: String::new(), time: String::new() }
    }
}

/// The picture to show for a channel: its own, or the default one.
pub fn cover_of(channel: &Channel) -> (cover: String)
    ensures
        cover@ == match channel@.cover {
            Some(cover) => cover,
            None => default_cover(),
        },
{
    match &channel.cover {
        Some(cover) => cover.clone(),
        None => String::from_str("https://cdn-icons-png.flaticon.com/512/134/134932.png"),
    }
}

/// The frame that asks for a channel named `name`: with the picture `cover`,
/// or the default one if `cover` is empty, and without history.
pub fn channel_request(name: String, cover: String) -> (frame: Frame)
    ensures
        frame@ == FrameView::Channel(
            ChannelView {
                name: name@,
                messages: Seq::empty(),
                cover: Some(
                    if cover@.len() > 0 {
                        cover@
                    } else {
                        default_cover()
                    },
                ),
            },
        ),
{
    let cover = if cover.as_str().is_empty() {
        String::from_str("https://cdn-icons-png.flaticon.com/512/134/134932.png")
    } else {
        cover
    };
    let messages: Vec<Message> = Vec::new();
    assert(messages.deep_view() =~= Seq::empty());
    Frame::Channel(Channel { name, messages, cover: Some(cover) })
}

/// What a client keeps, as plain values.
pub struct StoreView {
    /// Who the client is, once it has logged in.
    pub user: Option<UserView>,
    /// The name of the channel that is shown.
    pub current: Option<Seq<char>>,
    /// The channels that the client has been told of.
    pub channels: Seq<ChannelView>,
}

impl StoreView {
    /// Whether a channel named `name` is kept.
    pub open spec fn knows(self, name: Seq<char>) -> bool {
        exists|i: int| 0 <= i < self.channels.len() && self.channels[i].name == name
    }

    /// Where the channel named `name` is kept.
    pub open spec fn position(self, name: Seq<char>) -> int {
        choose|i: int| 0 <= i < self.channels.len() && self.channels[i].name == name
    }

    /// No two channels share a name.
    pub open spec fn wf(self) -> bool {
        forall|i: int, j: int|
            0 <= i < j < self.channels.len() ==> (#[trigger] self.channels[i]).name != (
            #[trigger] self.channels[j]).name
    }

    /// The store after it has been told of `channel`: it takes the place of
    /// the channel of that name, or comes last if there is none.
    pub open spec fn put(self, channel: ChannelView) -> StoreView {
        if self.knows(channel.name) {
            StoreView {
                channels: self.channels.update(self.position(channel.name), channel),
                ..self
            }
        } else {
            StoreView { channels: self.channels.push(channel), ..self }
        }
    }

    /// The store after it has been told of `channels`, one after the other.
    pub open spec fn put_all(self, channels: Seq<ChannelView>) -> StoreView
        decreases channels.len(),
    {
        if channels.len() == 0 {
            self
        } else {
            self.put_all(channels.drop_last()).put(channels.last())
        }
    }

    /// The store after `message` has been added to the history of its
    /// channel.
    pub open spec fn file(self, message: MessageView) -> StoreView {
        let at = self.position(message.channel);
        let channel = self.channels[at];
        StoreView {
            channels: self.channels.update(
                at,
                ChannelView { messages: channel.messages.push(message), ..channel },
            ),
            ..self
        }
    }

    /// Whether the store can take `frame`: a message must be for a channel
    /// that is kept.
    pub open spec fn accepts(self, frame: FrameView) -> bool {
        frame matches FrameView::Message(message) ==> self.knows(message.channel)
    }

    /// The store after `frame` has arrived: a message is added to the
    /// history of its channel, the channels of a bulk frame are kept, and
    /// every other frame changes nothing.
    pub open spec fn apply(self, frame: FrameView) -> StoreView {
        match frame {
            FrameView::Message(message) => self.file(message),
            FrameView::Bulk(_, channels) => self.put_all(channels),
            _ => self,
        }
    }

    /// The history of the channel that is shown.
    pub open spec fn shown(self) -> Seq<MessageView> {
        self.channels[self.position(self.current->0)].messages
    }
}

/// In a well-formed store a name is kept at one place only.
pub proof fn lemma_kept_once(store: StoreView, name: Seq<char>, i: int)
    requires
        store.wf(),
        0 <= i < store.channels.len(),
        store.channels[i].name == name,
    ensures
        store.knows(name),
        store.position(name) == i,
{
    let j = store.position(name);
    if j < i {
        assert(store.channels[j].name != store.channels[i].name);
    } else if i < j {
        assert(store.channels[i].name != store.channels[j].name);
    }
}

/// Being told of a channel keeps the store well formed.
pub proof fn lemma_put_wf(store: StoreView, channel: ChannelView)
    requires
        store.wf(),
    ensures
        store.put(channel).wf(),
{
    let next = store.put(channel);
    assert forall|i: int, j: int| 0 <= i < j < next.channels.len() implies (
    #[trigger] next.channels[i]).name != (#[trigger] next.channels[j]).name by {
        if store.knows(channel.name) {
            assert(store.channels[i].name != store.channels[j].name);
        } else if j < store.channels.len() {
            assert(store.channels[i].name != store.channels[j].name);
        }
    }
}

/// Whatever arrives, the store stays well formed, and it forgets no channel.
pub proof fn law_store_keeps_channels(store: StoreView, frame: FrameView, name: Seq<char>)
    requires
        store.wf(),
        store.accepts(frame),
    ensures
        store.apply(frame).wf(),
        store.knows(name) ==> store.apply(frame).knows(name),
{
    match frame {
        FrameView::Message(message) => {
            let next = store.apply(frame);
            assert forall|i: int, j: int| 0 <= i < j < next.channels.len() implies (
            #[trigger] next.channels[i]).name != (#[trigger] next.channels[j]).name by {
                assert(store.channels[i].name != store.channels[j].name);
            }
            if store.knows(name) {
                assert(next.channels[store.position(name)].name == name);
            }
        },
        FrameView::Bulk(_, channels) => lemma_put_all(store, channels, name),
        _ => {},
    }
}

/// Being told of channels keeps the store well formed and forgets no
/// channel.
pub proof fn lemma_put_all(store: StoreView, channels: Seq<ChannelView>, name: Seq<char>)
    requires
        store.wf(),
    ensures
        store.put_all(channels).wf(),
        store.knows(name) ==> store.put_all(channels).knows(name),
    decreases channels.len(),
{
    if channels.len() > 0 {
        let before = store.put_all(channels.drop_last());
        lemma_put_all(store, channels.drop_last(), name);
        lemma_put_wf(before, channels.last());
        if before.knows(name) {
            let at = before.position(name);
            let after = before.put(channels.last());
            if before.knows(channels.last().name) {
                if at == before.position(channels.last().name) {
                    assert(after.channels[at].name == name);
                } else {
                    assert(after.channels[at].name == name);
                }
            } else {
                assert(after.channels[at].name == name);
            }
        }
    }
}

/// What a client keeps of a conversation: who it is, the channels it has
/// been told of with their histories, and which of them it shows.
#[derive(Debug)]
pub struct Store {
    user: Option<User>,
    current: Option<String>,
    channels: Vec<Channel>,
}

impl View for Store {
    type V = StoreView;

    closed spec fn view(&self) -> StoreView {
        StoreView {
            user: self.user.deep_view(),
            current: self.current.deep_view(),
            channels: self.channels.deep_view(),
        }
    }
}

impl Clone for Store {
    fn clone(&self) -> (copy: Self)
        ensures
            copy@ == self@,
    {
        Store {
            user: self.user.clone(),
            current: self.current.clone(),
            channels: clone_channels(&self.channels),
        }
    }
}

impl Store {
    /// The store of a client that has not logged in and knows no channel.
    pub fn new() -> (store: Store)
        ensures
            store@.wf(),
            store@ == (StoreView { user: None, current: None, channels: Seq::empty() }),
    {
        let store = Store { user: None, current: None, channels: Vec::new() };
        assert(store.channels.deep_view() =~= Seq::empty());
        store
    }

    /// Logs in as `username`, with the picture `avatar`, or the default one
    /// if `avatar` is empty. Gives the frame that tells the server.
    pub fn login(&mut self, username: String, avatar: String) -> (frame: Frame)
        ensures
            final(self)@ == (StoreView {
                user: Some(
                    UserView {
                        username: username@,
                        color: None,
                        avatar: Some(
                            if avatar@.len() > 0 {
                                avatar@
                            } else {
                                default_avatar()
                            },
                        ),
                    },
                ),
                ..old(self)@
            }),
            Some(frame@) == match final(self)@.user {
                Some(user) => Some(FrameView::Authorize(user)),
                None => None,
            },
    {
        let avatar = if avatar.as_str().is_empty() {
            String::from_str(
                "https://w7.pngwing.com/pngs/754/2/png-transparent-samsung-galaxy-a8-a8-user-login-telephone-avatar-pawn-blue-angle-sphere-thumbnail.png",
            )
        } else {
            avatar
        };
        let user = User { username, color: None, avatar: Some(avatar) };
        let frame = Frame::Authorize(user.clone());
        self.user = Some(user);
        frame
    }

    /// Shows the channel named `name`.
    pub fn select(&mut self, name: String)
        ensures
            final(self)@ == (StoreView { current: Some(name@), ..old(self)@ }),
    {
        self.current = Some(name);
    }

    /// Where the channel named `name` is kept, if it is.
    fn find(&self, name: &String) -> (found: Option<usize>)
        requires
            self@.wf(),
        ensures
            found is Some <==> self@.knows(name@),
            found is Some ==> found->0 == self@.position(name@) && found->0 < self.channels.len(),
    {
        let mut i: usize = 0;
        while i < self.channels.len()
            invariant
                self@.wf(),
                i <= self.channels.len(),
                forall|k: int| 0 <= k < i ==> self@.channels[k].name != name@,
            decreases self.channels.len() - i,
        {
            if self.channels[i].name == *name {
                proof {
                    lemma_kept_once(self@, name@, i as int);
                }
                return Some(i);
            }
            i += 1;
        }
        None
    }

    /// Whether a channel named `name` is kept.
    pub fn knows(&self, name: &String) -> (known: bool)
        requires
            self@.wf(),
        ensures
            known == self@.knows(name@),
    {
        self.find(name).is_some()
    }

    /// Whether the store can take `frame`.
    pub fn accepts(&self, frame: &Frame) -> (ok: bool)
        requires
            self@.wf(),
        ensures
            ok == self@.accepts(frame@),
    {
        match frame {
            Frame::Message(message) => self.knows(&message.channel),
            _ => true,
        }
    }

    /// Keeps `channel`, in the place of the channel of that name if there is
    /// one.
    fn put(&mut self, channel: Channel)
        requires
            old(self)@.wf(),
        ensures
            final(self)@.wf(),
            final(self)@ == old(self)@.put(channel@),
    {
        let ghost before = self@;
        proof {
            lemma_put_wf(before, channel@);
        }
        match self.find(&channel.name) {
            Some(at) => {
                self.channels[at] = channel;
                assert(self@.channels =~= before.channels.update(at as int, channel@));
            },
            None => {
                self.channels.push(channel);
                assert(self@.channels =~= before.channels.push(channel@));
            },
        }
    }

    /// Takes a frame that has arrived. Says whether the conversation goes
    /// on: an error from the server ends it.
    pub fn apply(&mut self, frame: Frame) -> (goes_on: bool)
        requires
            old(self)@.wf(),
            old(self)@.accepts(frame@),
        ensures
            final(self)@.wf(),
            final(self)@ == old(self)@.apply(frame@),
            goes_on == !(frame@ is Error),
    {
        let ghost before = self@;
        match frame {
            Frame::Message(message) => {
                proof {
                    law_store_keeps_channels(before, frame@, message@.channel);
                }
                match self.find(&message.channel) {
                    Some(at) => {
                        let ghost channel = before.channels[at as int];
                        let ghost history = self.channels[at as int].messages.deep_view();
                        self.channels[at].messages.push(message);
                        assert(self.channels[at as int].messages.deep_view() =~= history.push(
                            message@,
                        ));
                        assert(self@.channels =~= before.channels.update(
                            at as int,
                            ChannelView { messages: channel.messages.push(message@), ..channel },
                        ));
                    },
                    None => {},
                }
                true
            },
            Frame::Bulk(_, channels) => {
                let ghost told = channels.deep_view();
                let mut i: usize = 0;
                while i < channels.len()
                    invariant
                        i <= channels.len(),
                        told == channels.deep_view(),
                        self@.wf(),
                        self@ == before.put_all(told.take(i as int)),
                    decreases channels.len() - i,
                {
                    assert(told.take(i + 1).drop_last() =~= told.take(i as int));
                    assert(told.take(i + 1).last() == channels[i as int]@);
                    self.put(channels[i].clone());
                    i += 1;
                }
                assert(told.take(i as int) =~= told);
                true
            },
            Frame::Error(_) => false,
            _ => true,
        }
    }

    /// The frame that sends `text` to the channel that is shown, written
    /// now.
    pub fn compose(&self, text: String) -> (frame: Frame)
        requires
            self@.user is Some,
            self@.current is Some,
        ensures
            frame@ matches FrameView::Message(message) && Some(message.from) == self@.user
                && Some(message.channel) == self@.current && message.body == text@,
    {
        let from = match &self.user {
            Some(user) => user.clone(),
            None => User { username: String::new(), color: None, avatar: None },
        };
        let channel = match &self.current {
            Some(name) => name.clone(),
            None => String::new(),
        };
        Frame::Message(Message::new(from, channel, text))
    }

    /// Whether `message` is to be shown as somebody else's: its author is
    /// not the user of this client.
    pub fn is_from_other(&self, message: &Message) -> (other: bool)
        requires
            self@.user is Some,
        ensures
            other == (self@.user->0.username != message@.from.username),
    {
        match &self.user {
            Some(user) => user.username != message.from.username,
            None => true,
        }
    }

    /// Whether the channel named `name` is the one that is shown.
    pub fn is_current(&self, name: &String) -> (current: bool)
        ensures
            current == (self@.current == Some(name@)),
    {
        match &self.current {
            Some(shown) => *shown == *name,
            None => false,
        }
    }

    /// The history of the channel that is shown.
    pub fn shown(&self) -> (messages: &Vec<Message>)
        requires
            self@.wf(),
            self@.current is Some,
            self@.knows(self@.current->0),
        ensures
            messages.deep_view() == self@.shown(),
    {
        let at = match &self.current {
            Some(name) => match self.find(name) {
                Some(at) => at,
                None => 0,
            },
            None => 0,
        };
        &self.channels[at].messages
    }

    /// Who the client is, once it has logged in.
    pub fn user(&self) -> (user: &Option<User>)
        ensures
            user.deep_view() == self@.user,
    {
        &self.user
    }

    /// The name of the channel that is shown.
    pub fn current(&self) -> (name: &Option<String>)
        ensures
            name.deep_view() == self@.current,
    {
        &self.current
    }

    /// The channels that are kept, in the order in which the client was
    /// first told of them.
    pub fn channels(&self) -> (channels: &Vec<Channel>)
        ensures
            channels.deep_view() == self@.channels,
    {
        &self.channels
    }
}

} // verus!
