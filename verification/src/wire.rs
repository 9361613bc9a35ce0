//! The wire format of frames, as functions on sequences of bytes.
//!
//! Integers are little-endian and of fixed width. A text is the number of
//! its bytes as a `u64`, then the bytes, in UTF-8. An optional text is one
//! byte, 0 or 1, then the text if the byte is 1. A list is the number of
//! its items as a `u64`, then the items. A record is its fields, one after
//! the other. A frame is the number of its variant as a `u32`, then the
//! fields of the variant. A timestamp is its text.

use crate::frame::{ChannelView, FrameView, MessageView, UserView};
use crate::time::is_date_time_text;
use vstd::bytes::{
    spec_u32_from_le_bytes, spec_u32_to_le_bytes, spec_u64_from_le_bytes, spec_u64_to_le_bytes,
};
use vstd::prelude::*;
use vstd::utf8::{decode_utf8, encode_utf8, valid_utf8};

verus! {

/// What reading a value from the start of some bytes comes to.
pub enum Parsed<T> {
    /// The value, and the number of bytes that hold it.
    Done(T, nat),
    /// The bytes end before the value does.
    Incomplete,
    /// The bytes are not the start of any value.
    Invalid,
}

impl<T> Parsed<T> {
    /// The same failure, of a reading of another type.
    pub open spec fn failure<U>(self) -> Parsed<U> {
        match self {
            Parsed::Invalid => Parsed::Invalid,
            _ => Parsed::Incomplete,
        }
    }
}

// Writing.

/// The bytes of a text.
pub open spec fn serialize_text(text: Seq<char>) -> Seq<u8> {
    spec_u64_to_le_bytes(encode_utf8(text).len() as u64) + encode_utf8(text)
}

/// The bytes of an optional text.
pub open spec fn serialize_optional(text: Option<Seq<char>>) -> Seq<u8> {
    match text {
        None => seq![0u8],
        Some(text) => seq![1u8] + serialize_text(text),
    }
}

/// The bytes of a user.
pub open spec fn serialize_user(user: UserView) -> Seq<u8> {
    serialize_text(user.username) + serialize_optional(user.color) + serialize_optional(
        user.avatar,
    )
}

/// The bytes of a message.
pub open spec fn serialize_message(message: MessageView) -> Seq<u8> {
    serialize_user(message.from) + serialize_text(message.channel) + serialize_text(message.body)
        + serialize_text(message.created)
}

/// The bytes of some messages, one after the other.
pub open spec fn serialize_message_run(messages: Seq<MessageView>) -> Seq<u8>
    decreases messages.len(),
{
    if messages.len() == 0 {
        Seq::empty()
    } else {
        serialize_message_run(messages.drop_last()) + serialize_message(messages.last())
    }
}

/// The bytes of a list of messages.
pub open spec fn serialize_messages(messages: Seq<MessageView>) -> Seq<u8> {
    spec_u64_to_le_bytes(messages.len() as u64) + serialize_message_run(messages)
}

/// The bytes of a channel.
pub open spec fn serialize_channel(channel: ChannelView) -> Seq<u8> {
    serialize_text(channel.name) + serialize_messages(channel.messages) + serialize_optional(
        channel.cover,
    )
}

/// The bytes of some channels, one after the other.
pub open spec fn serialize_channel_run(channels: Seq<ChannelView>) -> Seq<u8>
    decreases channels.len(),
{
    if channels.len() == 0 {
        Seq::empty()
    } else {
        serialize_channel_run(channels.drop_last()) + serialize_channel(channels.last())
    }
}

/// The bytes of a list of channels.
pub open spec fn serialize_channels(channels: Seq<ChannelView>) -> Seq<u8> {
    spec_u64_to_le_bytes(channels.len() as u64) + serialize_channel_run(channels)
}

/// The number of a frame's variant.
pub open spec fn variant_of(frame: FrameView) -> u32 {
    match frame {
        FrameView::Authorize(_) => 0,
        FrameView::Connect(_) => 1,
        FrameView::Message(_) => 2,
        FrameView::Bulk(_, _) => 3,
        FrameView::Channel(_) => 4,
        FrameView::Okay => 5,
        FrameView::Error(_) => 6,
        FrameView::Disconnect(_) => 7,
    }
}

/// The bytes of a frame's fields.
pub open spec fn serialize_fields(frame: FrameView) -> Seq<u8> {
    match frame {
        FrameView::Authorize(user) => serialize_user(user),
        FrameView::Connect(channels) => serialize_channels(channels),
        FrameView::Message(message) => serialize_message(message),
        FrameView::Bulk(messages, channels) => serialize_messages(messages) + serialize_channels(
            channels,
        ),
        FrameView::Channel(channel) => serialize_channel(channel),
        FrameView::Okay => Seq::empty(),
        FrameView::Error(reason) => serialize_text(reason),
        FrameView::Disconnect(user) => serialize_user(user),
    }
}

/// The bytes of a frame.
pub open spec fn serialize_frame(frame: FrameView) -> Seq<u8> {
    spec_u32_to_le_bytes(variant_of(frame)) + serialize_fields(frame)
}

// What can be written and read back.

/// A text whose length in bytes can be written.
pub open spec fn text_fits(text: Seq<char>) -> bool {
    encode_utf8(text).len() <= u64::MAX
}

/// An optional text that can be written.
pub open spec fn optional_fits(text: Option<Seq<char>>) -> bool {
    match text {
        None => true,
        Some(text) => text_fits(text),
    }
}

/// A user whose texts can be written.
pub open spec fn user_fits(user: UserView) -> bool {
    text_fits(user.username) && optional_fits(user.color) && optional_fits(user.avatar)
}

/// A message whose texts can be written.
pub open spec fn message_fits(message: MessageView) -> bool {
    &&& user_fits(message.from)
    &&& text_fits(message.channel)
    &&& text_fits(message.body)
    &&& text_fits(message.created)
}

/// A list of messages whose length and texts can be written.
pub open spec fn messages_fit(messages: Seq<MessageView>) -> bool {
    &&& messages.len() <= u64::MAX
    &&& forall|i: int| 0 <= i < messages.len() ==> message_fits(#[trigger] messages[i])
}

/// A channel whose texts and history can be written.
pub open spec fn channel_fits(channel: ChannelView) -> bool {
    &&& text_fits(channel.name)
    &&& messages_fit(channel.messages)
    &&& optional_fits(channel.cover)
}

/// A list of channels whose length and channels can be written.
pub open spec fn channels_fit(channels: Seq<ChannelView>) -> bool {
    &&& channels.len() <= u64::MAX
    &&& forall|i: int| 0 <= i < channels.len() ==> channel_fits(#[trigger] channels[i])
}

/// A frame whose lengths fit the width of the numbers that hold them.
/// Every frame in memory is such a frame.
pub open spec fn frame_fits(frame: FrameView) -> bool {
    match frame {
        FrameView::Authorize(user) => user_fits(user),
        FrameView::Connect(channels) => channels_fit(channels),
        FrameView::Message(message) => message_fits(message),
        FrameView::Bulk(messages, channels) => messages_fit(messages) && channels_fit(channels),
        FrameView::Channel(channel) => channel_fits(channel),
        FrameView::Okay => true,
        FrameView::Error(reason) => text_fits(reason),
        FrameView::Disconnect(user) => user_fits(user),
    }
}

/// Messages whose timestamps are ones that a reader accepts.
pub open spec fn messages_timely(messages: Seq<MessageView>) -> bool {
    forall|i: int| 0 <= i < messages.len() ==> is_date_time_text((#[trigger] messages[i]).created)
}

/// Channels whose messages have timestamps that a reader accepts.
pub open spec fn channels_timely(channels: Seq<ChannelView>) -> bool {
    forall|i: int| 0 <= i < channels.len() ==> messages_timely((#[trigger] channels[i]).messages)
}

/// A frame whose messages have timestamps that a reader accepts.
pub open spec fn frame_timely(frame: FrameView) -> bool {
    match frame {
        FrameView::Connect(channels) => channels_timely(channels),
        FrameView::Message(message) => is_date_time_text(message.created),
        FrameView::Bulk(messages, channels) => messages_timely(messages) && channels_timely(
            channels,
        ),
        FrameView::Channel(channel) => messages_timely(channel.messages),
        _ => true,
    }
}

/// A frame that can be written and read back: its lengths can be written,
/// and a reader accepts its timestamps.
pub open spec fn representable(frame: FrameView) -> bool {
    frame_fits(frame) && frame_timely(frame)
}

// Reading.

/// Reads a `u32`.
pub open spec fn parse_u32(bytes: Seq<u8>) -> Parsed<u32> {
    if bytes.len() < 4 {
        Parsed::Incomplete
    } else {
        Parsed::Done(spec_u32_from_le_bytes(bytes.subrange(0, 4)), 4)
    }
}

/// Reads a `u64`.
pub open spec fn parse_u64(bytes: Seq<u8>) -> Parsed<u64> {
    if bytes.len() < 8 {
        Parsed::Incomplete
    } else {
        Parsed::Done(spec_u64_from_le_bytes(bytes.subrange(0, 8)), 8)
    }
}

/// Reads a text: its length, then as many bytes, which must be UTF-8.
#[verifier::opaque]
pub open spec fn parse_text(bytes: Seq<u8>) -> Parsed<Seq<char>> {
    match parse_u64(bytes) {
        Parsed::Done(len, _) => {
            if bytes.len() - 8 < len {
                Parsed::Incomplete
            } else if valid_utf8(bytes.subrange(8, 8 + len)) {
                Parsed::Done(decode_utf8(bytes.subrange(8, 8 + len)), (8 + len) as nat)
            } else {
                Parsed::Invalid
            }
        },
        other => other.failure(),
    }
}

/// Reads an optional text: a byte that is 0 or 1, then the text if it is 1.
#[verifier::opaque]
pub open spec fn parse_optional(bytes: Seq<u8>) -> Parsed<Option<Seq<char>>> {
    if bytes.len() < 1 {
        Parsed::Incomplete
    } else if bytes[0] == 0 {
        Parsed::Done(None, 1)
    } else if bytes[0] == 1 {
        match parse_text(bytes.skip(1)) {
            Parsed::Done(text, n) => Parsed::Done(Some(text), 1 + n),
            other => other.failure(),
        }
    } else {
        Parsed::Invalid
    }
}

/// Reads a timestamp: a text that is a date and time.
#[verifier::opaque]
pub open spec fn parse_timestamp(bytes: Seq<u8>) -> Parsed<Seq<char>> {
    match parse_text(bytes) {
        Parsed::Done(text, n) => {
            if is_date_time_text(text) {
                Parsed::Done(text, n)
            } else {
                Parsed::Invalid
            }
        },
        other => other,
    }
}

/// Reads a user.
#[verifier::opaque]
pub open spec fn parse_user(bytes: Seq<u8>) -> Parsed<UserView> {
    match parse_text(bytes) {
        Parsed::Done(username, n1) => match parse_optional(bytes.skip(n1 as int)) {
            Parsed::Done(color, n2) => match parse_optional(bytes.skip((n1 + n2) as int)) {
                Parsed::Done(avatar, n3) => Parsed::Done(
                    UserView { username, color, avatar },
                    n1 + n2 + n3,
                ),
                other => other.failure(),
            },
            other => other.failure(),
        },
        other => other.failure(),
    }
}

/// Reads a message.
#[verifier::opaque]
pub open spec fn parse_message(bytes: Seq<u8>) -> Parsed<MessageView> {
    match parse_user(bytes) {
        Parsed::Done(from, n1) => match parse_text(bytes.skip(n1 as int)) {
            Parsed::Done(channel, n2) => match parse_text(bytes.skip((n1 + n2) as int)) {
                Parsed::Done(body, n3) => match parse_timestamp(
                    bytes.skip((n1 + n2 + n3) as int),
                ) {
                    Parsed::Done(created, n4) => Parsed::Done(
                        MessageView { from, channel, body, created },
                        n1 + n2 + n3 + n4,
                    ),
                    other => other.failure(),
                },
                other => other.failure(),
            },
            other => other.failure(),
        },
        other => other.failure(),
    }
}

/// Reads `count` messages, one after the other.
pub open spec fn parse_message_run(bytes: Seq<u8>, count: nat) -> Parsed<Seq<MessageView>>
    decreases count,
{
    if count == 0 {
        Parsed::Done(Seq::empty(), 0)
    } else {
        match parse_message_run(bytes, (count - 1) as nat) {
            Parsed::Done(messages, n) => match parse_message(bytes.skip(n as int)) {
                Parsed::Done(message, m) => Parsed::Done(messages.push(message), n + m),
                other => other.failure(),
            },
            other => other,
        }
    }
}

/// Reads a list of messages: their number, then the messages.
#[verifier::opaque]
pub open spec fn parse_messages(bytes: Seq<u8>) -> Parsed<Seq<MessageView>> {
    match parse_u64(bytes) {
        Parsed::Done(count, _) => match parse_message_run(bytes.skip(8), count as nat) {
            Parsed::Done(messages, n) => Parsed::Done(messages, 8 + n),
            other => other,
        },
        other => other.failure(),
    }
}

/// Reads a channel.
#[verifier::opaque]
pub open spec fn parse_channel(bytes: Seq<u8>) -> Parsed<ChannelView> {
    match parse_text(bytes) {
        Parsed::Done(name, n1) => match parse_messages(bytes.skip(n1 as int)) {
            Parsed::Done(messages, n2) => match parse_optional(bytes.skip((n1 + n2) as int)) {
                Parsed::Done(cover, n3) => Parsed::Done(
                    ChannelView { name, messages, cover },
                    n1 + n2 + n3,
                ),
                other => other.failure(),
            },
            other => other.failure(),
        },
        other => other.failure(),
    }
}

/// Reads `count` channels, one after the other.
pub open spec fn parse_channel_run(bytes: Seq<u8>, count: nat) -> Parsed<Seq<ChannelView>>
    decreases count,
{
    if count == 0 {
        Parsed::Done(Seq::empty(), 0)
    } else {
        match parse_channel_run(bytes, (count - 1) as nat) {
            Parsed::Done(channels, n) => match parse_channel(bytes.skip(n as int)) {
                Parsed::Done(channel, m) => Parsed::Done(channels.push(channel), n + m),
                other => other.failure(),
            },
            other => other,
        }
    }
}

/// Reads a list of channels: their number, then the channels.
#[verifier::opaque]
pub open spec fn parse_channels(bytes: Seq<u8>) -> Parsed<Seq<ChannelView>> {
    match parse_u64(bytes) {
        Parsed::Done(count, _) => match parse_channel_run(bytes.skip(8), count as nat) {
            Parsed::Done(channels, n) => Parsed::Done(channels, 8 + n),
            other => other,
        },
        other => other.failure(),
    }
}

/// Reads the fields of the frame variant with the number `variant`.
#[verifier::opaque]
pub open spec fn parse_fields(variant: u32, bytes: Seq<u8>) -> Parsed<FrameView> {
    if variant == 0 {
        match parse_user(bytes) {
            Parsed::Done(user, n) => Parsed::Done(FrameView::Authorize(user), n),
            other => other.failure(),
        }
    } else if variant == 1 {
        match parse_channels(bytes) {
            Parsed::Done(channels, n) => Parsed::Done(FrameView::Connect(channels), n),
            other => other.failure(),
        }
    } else if variant == 2 {
        match parse_message(bytes) {
            Parsed::Done(message, n) => Parsed::Done(FrameView::Message(message), n),
            other => other.failure(),
        }
    } else if variant == 3 {
        match parse_messages(bytes) {
            Parsed::Done(messages, n1) => match parse_channels(bytes.skip(n1 as int)) {
                Parsed::Done(channels, n2) => Parsed::Done(
                    FrameView::Bulk(messages, channels),
                    n1 + n2,
                ),
                other => other.failure(),
            },
            other => other.failure(),
        }
    } else if variant == 4 {
        match parse_channel(bytes) {
            Parsed::Done(channel, n) => Parsed::Done(FrameView::Channel(channel), n),
            other => other.failure(),
        }
    } else if variant == 5 {
        Parsed::Done(FrameView::Okay, 0)
    } else if variant == 6 {
        match parse_text(bytes) {
            Parsed::Done(reason, n) => Parsed::Done(FrameView::Error(reason), n),
            other => other.failure(),
        }
    } else if variant == 7 {
        match parse_user(bytes) {
            Parsed::Done(user, n) => Parsed::Done(FrameView::Disconnect(user), n),
            other => other.failure(),
        }
    } else {
        Parsed::Invalid
    }
}

/// Reads a frame from the start of `bytes`: the number of its variant, then
/// its fields. What follows the frame is not looked at.
#[verifier::opaque]
pub open spec fn parse_frame(bytes: Seq<u8>) -> Parsed<FrameView> {
    match parse_u32(bytes) {
        Parsed::Done(variant, _) => match parse_fields(variant, bytes.skip(4)) {
            Parsed::Done(frame, n) => Parsed::Done(frame, 4 + n),
            other => other,
        },
        other => other.failure(),
    }
}

} // verus!
