//! What holds of the wire format: what was written is read back, what is
//! read is what a writer writes, and a frame that has not wholly arrived is
//! neither read nor refused.

use crate::frame::{ChannelView, FrameView, MessageView, UserView};
use crate::time::is_date_time_text;
use crate::wire::{
    channel_fits, channels_fit, channels_timely, message_fits,
    messages_fit, messages_timely, optional_fits, parse_channel, parse_channel_run,
    parse_channels, parse_fields, parse_frame, parse_message, parse_message_run, parse_messages,
    parse_optional, parse_text, parse_timestamp, parse_u32, parse_u64, parse_user, representable,
    serialize_channel, serialize_channel_run, serialize_channels, serialize_fields,
    serialize_frame, serialize_message, serialize_message_run, serialize_messages,
    serialize_optional, serialize_text, serialize_user, text_fits, user_fits, variant_of, Parsed,
};
use vstd::bytes::{
    lemma_auto_spec_u32_to_from_le_bytes, lemma_auto_spec_u64_to_from_le_bytes,
    spec_u32_from_le_bytes, spec_u32_to_le_bytes, spec_u64_from_le_bytes, spec_u64_to_le_bytes,
};
use vstd::prelude::*;
use vstd::utf8::{
    decode_utf8_encode_utf8, encode_utf8, encode_utf8_decode_utf8, encode_utf8_valid_utf8,
};

verus! {

// Reading what was written.

/// What follows a prefix is what was put behind it.
pub proof fn lemma_behind(front: Seq<u8>, back: Seq<u8>)
    ensures
        (front + back).skip(front.len() as int) == back,
        (front + back).subrange(0, front.len() as int) == front,
{
    assert((front + back).skip(front.len() as int) =~= back);
    assert((front + back).subrange(0, front.len() as int) =~= front);
}

/// Three runs of bytes in a row, grouped either way.
pub proof fn lemma_regroup(a: Seq<u8>, b: Seq<u8>, c: Seq<u8>)
    ensures
        (a + b) + c == a + (b + c),
{
    assert((a + b) + c =~= a + (b + c));
}

/// A `u32` that was written is read back, whatever follows it.
pub proof fn lemma_parse_u32(value: u32, rest: Seq<u8>)
    ensures
        spec_u32_to_le_bytes(value).len() == 4,
        parse_u32(spec_u32_to_le_bytes(value) + rest) == Parsed::Done(value, 4),
{
    lemma_auto_spec_u32_to_from_le_bytes();
    lemma_behind(spec_u32_to_le_bytes(value), rest);
}

/// A `u64` that was written is read back, whatever follows it.
pub proof fn lemma_parse_u64(value: u64, rest: Seq<u8>)
    ensures
        spec_u64_to_le_bytes(value).len() == 8,
        parse_u64(spec_u64_to_le_bytes(value) + rest) == Parsed::Done(value, 8),
{
    lemma_auto_spec_u64_to_from_le_bytes();
    lemma_behind(spec_u64_to_le_bytes(value), rest);
}

/// A text that was written is read back, whatever follows it.
pub proof fn lemma_parse_text(text: Seq<char>, rest: Seq<u8>)
    requires
        text_fits(text),
    ensures
        parse_text(serialize_text(text) + rest) == Parsed::Done(
            text,
            serialize_text(text).len(),
        ),
{
    reveal(parse_text);
    let raw = encode_utf8(text);
    let head = spec_u64_to_le_bytes(raw.len() as u64);
    let bytes = serialize_text(text) + rest;
    lemma_regroup(head, raw, rest);
    lemma_parse_u64(raw.len() as u64, raw + rest);
    lemma_behind(head, raw + rest);
    assert(bytes.subrange(8, 8 + raw.len() as int) =~= raw);
    encode_utf8_valid_utf8(text);
    encode_utf8_decode_utf8(text);
}

/// An optional text that was written is read back, whatever follows it.
pub proof fn lemma_parse_optional(text: Option<Seq<char>>, rest: Seq<u8>)
    requires
        optional_fits(text),
    ensures
        parse_optional(serialize_optional(text) + rest) == Parsed::Done(
            text,
            serialize_optional(text).len(),
        ),
{
    reveal(parse_optional);
    match text {
        None => {},
        Some(inner) => {
            lemma_regroup(seq![1u8], serialize_text(inner), rest);
            lemma_behind(seq![1u8], serialize_text(inner) + rest);
            lemma_parse_text(inner, rest);
        },
    }
}

/// A user that was written is read back, whatever follows it.
pub proof fn lemma_parse_user(user: UserView, rest: Seq<u8>)
    requires
        user_fits(user),
    ensures
        parse_user(serialize_user(user) + rest) == Parsed::Done(user, serialize_user(user).len()),
{
    reveal(parse_user);
    let a = serialize_text(user.username);
    let b = serialize_optional(user.color);
    let c = serialize_optional(user.avatar);
    let bytes = serialize_user(user) + rest;
    assert(bytes =~= a + (b + (c + rest)));
    lemma_parse_text(user.username, b + (c + rest));
    lemma_behind(a, b + (c + rest));
    lemma_parse_optional(user.color, c + rest);
    assert(bytes.skip((a.len() + b.len()) as int) =~= c + rest);
    lemma_parse_optional(user.avatar, rest);
}

/// A message that was written is read back, whatever follows it.
pub proof fn lemma_parse_message(message: MessageView, rest: Seq<u8>)
    requires
        message_fits(message),
        is_date_time_text(message.created),
    ensures
        parse_message(serialize_message(message) + rest) == Parsed::Done(
            message,
            serialize_message(message).len(),
        ),
{
    reveal(parse_message);
    reveal(parse_timestamp);
    let a = serialize_user(message.from);
    let b = serialize_text(message.channel);
    let c = serialize_text(message.body);
    let d = serialize_text(message.created);
    let bytes = serialize_message(message) + rest;
    assert(bytes =~= a + (b + (c + (d + rest))));
    lemma_parse_user(message.from, b + (c + (d + rest)));
    lemma_behind(a, b + (c + (d + rest)));
    lemma_parse_text(message.channel, c + (d + rest));
    assert(bytes.skip((a.len() + b.len()) as int) =~= c + (d + rest));
    lemma_parse_text(message.body, d + rest);
    assert(bytes.skip((a.len() + b.len() + c.len()) as int) =~= d + rest);
    lemma_parse_text(message.created, rest);
}

/// Messages that were written one after the other are read back, whatever
/// follows them.
pub proof fn lemma_parse_message_run(messages: Seq<MessageView>, rest: Seq<u8>)
    requires
        forall|i: int| 0 <= i < messages.len() ==> message_fits(#[trigger] messages[i]),
        messages_timely(messages),
    ensures
        parse_message_run(serialize_message_run(messages) + rest, messages.len()) == Parsed::Done(
            messages,
            serialize_message_run(messages).len(),
        ),
    decreases messages.len(),
{
    if messages.len() > 0 {
        let front = messages.drop_last();
        let last = messages.last();
        let a = serialize_message_run(front);
        let b = serialize_message(last);
        let bytes = serialize_message_run(messages) + rest;
        lemma_regroup(a, b, rest);
        lemma_parse_message_run(front, b + rest);
        lemma_behind(a, b + rest);
        lemma_parse_message(last, rest);
        assert(front.push(last) =~= messages);
    } else {
        assert(messages =~= Seq::empty());
    }
}

/// A list of messages that was written is read back, whatever follows it.
pub proof fn lemma_parse_messages(messages: Seq<MessageView>, rest: Seq<u8>)
    requires
        messages_fit(messages),
        messages_timely(messages),
    ensures
        parse_messages(serialize_messages(messages) + rest) == Parsed::Done(
            messages,
            serialize_messages(messages).len(),
        ),
{
    reveal(parse_messages);
    let head = spec_u64_to_le_bytes(messages.len() as u64);
    let run = serialize_message_run(messages);
    lemma_regroup(head, run, rest);
    lemma_parse_u64(messages.len() as u64, run + rest);
    lemma_behind(head, run + rest);
    lemma_parse_message_run(messages, rest);
}

/// A channel that was written is read back, whatever follows it.
pub proof fn lemma_parse_channel(channel: ChannelView, rest: Seq<u8>)
    requires
        channel_fits(channel),
        messages_timely(channel.messages),
    ensures
        parse_channel(serialize_channel(channel) + rest) == Parsed::Done(
            channel,
            serialize_channel(channel).len(),
        ),
{
    reveal(parse_channel);
    let a = serialize_text(channel.name);
    let b = serialize_messages(channel.messages);
    let c = serialize_optional(channel.cover);
    let bytes = serialize_channel(channel) + rest;
    assert(bytes =~= a + (b + (c + rest)));
    lemma_parse_text(channel.name, b + (c + rest));
    lemma_behind(a, b + (c + rest));
    lemma_parse_messages(channel.messages, c + rest);
    assert(bytes.skip((a.len() + b.len()) as int) =~= c + rest);
    lemma_parse_optional(channel.cover, rest);
}

/// Channels that were written one after the other are read back, whatever
/// follows them.
pub proof fn lemma_parse_channel_run(channels: Seq<ChannelView>, rest: Seq<u8>)
    requires
        forall|i: int| 0 <= i < channels.len() ==> channel_fits(#[trigger] channels[i]),
        channels_timely(channels),
    ensures
        parse_channel_run(serialize_channel_run(channels) + rest, channels.len()) == Parsed::Done(
            channels,
            serialize_channel_run(channels).len(),
        ),
    decreases channels.len(),
{
    if channels.len() > 0 {
        let front = channels.drop_last();
        let last = channels.last();
        let a = serialize_channel_run(front);
        let b = serialize_channel(last);
        lemma_regroup(a, b, rest);
        lemma_parse_channel_run(front, b + rest);
        lemma_behind(a, b + rest);
        lemma_parse_channel(last, rest);
        assert(front.push(last) =~= channels);
    } else {
        assert(channels =~= Seq::empty());
    }
}

/// A list of channels that was written is read back, whatever follows it.
pub proof fn lemma_parse_channels(channels: Seq<ChannelView>, rest: Seq<u8>)
    requires
        channels_fit(channels),
        channels_timely(channels),
    ensures
        parse_channels(serialize_channels(channels) + rest) == Parsed::Done(
            channels,
            serialize_channels(channels).len(),
        ),
{
    reveal(parse_channels);
    let head = spec_u64_to_le_bytes(channels.len() as u64);
    let run = serialize_channel_run(channels);
    lemma_regroup(head, run, rest);
    lemma_parse_u64(channels.len() as u64, run + rest);
    lemma_behind(head, run + rest);
    lemma_parse_channel_run(channels, rest);
}

/// Every representable frame is read back from its bytes, whatever follows
/// them: reading takes exactly the bytes of the frame and gives the frame.
pub proof fn law_round_trip(frame: FrameView, rest: Seq<u8>)
    requires
        representable(frame),
    ensures
        parse_frame(serialize_frame(frame) + rest) == Parsed::Done(
            frame,
            serialize_frame(frame).len(),
        ),
{
    reveal(parse_frame);
    reveal(parse_fields);
    let tag = spec_u32_to_le_bytes(variant_of(frame));
    let fields = serialize_fields(frame);
    lemma_regroup(tag, fields, rest);
    lemma_parse_u32(variant_of(frame), fields + rest);
    lemma_behind(tag, fields + rest);
    match frame {
        FrameView::Authorize(user) => lemma_parse_user(user, rest),
        FrameView::Connect(channels) => lemma_parse_channels(channels, rest),
        FrameView::Message(message) => lemma_parse_message(message, rest),
        FrameView::Bulk(messages, channels) => {
            let a = serialize_messages(messages);
            let b = serialize_channels(channels);
            lemma_regroup(a, b, rest);
            lemma_parse_messages(messages, b + rest);
            lemma_behind(a, b + rest);
            lemma_parse_channels(channels, rest);
        },
        FrameView::Channel(channel) => lemma_parse_channel(channel, rest),
        FrameView::Okay => {
            assert(fields + rest =~= rest);
        },
        FrameView::Error(reason) => lemma_parse_text(reason, rest),
        FrameView::Disconnect(user) => lemma_parse_user(user, rest),
    }
}

// What is read was written.

/// Two stretches of some bytes, one behind the other, are one stretch.
pub proof fn lemma_stretch(bytes: Seq<u8>, first: int, second: int)
    requires
        0 <= first,
        0 <= second,
        first + second <= bytes.len(),
    ensures
        bytes.subrange(0, first) + bytes.skip(first).subrange(0, second) == bytes.subrange(
            0,
            first + second,
        ),
{
    assert(bytes.subrange(0, first) + bytes.skip(first).subrange(0, second) =~= bytes.subrange(
        0,
        first + second,
    ));
}

/// A text that is read is the text that its bytes are the writing of.
pub proof fn lemma_text_was_written(bytes: Seq<u8>)
    ensures
        parse_text(bytes) matches Parsed::Done(text, n) ==> n <= bytes.len() && text_fits(text)
            && serialize_text(text) == bytes.subrange(0, n as int),
{
    reveal(parse_text);
    if let Parsed::Done(text, n) = parse_text(bytes) {
        let head = bytes.subrange(0, 8);
        let len = spec_u64_from_le_bytes(head);
        let raw = bytes.subrange(8, 8 + len);
        lemma_auto_spec_u64_to_from_le_bytes();
        decode_utf8_encode_utf8(raw);
        assert(spec_u64_to_le_bytes(spec_u64_from_le_bytes(head)) == head);
        assert(head + raw =~= bytes.subrange(0, n as int));
    }
}

/// An optional text that is read is the one that its bytes are the writing
/// of.
pub proof fn lemma_optional_was_written(bytes: Seq<u8>)
    ensures
        parse_optional(bytes) matches Parsed::Done(text, n) ==> n <= bytes.len() && optional_fits(
            text,
        ) && serialize_optional(text) == bytes.subrange(0, n as int),
{
    reveal(parse_optional);
    if let Parsed::Done(text, n) = parse_optional(bytes) {
        match text {
            None => {
                assert(seq![0u8] =~= bytes.subrange(0, 1));
            },
            Some(inner) => {
                lemma_text_was_written(bytes.skip(1));
                assert(seq![1u8] =~= bytes.subrange(0, 1));
                lemma_stretch(bytes, 1, n - 1);
            },
        }
    }
}

/// A user that is read is the one that its bytes are the writing of.
pub proof fn lemma_user_was_written(bytes: Seq<u8>)
    ensures
        parse_user(bytes) matches Parsed::Done(user, n) ==> n <= bytes.len() && user_fits(user)
            && serialize_user(user) == bytes.subrange(0, n as int),
{
    reveal(parse_user);
    if let Parsed::Done(user, n) = parse_user(bytes) {
        lemma_text_was_written(bytes);
        let n1 = parse_text(bytes)->Done_1;
        lemma_optional_was_written(bytes.skip(n1 as int));
        let n2 = parse_optional(bytes.skip(n1 as int))->Done_1;
        lemma_optional_was_written(bytes.skip((n1 + n2) as int));
        let n3 = parse_optional(bytes.skip((n1 + n2) as int))->Done_1;
        lemma_stretch(bytes, n1 as int, n2 as int);
        lemma_stretch(bytes, (n1 + n2) as int, n3 as int);
    }
}

/// A message that is read is the one that its bytes are the writing of, and
/// its timestamp is a date and time.
pub proof fn lemma_message_was_written(bytes: Seq<u8>)
    ensures
        parse_message(bytes) matches Parsed::Done(message, n) ==> n <= bytes.len() && message_fits(
            message,
        ) && is_date_time_text(message.created) && serialize_message(message) == bytes.subrange(
            0,
            n as int,
        ),
{
    reveal(parse_message);
    reveal(parse_timestamp);
    if let Parsed::Done(message, n) = parse_message(bytes) {
        lemma_user_was_written(bytes);
        let n1 = parse_user(bytes)->Done_1;
        lemma_text_was_written(bytes.skip(n1 as int));
        let n2 = parse_text(bytes.skip(n1 as int))->Done_1;
        lemma_text_was_written(bytes.skip((n1 + n2) as int));
        let n3 = parse_text(bytes.skip((n1 + n2) as int))->Done_1;
        lemma_text_was_written(bytes.skip((n1 + n2 + n3) as int));
        let n4 = parse_text(bytes.skip((n1 + n2 + n3) as int))->Done_1;
        lemma_stretch(bytes, n1 as int, n2 as int);
        lemma_stretch(bytes, (n1 + n2) as int, n3 as int);
        lemma_stretch(bytes, (n1 + n2 + n3) as int, n4 as int);
    }
}

/// Messages that are read one after the other are the ones that their
/// bytes are the writing of.
pub proof fn lemma_message_run_was_written(bytes: Seq<u8>, count: nat)
    ensures
        parse_message_run(bytes, count) matches Parsed::Done(messages, n) ==> n <= bytes.len()
            && messages.len() == count && messages_timely(messages) && (forall|i: int|
            0 <= i < messages.len() ==> message_fits(#[trigger] messages[i]))
            && serialize_message_run(messages) == bytes.subrange(0, n as int),
    decreases count,
{
    if let Parsed::Done(messages, n) = parse_message_run(bytes, count) {
        if count == 0 {
            assert(serialize_message_run(messages) =~= bytes.subrange(0, 0));
        } else {
            lemma_message_run_was_written(bytes, (count - 1) as nat);
            let front = parse_message_run(bytes, (count - 1) as nat)->Done_0;
            let n1 = parse_message_run(bytes, (count - 1) as nat)->Done_1;
            lemma_message_was_written(bytes.skip(n1 as int));
            let last = parse_message(bytes.skip(n1 as int))->Done_0;
            let n2 = parse_message(bytes.skip(n1 as int))->Done_1;
            assert(messages.drop_last() =~= front);
            lemma_stretch(bytes, n1 as int, n2 as int);
        }
    }
}

/// A list of messages that is read is the one that its bytes are the
/// writing of.
pub proof fn lemma_messages_were_written(bytes: Seq<u8>)
    ensures
        parse_messages(bytes) matches Parsed::Done(messages, n) ==> n <= bytes.len()
            && messages_fit(messages) && messages_timely(messages) && serialize_messages(messages)
            == bytes.subrange(0, n as int),
{
    reveal(parse_messages);
    if let Parsed::Done(messages, n) = parse_messages(bytes) {
        let head = bytes.subrange(0, 8);
        let count = spec_u64_from_le_bytes(head);
        lemma_auto_spec_u64_to_from_le_bytes();
        assert(spec_u64_to_le_bytes(spec_u64_from_le_bytes(head)) == head);
        lemma_message_run_was_written(bytes.skip(8), count as nat);
        lemma_stretch(bytes, 8, n - 8);
    }
}

/// A channel that is read is the one that its bytes are the writing of.
pub proof fn lemma_channel_was_written(bytes: Seq<u8>)
    ensures
        parse_channel(bytes) matches Parsed::Done(channel, n) ==> n <= bytes.len() && channel_fits(
            channel,
        ) && messages_timely(channel.messages) && serialize_channel(channel) == bytes.subrange(
            0,
            n as int,
        ),
{
    reveal(parse_channel);
    if let Parsed::Done(channel, n) = parse_channel(bytes) {
        lemma_text_was_written(bytes);
        let n1 = parse_text(bytes)->Done_1;
        lemma_messages_were_written(bytes.skip(n1 as int));
        let n2 = parse_messages(bytes.skip(n1 as int))->Done_1;
        lemma_optional_was_written(bytes.skip((n1 + n2) as int));
        let n3 = parse_optional(bytes.skip((n1 + n2) as int))->Done_1;
        lemma_stretch(bytes, n1 as int, n2 as int);
        lemma_stretch(bytes, (n1 + n2) as int, n3 as int);
    }
}

/// Channels that are read one after the other are the ones that their
/// bytes are the writing of.
pub proof fn lemma_channel_run_was_written(bytes: Seq<u8>, count: nat)
    ensures
        parse_channel_run(bytes, count) matches Parsed::Done(channels, n) ==> n <= bytes.len()
            && channels.len() == count && channels_timely(channels) && (forall|i: int|
            0 <= i < channels.len() ==> channel_fits(#[trigger] channels[i]))
            && serialize_channel_run(channels) == bytes.subrange(0, n as int),
    decreases count,
{
    if let Parsed::Done(channels, n) = parse_channel_run(bytes, count) {
        if count == 0 {
            assert(serialize_channel_run(channels) =~= bytes.subrange(0, 0));
        } else {
            lemma_channel_run_was_written(bytes, (count - 1) as nat);
            let front = parse_channel_run(bytes, (count - 1) as nat)->Done_0;
            let n1 = parse_channel_run(bytes, (count - 1) as nat)->Done_1;
            lemma_channel_was_written(bytes.skip(n1 as int));
            let n2 = parse_channel(bytes.skip(n1 as int))->Done_1;
            assert(channels.drop_last() =~= front);
            lemma_stretch(bytes, n1 as int, n2 as int);
        }
    }
}

/// A list of channels that is read is the one that its bytes are the
/// writing of.
pub proof fn lemma_channels_were_written(bytes: Seq<u8>)
    ensures
        parse_channels(bytes) matches Parsed::Done(channels, n) ==> n <= bytes.len()
            && channels_fit(channels) && channels_timely(channels) && serialize_channels(channels)
            == bytes.subrange(0, n as int),
{
    reveal(parse_channels);
    if let Parsed::Done(channels, n) = parse_channels(bytes) {
        let head = bytes.subrange(0, 8);
        let count = spec_u64_from_le_bytes(head);
        lemma_auto_spec_u64_to_from_le_bytes();
        assert(spec_u64_to_le_bytes(spec_u64_from_le_bytes(head)) == head);
        lemma_channel_run_was_written(bytes.skip(8), count as nat);
        lemma_stretch(bytes, 8, n - 8);
    }
}

/// A frame that is read from some bytes is representable, and the bytes that
/// were read are its bytes: no other bytes are read as that frame.
pub proof fn law_read_was_written(bytes: Seq<u8>)
    ensures
        parse_frame(bytes) matches Parsed::Done(frame, n) ==> n <= bytes.len() && representable(
            frame,
        ) && serialize_frame(frame) == bytes.subrange(0, n as int),
{
    reveal(parse_frame);
    reveal(parse_fields);
    if let Parsed::Done(frame, n) = parse_frame(bytes) {
        let head = bytes.subrange(0, 4);
        let variant = spec_u32_from_le_bytes(head);
        let rest = bytes.skip(4);
        lemma_auto_spec_u32_to_from_le_bytes();
        assert(spec_u32_to_le_bytes(spec_u32_from_le_bytes(head)) == head);
        match frame {
            FrameView::Authorize(_) => lemma_user_was_written(rest),
            FrameView::Connect(_) => lemma_channels_were_written(rest),
            FrameView::Message(_) => lemma_message_was_written(rest),
            FrameView::Bulk(_, _) => {
                lemma_messages_were_written(rest);
                let n1 = parse_messages(rest)->Done_1;
                lemma_channels_were_written(rest.skip(n1 as int));
                let n2 = parse_channels(rest.skip(n1 as int))->Done_1;
                lemma_stretch(rest, n1 as int, n2 as int);
            },
            FrameView::Channel(_) => lemma_channel_was_written(rest),
            FrameView::Okay => {
                assert(serialize_fields(frame) =~= rest.subrange(0, 0));
            },
            FrameView::Error(_) => lemma_text_was_written(rest),
            FrameView::Disconnect(_) => lemma_user_was_written(rest),
        }
        lemma_stretch(bytes, 4, n - 4);
    }
}

// What has not wholly arrived.

/// A cut within the front of two runs of bytes is a cut of the front.
pub proof fn lemma_cut_front(front: Seq<u8>, back: Seq<u8>, k: int)
    requires
        0 <= k <= front.len(),
    ensures
        (front + back).take(k) == front.take(k),
{
    assert((front + back).take(k) =~= front.take(k));
}

/// A cut within the back of two runs of bytes leaves the front whole.
pub proof fn lemma_cut_back(front: Seq<u8>, back: Seq<u8>, k: int)
    requires
        front.len() <= k <= front.len() + back.len(),
    ensures
        (front + back).take(k) == front + back.take(k - front.len()),
{
    assert((front + back).take(k) =~= front + back.take(k - front.len()));
}

/// The start of the bytes of a text, short of all of them, is incomplete.
pub proof fn lemma_text_cut(text: Seq<char>, k: int)
    requires
        text_fits(text),
        0 <= k < serialize_text(text).len(),
    ensures
        parse_text(serialize_text(text).take(k)) == Parsed::<Seq<char>>::Incomplete,
{
    reveal(parse_text);
    let raw = encode_utf8(text);
    let head = spec_u64_to_le_bytes(raw.len() as u64);
    lemma_auto_spec_u64_to_from_le_bytes();
    if k >= 8 {
        lemma_cut_back(head, raw, k);
        lemma_parse_u64(raw.len() as u64, raw.take(k - 8));
    }
}

/// The start of the bytes of an optional text, short of all of them, is
/// incomplete.
pub proof fn lemma_optional_cut(text: Option<Seq<char>>, k: int)
    requires
        optional_fits(text),
        0 <= k < serialize_optional(text).len(),
    ensures
        parse_optional(serialize_optional(text).take(k)) == Parsed::<
            Option<Seq<char>>,
        >::Incomplete,
{
    reveal(parse_optional);
    match text {
        None => {},
        Some(inner) => {
            if k >= 1 {
                lemma_cut_back(seq![1u8], serialize_text(inner), k);
                lemma_behind(seq![1u8], serialize_text(inner).take(k - 1));
                lemma_text_cut(inner, k - 1);
            }
        },
    }
}

/// The start of the bytes of a user, short of all of them, is incomplete.
pub proof fn lemma_user_cut(user: UserView, k: int)
    requires
        user_fits(user),
        0 <= k < serialize_user(user).len(),
    ensures
        parse_user(serialize_user(user).take(k)) == Parsed::<UserView>::Incomplete,
{
    reveal(parse_user);
    let a = serialize_text(user.username);
    let b = serialize_optional(user.color);
    let c = serialize_optional(user.avatar);
    let cut = serialize_user(user).take(k);
    if k < a.len() {
        lemma_cut_front(a, b + c, k);
        assert(cut =~= a.take(k));
        lemma_text_cut(user.username, k);
    } else if k < a.len() + b.len() {
        let rest = b.take(k - a.len());
        assert(cut =~= a + rest);
        lemma_parse_text(user.username, rest);
        lemma_behind(a, rest);
        lemma_optional_cut(user.color, k - a.len());
    } else {
        let rest = c.take(k - a.len() - b.len());
        assert(cut =~= a + (b + rest));
        lemma_parse_text(user.username, b + rest);
        lemma_behind(a, b + rest);
        lemma_parse_optional(user.color, rest);
        assert(cut.skip((a.len() + b.len()) as int) =~= rest);
        lemma_optional_cut(user.avatar, k - a.len() - b.len());
    }
}

/// The start of the bytes of a message, short of all of them, is
/// incomplete.
pub proof fn lemma_message_cut(message: MessageView, k: int)
    requires
        message_fits(message),
        0 <= k < serialize_message(message).len(),
    ensures
        parse_message(serialize_message(message).take(k)) == Parsed::<MessageView>::Incomplete,
{
    reveal(parse_message);
    reveal(parse_timestamp);
    let a = serialize_user(message.from);
    let b = serialize_text(message.channel);
    let c = serialize_text(message.body);
    let d = serialize_text(message.created);
    let cut = serialize_message(message).take(k);
    if k < a.len() {
        assert(cut =~= a.take(k));
        lemma_user_cut(message.from, k);
    } else if k < a.len() + b.len() {
        let rest = b.take(k - a.len());
        assert(cut =~= a + rest);
        lemma_parse_user(message.from, rest);
        lemma_behind(a, rest);
        lemma_text_cut(message.channel, k - a.len());
    } else if k < a.len() + b.len() + c.len() {
        let rest = c.take(k - a.len() - b.len());
        assert(cut =~= a + (b + rest));
        lemma_parse_user(message.from, b + rest);
        lemma_behind(a, b + rest);
        lemma_parse_text(message.channel, rest);
        assert(cut.skip((a.len() + b.len()) as int) =~= rest);
        lemma_text_cut(message.body, k - a.len() - b.len());
    } else {
        let rest = d.take(k - a.len() - b.len() - c.len());
        assert(cut =~= a + (b + (c + rest)));
        lemma_parse_user(message.from, b + (c + rest));
        lemma_behind(a, b + (c + rest));
        lemma_parse_text(message.channel, c + rest);
        assert(cut.skip((a.len() + b.len()) as int) =~= c + rest);
        lemma_parse_text(message.body, rest);
        assert(cut.skip((a.len() + b.len() + c.len()) as int) =~= rest);
        lemma_text_cut(message.created, k - a.len() - b.len() - c.len());
    }
}

/// The start of the bytes of some messages, short of all of them, is
/// incomplete.
pub proof fn lemma_message_run_cut(messages: Seq<MessageView>, k: int)
    requires
        forall|i: int| 0 <= i < messages.len() ==> message_fits(#[trigger] messages[i]),
        messages_timely(messages),
        0 <= k < serialize_message_run(messages).len(),
    ensures
        parse_message_run(serialize_message_run(messages).take(k), messages.len()) == Parsed::<
            Seq<MessageView>,
        >::Incomplete,
    decreases messages.len(),
{
    if messages.len() > 0 {
        let front = messages.drop_last();
        let last = messages.last();
        let a = serialize_message_run(front);
        let b = serialize_message(last);
        let cut = serialize_message_run(messages).take(k);
        if k < a.len() {
            lemma_cut_front(a, b, k);
            lemma_message_run_cut(front, k);
        } else {
            let rest = b.take(k - a.len());
            lemma_cut_back(a, b, k);
            lemma_parse_message_run(front, rest);
            lemma_behind(a, rest);
            lemma_message_cut(last, k - a.len());
        }
    }
}

/// The start of the bytes of a list of messages, short of all of them, is
/// incomplete.
pub proof fn lemma_messages_cut(messages: Seq<MessageView>, k: int)
    requires
        messages_fit(messages),
        messages_timely(messages),
        0 <= k < serialize_messages(messages).len(),
    ensures
        parse_messages(serialize_messages(messages).take(k)) == Parsed::<
            Seq<MessageView>,
        >::Incomplete,
{
    reveal(parse_messages);
    let head = spec_u64_to_le_bytes(messages.len() as u64);
    let run = serialize_message_run(messages);
    lemma_auto_spec_u64_to_from_le_bytes();
    if k >= 8 {
        let rest = run.take(k - 8);
        lemma_cut_back(head, run, k);
        lemma_parse_u64(messages.len() as u64, rest);
        lemma_behind(head, rest);
        lemma_message_run_cut(messages, k - 8);
    }
}

/// The start of the bytes of a channel, short of all of them, is
/// incomplete.
pub proof fn lemma_channel_cut(channel: ChannelView, k: int)
    requires
        channel_fits(channel),
        messages_timely(channel.messages),
        0 <= k < serialize_channel(channel).len(),
    ensures
        parse_channel(serialize_channel(channel).take(k)) == Parsed::<ChannelView>::Incomplete,
{
    reveal(parse_channel);
    let a = serialize_text(channel.name);
    let b = serialize_messages(channel.messages);
    let c = serialize_optional(channel.cover);
    let cut = serialize_channel(channel).take(k);
    if k < a.len() {
        assert(cut =~= a.take(k));
        lemma_text_cut(channel.name, k);
    } else if k < a.len() + b.len() {
        let rest = b.take(k - a.len());
        assert(cut =~= a + rest);
        lemma_parse_text(channel.name, rest);
        lemma_behind(a, rest);
        lemma_messages_cut(channel.messages, k - a.len());
    } else {
        let rest = c.take(k - a.len() - b.len());
        assert(cut =~= a + (b + rest));
        lemma_parse_text(channel.name, b + rest);
        lemma_behind(a, b + rest);
        lemma_parse_messages(channel.messages, rest);
        assert(cut.skip((a.len() + b.len()) as int) =~= rest);
        lemma_optional_cut(channel.cover, k - a.len() - b.len());
    }
}

/// The start of the bytes of some channels, short of all of them, is
/// incomplete.
pub proof fn lemma_channel_run_cut(channels: Seq<ChannelView>, k: int)
    requires
        forall|i: int| 0 <= i < channels.len() ==> channel_fits(#[trigger] channels[i]),
        channels_timely(channels),
        0 <= k < serialize_channel_run(channels).len(),
    ensures
        parse_channel_run(serialize_channel_run(channels).take(k), channels.len()) == Parsed::<
            Seq<ChannelView>,
        >::Incomplete,
    decreases channels.len(),
{
    if channels.len() > 0 {
        let front = channels.drop_last();
        let last = channels.last();
        let a = serialize_channel_run(front);
        let b = serialize_channel(last);
        if k < a.len() {
            lemma_cut_front(a, b, k);
            lemma_channel_run_cut(front, k);
        } else {
            let rest = b.take(k - a.len());
            lemma_cut_back(a, b, k);
            lemma_parse_channel_run(front, rest);
            lemma_behind(a, rest);
            lemma_channel_cut(last, k - a.len());
        }
    }
}

/// The start of the bytes of a list of channels, short of all of them, is
/// incomplete.
pub proof fn lemma_channels_cut(channels: Seq<ChannelView>, k: int)
    requires
        channels_fit(channels),
        channels_timely(channels),
        0 <= k < serialize_channels(channels).len(),
    ensures
        parse_channels(serialize_channels(channels).take(k)) == Parsed::<
            Seq<ChannelView>,
        >::Incomplete,
{
    reveal(parse_channels);
    let head = spec_u64_to_le_bytes(channels.len() as u64);
    let run = serialize_channel_run(channels);
    lemma_auto_spec_u64_to_from_le_bytes();
    if k >= 8 {
        let rest = run.take(k - 8);
        lemma_cut_back(head, run, k);
        lemma_parse_u64(channels.len() as u64, rest);
        lemma_behind(head, rest);
        lemma_channel_run_cut(channels, k - 8);
    }
}

/// The start of the bytes of a representable frame, short of all of them, is
/// neither read as a frame nor refused: it is incomplete, so that a reader may
/// wait for the rest.
pub proof fn law_partial_frame_is_incomplete(frame: FrameView, k: int)
    requires
        representable(frame),
        0 <= k < serialize_frame(frame).len(),
    ensures
        parse_frame(serialize_frame(frame).take(k)) == Parsed::<FrameView>::Incomplete,
{
    reveal(parse_frame);
    reveal(parse_fields);
    let tag = spec_u32_to_le_bytes(variant_of(frame));
    let fields = serialize_fields(frame);
    lemma_auto_spec_u32_to_from_le_bytes();
    if k >= 4 {
        let rest = fields.take(k - 4);
        lemma_cut_back(tag, fields, k);
        lemma_parse_u32(variant_of(frame), rest);
        lemma_behind(tag, rest);
        match frame {
            FrameView::Authorize(user) => lemma_user_cut(user, k - 4),
            FrameView::Connect(channels) => lemma_channels_cut(channels, k - 4),
            FrameView::Message(message) => lemma_message_cut(message, k - 4),
            FrameView::Bulk(messages, channels) => {
                let a = serialize_messages(messages);
                let b = serialize_channels(channels);
                if k - 4 < a.len() {
                    lemma_cut_front(a, b, k - 4);
                    lemma_messages_cut(messages, k - 4);
                } else {
                    let tail = b.take(k - 4 - a.len());
                    lemma_cut_back(a, b, k - 4);
                    lemma_parse_messages(messages, tail);
                    lemma_behind(a, tail);
                    lemma_channels_cut(channels, k - 4 - a.len());
                }
            },
            FrameView::Channel(channel) => lemma_channel_cut(channel, k - 4),
            FrameView::Okay => {},
            FrameView::Error(reason) => lemma_text_cut(reason, k - 4),
            FrameView::Disconnect(user) => lemma_user_cut(user, k - 4),
        }
    }
}

/// A frame that is read from some bytes is read from them whatever arrives
/// behind them.
pub proof fn law_read_is_stable(bytes: Seq<u8>, more: Seq<u8>)
    ensures
        parse_frame(bytes) is Done ==> parse_frame(bytes + more) == parse_frame(bytes),
{
    if let Parsed::Done(frame, n) = parse_frame(bytes) {
        law_read_was_written(bytes);
        let written = serialize_frame(frame);
        assert(bytes =~= written + bytes.skip(n as int));
        assert(bytes + more =~= written + (bytes.skip(n as int) + more));
        law_round_trip(frame, bytes.skip(n as int) + more);
    }
}

// What more bytes can change.

/// What lies behind a place in some bytes, when more bytes arrive.
pub proof fn lemma_skip_grown(bytes: Seq<u8>, more: Seq<u8>, n: int)
    requires
        0 <= n <= bytes.len(),
    ensures
        (bytes + more).skip(n) == bytes.skip(n) + more,
{
    assert((bytes + more).skip(n) =~= bytes.skip(n) + more);
}

/// More bytes change neither a text that was read nor a refusal.
pub proof fn lemma_text_grown(bytes: Seq<u8>, more: Seq<u8>)
    ensures
        parse_text(bytes) is Done ==> parse_text(bytes + more) == parse_text(bytes),
        parse_text(bytes) is Invalid ==> parse_text(bytes + more) is Invalid,
{
    reveal(parse_text);
    if bytes.len() >= 8 {
        assert((bytes + more).subrange(0, 8) =~= bytes.subrange(0, 8));
        let len = spec_u64_from_le_bytes(bytes.subrange(0, 8));
        if bytes.len() - 8 >= len {
            assert((bytes + more).subrange(8, 8 + len) =~= bytes.subrange(8, 8 + len));
        }
    }
}

/// More bytes change neither an optional text that was read nor a refusal.
pub proof fn lemma_optional_grown(bytes: Seq<u8>, more: Seq<u8>)
    ensures
        parse_optional(bytes) is Done ==> parse_optional(bytes + more) == parse_optional(bytes),
        parse_optional(bytes) is Invalid ==> parse_optional(bytes + more) is Invalid,
{
    reveal(parse_optional);
    if bytes.len() >= 1 {
        lemma_skip_grown(bytes, more, 1);
        lemma_text_grown(bytes.skip(1), more);
    }
}

/// More bytes change neither a timestamp that was read nor a refusal.
pub proof fn lemma_timestamp_grown(bytes: Seq<u8>, more: Seq<u8>)
    ensures
        parse_timestamp(bytes) is Done ==> parse_timestamp(bytes + more) == parse_timestamp(bytes),
        parse_timestamp(bytes) is Invalid ==> parse_timestamp(bytes + more) is Invalid,
{
    reveal(parse_timestamp);
    lemma_text_grown(bytes, more);
}

/// More bytes change neither a user that was read nor a refusal.
pub proof fn lemma_user_grown(bytes: Seq<u8>, more: Seq<u8>)
    ensures
        parse_user(bytes) is Done ==> parse_user(bytes + more) == parse_user(bytes),
        parse_user(bytes) is Invalid ==> parse_user(bytes + more) is Invalid,
{
    reveal(parse_user);
    lemma_text_grown(bytes, more);
    lemma_text_was_written(bytes);
    if let Parsed::Done(_, n1) = parse_text(bytes) {
        lemma_skip_grown(bytes, more, n1 as int);
        lemma_optional_grown(bytes.skip(n1 as int), more);
        lemma_optional_was_written(bytes.skip(n1 as int));
        if let Parsed::Done(_, n2) = parse_optional(bytes.skip(n1 as int)) {
            lemma_skip_grown(bytes, more, (n1 + n2) as int);
            lemma_optional_grown(bytes.skip((n1 + n2) as int), more);
        }
    }
}

/// More bytes change neither a message that was read nor a refusal.
pub proof fn lemma_message_grown(bytes: Seq<u8>, more: Seq<u8>)
    ensures
        parse_message(bytes) is Done ==> parse_message(bytes + more) == parse_message(bytes),
        parse_message(bytes) is Invalid ==> parse_message(bytes + more) is Invalid,
{
    reveal(parse_message);
    lemma_user_grown(bytes, more);
    lemma_user_was_written(bytes);
    if let Parsed::Done(_, n1) = parse_user(bytes) {
        lemma_skip_grown(bytes, more, n1 as int);
        lemma_text_grown(bytes.skip(n1 as int), more);
        lemma_text_was_written(bytes.skip(n1 as int));
        if let Parsed::Done(_, n2) = parse_text(bytes.skip(n1 as int)) {
            lemma_skip_grown(bytes, more, (n1 + n2) as int);
            lemma_text_grown(bytes.skip((n1 + n2) as int), more);
            lemma_text_was_written(bytes.skip((n1 + n2) as int));
            if let Parsed::Done(_, n3) = parse_text(bytes.skip((n1 + n2) as int)) {
                lemma_skip_grown(bytes, more, (n1 + n2 + n3) as int);
                lemma_timestamp_grown(bytes.skip((n1 + n2 + n3) as int), more);
            }
        }
    }
}

/// More bytes change neither a run of messages that was read nor a refusal.
pub proof fn lemma_message_run_grown(bytes: Seq<u8>, more: Seq<u8>, count: nat)
    ensures
        parse_message_run(bytes, count) is Done ==> parse_message_run(bytes + more, count)
            == parse_message_run(bytes, count),
        parse_message_run(bytes, count) is Invalid ==> parse_message_run(bytes + more, count)
            is Invalid,
    decreases count,
{
    if count > 0 {
        lemma_message_run_grown(bytes, more, (count - 1) as nat);
        lemma_message_run_was_written(bytes, (count - 1) as nat);
        if let Parsed::Done(_, n) = parse_message_run(bytes, (count - 1) as nat) {
            lemma_skip_grown(bytes, more, n as int);
            lemma_message_grown(bytes.skip(n as int), more);
        }
    }
}

/// More bytes change neither a list of messages that was read nor a refusal.
pub proof fn lemma_messages_grown(bytes: Seq<u8>, more: Seq<u8>)
    ensures
        parse_messages(bytes) is Done ==> parse_messages(bytes + more) == parse_messages(bytes),
        parse_messages(bytes) is Invalid ==> parse_messages(bytes + more) is Invalid,
{
    reveal(parse_messages);
    if bytes.len() >= 8 {
        assert((bytes + more).subrange(0, 8) =~= bytes.subrange(0, 8));
        let count = spec_u64_from_le_bytes(bytes.subrange(0, 8));
        lemma_skip_grown(bytes, more, 8);
        lemma_message_run_grown(bytes.skip(8), more, count as nat);
    }
}

/// More bytes change neither a channel that was read nor a refusal.
pub proof fn lemma_channel_grown(bytes: Seq<u8>, more: Seq<u8>)
    ensures
        parse_channel(bytes) is Done ==> parse_channel(bytes + more) == parse_channel(bytes),
        parse_channel(bytes) is Invalid ==> parse_channel(bytes + more) is Invalid,
{
    reveal(parse_channel);
    lemma_text_grown(bytes, more);
    lemma_text_was_written(bytes);
    if let Parsed::Done(_, n1) = parse_text(bytes) {
        lemma_skip_grown(bytes, more, n1 as int);
        lemma_messages_grown(bytes.skip(n1 as int), more);
        lemma_messages_were_written(bytes.skip(n1 as int));
        if let Parsed::Done(_, n2) = parse_messages(bytes.skip(n1 as int)) {
            lemma_skip_grown(bytes, more, (n1 + n2) as int);
            lemma_optional_grown(bytes.skip((n1 + n2) as int), more);
        }
    }
}

/// More bytes change neither a run of channels that was read nor a refusal.
pub proof fn lemma_channel_run_grown(bytes: Seq<u8>, more: Seq<u8>, count: nat)
    ensures
        parse_channel_run(bytes, count) is Done ==> parse_channel_run(bytes + more, count)
            == parse_channel_run(bytes, count),
        parse_channel_run(bytes, count) is Invalid ==> parse_channel_run(bytes + more, count)
            is Invalid,
    decreases count,
{
    if count > 0 {
        lemma_channel_run_grown(bytes, more, (count - 1) as nat);
        lemma_channel_run_was_written(bytes, (count - 1) as nat);
        if let Parsed::Done(_, n) = parse_channel_run(bytes, (count - 1) as nat) {
            lemma_skip_grown(bytes, more, n as int);
            lemma_channel_grown(bytes.skip(n as int), more);
        }
    }
}

/// More bytes change neither a list of channels that was read nor a refusal.
pub proof fn lemma_channels_grown(bytes: Seq<u8>, more: Seq<u8>)
    ensures
        parse_channels(bytes) is Done ==> parse_channels(bytes + more) == parse_channels(bytes),
        parse_channels(bytes) is Invalid ==> parse_channels(bytes + more) is Invalid,
{
    reveal(parse_channels);
    if bytes.len() >= 8 {
        assert((bytes + more).subrange(0, 8) =~= bytes.subrange(0, 8));
        let count = spec_u64_from_le_bytes(bytes.subrange(0, 8));
        lemma_skip_grown(bytes, more, 8);
        lemma_channel_run_grown(bytes.skip(8), more, count as nat);
    }
}

/// Bytes that are refused stay refused: whatever arrives behind bytes that
/// are not the start of any frame, they are not the start of any frame. Only
/// what is incomplete can still become a frame.
pub proof fn law_refusal_is_final(bytes: Seq<u8>, more: Seq<u8>)
    ensures
        parse_frame(bytes) is Invalid ==> parse_frame(bytes + more) is Invalid,
{
    reveal(parse_frame);
    reveal(parse_fields);
    if bytes.len() >= 4 {
        assert((bytes + more).subrange(0, 4) =~= bytes.subrange(0, 4));
        let variant = spec_u32_from_le_bytes(bytes.subrange(0, 4));
        let rest = bytes.skip(4);
        lemma_skip_grown(bytes, more, 4);
        if variant == 0 || variant == 7 {
            lemma_user_grown(rest, more);
        } else if variant == 1 {
            lemma_channels_grown(rest, more);
        } else if variant == 2 {
            lemma_message_grown(rest, more);
        } else if variant == 3 {
            lemma_messages_grown(rest, more);
            lemma_messages_were_written(rest);
            if let Parsed::Done(_, n1) = parse_messages(rest) {
                lemma_skip_grown(rest, more, n1 as int);
                lemma_channels_grown(rest.skip(n1 as int), more);
            }
        } else if variant == 4 {
            lemma_channel_grown(rest, more);
        } else if variant == 6 {
            lemma_text_grown(rest, more);
        }
    }
}

} // verus!
