//! Frames to bytes and back.

use crate::errors::ProtocolError;
use crate::frame::{Channel, Frame, FrameView, Message, User};
use crate::time::Timestamp;
use crate::wire::{
    channel_fits, channels_fit, frame_fits, message_fits, messages_fit, optional_fits,
    parse_channel, parse_channel_run, parse_channels, parse_fields, parse_frame, parse_message,
    parse_message_run, parse_messages, parse_optional, parse_text, parse_timestamp, parse_u32,
    parse_u64, parse_user, serialize_channel, serialize_channel_run, serialize_channels,
    serialize_frame, serialize_message, serialize_message_run, serialize_messages,
    serialize_optional, serialize_text, serialize_user, text_fits, user_fits, Parsed,
};
use vstd::bytes::{
    spec_u32_to_le_bytes, spec_u64_to_le_bytes, u32_from_le_bytes, u32_to_le_bytes,
    u64_from_le_bytes, u64_to_le_bytes,
};
use vstd::prelude::*;
use vstd::slice::slice_subrange;
use vstd::utf8::{encode_utf8, encode_utf8_decode_utf8, valid_utf8};

verus! {

/// Adds `bytes` at the end of `out`.
fn append(out: &mut Vec<u8>, bytes: &[u8])
    ensures
        final(out)@ == old(out)@ + bytes@,
{
    let mut i: usize = 0;
    while i < bytes.len()
        invariant
            i <= bytes.len(),
            out@ == old(out)@ + bytes@.take(i as int),
        decreases bytes.len() - i,
    {
        out.push(bytes[i]);
        i += 1;
        assert(out@ =~= old(out)@ + bytes@.take(i as int));
    }
    assert(bytes@.take(i as int) =~= bytes@);
}

/// Writes a `u32`.
fn write_u32(out: &mut Vec<u8>, value: u32)
    ensures
        final(out)@ == old(out)@ + spec_u32_to_le_bytes(value),
{
    let bytes = u32_to_le_bytes(value);
    append(out, bytes.as_slice());
}

/// Writes a `u64`.
fn write_u64(out: &mut Vec<u8>, value: u64)
    ensures
        final(out)@ == old(out)@ + spec_u64_to_le_bytes(value),
{
    let bytes = u64_to_le_bytes(value);
    append(out, bytes.as_slice());
}

/// Writes a text.
fn write_text(out: &mut Vec<u8>, text: &str)
    ensures
        final(out)@ == old(out)@ + serialize_text(text@),
        text_fits(text@),
{
    let raw = text.as_bytes();
    write_u64(out, raw.len() as u64);
    append(out, raw);
    assert(out@ =~= old(out)@ + serialize_text(text@));
}

/// Writes an optional text.
fn write_optional(out: &mut Vec<u8>, text: &Option<String>)
    ensures
        final(out)@ == old(out)@ + serialize_optional(text.deep_view()),
        optional_fits(text.deep_view()),
{
    match text {
        None => {
            out.push(0);
            assert(out@ =~= old(out)@ + serialize_optional(text.deep_view()));
        },
        Some(text) => {
            out.push(1);
            write_text(out, text.as_str());
            assert(out@ =~= old(out)@ + (seq![1u8] + serialize_text(text@)));
        },
    }
}

/// Writes a user.
fn write_user(out: &mut Vec<u8>, user: &User)
    ensures
        final(out)@ == old(out)@ + serialize_user(user@),
        user_fits(user@),
{
    write_text(out, user.username.as_str());
    write_optional(out, &user.color);
    write_optional(out, &user.avatar);
    assert(out@ =~= old(out)@ + serialize_user(user@));
}

/// Writes a message.
fn write_message(out: &mut Vec<u8>, message: &Message)
    ensures
        final(out)@ == old(out)@ + serialize_message(message@),
        message_fits(message@),
{
    write_user(out, &message.from);
    write_text(out, message.channel.as_str());
    write_text(out, message.body.as_str());
    write_text(out, message.created.as_str());
    assert(out@ =~= old(out)@ + serialize_message(message@));
}

/// Writes a list of messages.
fn write_messages(out: &mut Vec<u8>, messages: &Vec<Message>)
    ensures
        final(out)@ == old(out)@ + serialize_messages(messages.deep_view()),
        messages_fit(messages.deep_view()),
{
    let ghost all = messages.deep_view();
    write_u64(out, messages.len() as u64);
    let ghost head = out@;
    let mut i: usize = 0;
    while i < messages.len()
        invariant
            i <= messages.len(),
            all == messages.deep_view(),
            out@ == head + serialize_message_run(all.take(i as int)),
            forall|k: int| 0 <= k < i ==> message_fits(#[trigger] all[k]),
        decreases messages.len() - i,
    {
        assert(all.take(i + 1).drop_last() =~= all.take(i as int));
        assert(all.take(i + 1).last() == messages[i as int]@);
        write_message(out, &messages[i]);
        i += 1;
        assert(out@ =~= head + serialize_message_run(all.take(i as int)));
    }
    assert(all.take(i as int) =~= all);
    assert(out@ =~= old(out)@ + serialize_messages(all));
}

/// Writes a channel.
fn write_channel(out: &mut Vec<u8>, channel: &Channel)
    ensures
        final(out)@ == old(out)@ + serialize_channel(channel@),
        channel_fits(channel@),
{
    write_text(out, channel.name.as_str());
    write_messages(out, &channel.messages);
    write_optional(out, &channel.cover);
    assert(out@ =~= old(out)@ + serialize_channel(channel@));
}

/// Writes a list of channels.
fn write_channels(out: &mut Vec<u8>, channels: &Vec<Channel>)
    ensures
        final(out)@ == old(out)@ + serialize_channels(channels.deep_view()),
        channels_fit(channels.deep_view()),
{
    let ghost all = channels.deep_view();
    write_u64(out, channels.len() as u64);
    let ghost head = out@;
    let mut i: usize = 0;
    while i < channels.len()
        invariant
            i <= channels.len(),
            all == channels.deep_view(),
            out@ == head + serialize_channel_run(all.take(i as int)),
            forall|k: int| 0 <= k < i ==> channel_fits(#[trigger] all[k]),
        decreases channels.len() - i,
    {
        assert(all.take(i + 1).drop_last() =~= all.take(i as int));
        assert(all.take(i + 1).last() == channels[i as int]@);
        write_channel(out, &channels[i]);
        i += 1;
        assert(out@ =~= head + serialize_channel_run(all.take(i as int)));
    }
    assert(all.take(i as int) =~= all);
    assert(out@ =~= old(out)@ + serialize_channels(all));
}

/// The bytes of `frame`. Every frame has them, and its lengths fit the
/// numbers that hold them.
pub fn encode_frame(frame: &Frame) -> (bytes: Vec<u8>)
    ensures
        bytes@ == serialize_frame(frame@),
        frame_fits(frame@),
{
    let mut out: Vec<u8> = Vec::new();
    match frame {
        Frame::Authorize(user) => {
            write_u32(&mut out, 0);
            write_user(&mut out, user);
        },
        Frame::Connect(channels) => {
            write_u32(&mut out, 1);
            write_channels(&mut out, channels);
        },
        Frame::Message(message) => {
            write_u32(&mut out, 2);
            write_message(&mut out, message);
        },
        Frame::Bulk(messages, channels) => {
            write_u32(&mut out, 3);
            write_messages(&mut out, messages);
            write_channels(&mut out, channels);
        },
        Frame::Channel(channel) => {
            write_u32(&mut out, 4);
            write_channel(&mut out, channel);
        },
        Frame::Okay => {
            write_u32(&mut out, 5);
        },
        Frame::Error(reason) => {
            write_u32(&mut out, 6);
            write_text(&mut out, reason.as_str());
        },
        Frame::Disconnect(user) => {
            write_u32(&mut out, 7);
            write_user(&mut out, user);
        },
    }
    assert(out@ =~= serialize_frame(frame@));
    out
}

/// Why reading stopped short of a value.
#[derive(Clone, Copy, Debug, PartialEq, Eq, Structural)]
enum Stop {
    /// The bytes end before the value does.
    Incomplete,
    /// The bytes are not the start of any value.
    Invalid,
}

/// Whether `outcome`, a reading that began at `at`, is what `parsed` says of
/// the bytes from there on: the same value and the place behind it, or the
/// same failure.
spec fn reads<T: DeepView>(
    outcome: Result<(T, usize), Stop>,
    parsed: Parsed<T::V>,
    at: usize,
) -> bool {
    match (outcome, parsed) {
        (Ok((read, next)), Parsed::Done(value, n)) => read.deep_view() == value && next == at + n,
        (Err(Stop::Incomplete), Parsed::Incomplete) => true,
        (Err(Stop::Invalid), Parsed::Invalid) => true,
        _ => false,
    }
}

/// Calls `core::str::from_utf8`: the text that `bytes` are in UTF-8, if they
/// are well formed.
#[verifier::external_body]
fn utf8_text(bytes: &[u8]) -> (text: Option<&str>)
    ensures
        text is Some <==> valid_utf8(bytes@),
        text is Some ==> encode_utf8(text->0@) == bytes@,
{
    core::str::from_utf8(bytes).ok()
}

/// Reads a `u32` at `at`.
fn read_u32(data: &[u8], at: usize) -> (outcome: Result<(u32, usize), Stop>)
    requires
        at <= data.len(),
    ensures
        reads(outcome, parse_u32(data@.skip(at as int)), at),
        outcome matches Ok((_, next)) ==> at <= next <= data.len(),
{
    if data.len() - at < 4 {
        return Err(Stop::Incomplete);
    }
    let value = u32_from_le_bytes(slice_subrange(data, at, at + 4));
    assert(data@.subrange(at as int, at + 4) =~= data@.skip(at as int).subrange(0, 4));
    Ok((value, at + 4))
}

/// Reads a `u64` at `at`.
fn read_u64(data: &[u8], at: usize) -> (outcome: Result<(u64, usize), Stop>)
    requires
        at <= data.len(),
    ensures
        reads(outcome, parse_u64(data@.skip(at as int)), at),
        outcome matches Ok((_, next)) ==> at <= next <= data.len(),
{
    if data.len() - at < 8 {
        return Err(Stop::Incomplete);
    }
    let value = u64_from_le_bytes(slice_subrange(data, at, at + 8));
    assert(data@.subrange(at as int, at + 8) =~= data@.skip(at as int).subrange(0, 8));
    Ok((value, at + 8))
}

/// Reads a text at `at`.
fn read_text(data: &[u8], at: usize) -> (outcome: Result<(String, usize), Stop>)
    requires
        at <= data.len(),
    ensures
        reads(outcome, parse_text(data@.skip(at as int)), at),
        outcome matches Ok((_, next)) ==> at <= next <= data.len(),
{
    reveal(parse_text);
    let (len, start) = match read_u64(data, at) {
        Ok(read) => read,
        Err(stop) => {
            return Err(stop);
        },
    };
    if ((data.len() - start) as u64) < len {
        return Err(Stop::Incomplete);
    }
    let end = start + len as usize;
    let raw = slice_subrange(data, start, end);
    assert(raw@ =~= data@.skip(at as int).subrange(8, 8 + len));
    match utf8_text(raw) {
        Some(text) => {
            proof {
                encode_utf8_decode_utf8(text@);
            }
            Ok((text.to_owned(), end))
        },
        None => Err(Stop::Invalid),
    }
}

/// Reads an optional text at `at`.
fn read_optional(data: &[u8], at: usize) -> (outcome: Result<(Option<String>, usize), Stop>)
    requires
        at <= data.len(),
    ensures
        reads(outcome, parse_optional(data@.skip(at as int)), at),
        outcome matches Ok((_, next)) ==> at <= next <= data.len(),
{
    reveal(parse_optional);
    if data.len() - at < 1 {
        return Err(Stop::Incomplete);
    }
    let tag = data[at];
    assert(data@.skip(at as int).skip(1) =~= data@.skip(at + 1));
    if tag == 0 {
        Ok((None, at + 1))
    } else if tag == 1 {
        match read_text(data, at + 1) {
            Ok((text, next)) => Ok((Some(text), next)),
            Err(stop) => Err(stop),
        }
    } else {
        Err(Stop::Invalid)
    }
}

/// Reads a timestamp at `at`.
fn read_timestamp(data: &[u8], at: usize) -> (outcome: Result<(Timestamp, usize), Stop>)
    requires
        at <= data.len(),
    ensures
        reads(outcome, parse_timestamp(data@.skip(at as int)), at),
        outcome matches Ok((_, next)) ==> at <= next <= data.len(),
{
    reveal(parse_timestamp);
    match read_text(data, at) {
        Ok((text, next)) => match Timestamp::parse(text.as_str()) {
            Some(stamp) => Ok((stamp, next)),
            None => Err(Stop::Invalid),
        },
        Err(stop) => Err(stop),
    }
}

/// Reads a user at `at`.
fn read_user(data: &[u8], at: usize) -> (outcome: Result<(User, usize), Stop>)
    requires
        at <= data.len(),
    ensures
        reads(outcome, parse_user(data@.skip(at as int)), at),
        outcome matches Ok((_, next)) ==> at <= next <= data.len(),
{
    reveal(parse_user);
    let ghost bytes = data@.skip(at as int);
    let (username, at1) = match read_text(data, at) {
        Ok(read) => read,
        Err(stop) => {
            return Err(stop);
        },
    };
    assert(bytes.skip(at1 - at) =~= data@.skip(at1 as int));
    let (color, at2) = match read_optional(data, at1) {
        Ok(read) => read,
        Err(stop) => {
            return Err(stop);
        },
    };
    assert(bytes.skip(at2 - at) =~= data@.skip(at2 as int));
    let (avatar, at3) = match read_optional(data, at2) {
        Ok(read) => read,
        Err(stop) => {
            return Err(stop);
        },
    };
    Ok((User { username, color, avatar }, at3))
}

/// Reads a message at `at`.
fn read_message(data: &[u8], at: usize) -> (outcome: Result<(Message, usize), Stop>)
    requires
        at <= data.len(),
    ensures
        reads(outcome, parse_message(data@.skip(at as int)), at),
        outcome matches Ok((_, next)) ==> at <= next <= data.len(),
{
    reveal(parse_message);
    let ghost bytes = data@.skip(at as int);
    let (from, at1) = match read_user(data, at) {
        Ok(read) => read,
        Err(stop) => {
            return Err(stop);
        },
    };
    assert(bytes.skip(at1 - at) =~= data@.skip(at1 as int));
    let (channel, at2) = match read_text(data, at1) {
        Ok(read) => read,
        Err(stop) => {
            return Err(stop);
        },
    };
    assert(bytes.skip(at2 - at) =~= data@.skip(at2 as int));
    let (body, at3) = match read_text(data, at2) {
        Ok(read) => read,
        Err(stop) => {
            return Err(stop);
        },
    };
    assert(bytes.skip(at3 - at) =~= data@.skip(at3 as int));
    let (created, at4) = match read_timestamp(data, at3) {
        Ok(read) => read,
        Err(stop) => {
            return Err(stop);
        },
    };
    Ok((Message { from, channel, body, created }, at4))
}

/// Once a run of messages cannot be read, no longer run can.
proof fn lemma_message_run_fails(bytes: Seq<u8>, short: nat, long: nat)
    requires
        short <= long,
        !(parse_message_run(bytes, short) is Done),
    ensures
        parse_message_run(bytes, long) == parse_message_run(bytes, short),
    decreases long,
{
    if short < long {
        lemma_message_run_fails(bytes, short, (long - 1) as nat);
    }
}

/// Once a run of channels cannot be read, no longer run can.
proof fn lemma_channel_run_fails(bytes: Seq<u8>, short: nat, long: nat)
    requires
        short <= long,
        !(parse_channel_run(bytes, short) is Done),
    ensures
        parse_channel_run(bytes, long) == parse_channel_run(bytes, short),
    decreases long,
{
    if short < long {
        lemma_channel_run_fails(bytes, short, (long - 1) as nat);
    }
}

/// Reads a list of messages at `at`.
fn read_messages(data: &[u8], at: usize) -> (outcome: Result<(Vec<Message>, usize), Stop>)
    requires
        at <= data.len(),
    ensures
        reads(outcome, parse_messages(data@.skip(at as int)), at),
        outcome matches Ok((_, next)) ==> at <= next <= data.len(),
{
    reveal(parse_messages);
    let (count, start) = match read_u64(data, at) {
        Ok(read) => read,
        Err(stop) => {
            return Err(stop);
        },
    };
    let ghost bytes = data@.skip(start as int);
    assert(data@.skip(at as int).skip(8) =~= bytes);
    let mut messages: Vec<Message> = Vec::new();
    let mut next = start;
    let mut i: u64 = 0;
    assert(messages.deep_view() =~= Seq::empty());
    while i < count
        invariant
            i <= count,
            at <= start <= next <= data.len(),
            bytes == data@.skip(start as int),
            bytes == data@.skip(at as int).skip(8),
            parse_u64(data@.skip(at as int)) == Parsed::Done(count, 8),
            parse_message_run(bytes, i as nat) == Parsed::Done(
                messages.deep_view(),
                (next - start) as nat,
            ),
        decreases count - i,
    {
        assert(bytes.skip(next - start) =~= data@.skip(next as int));
        match read_message(data, next) {
            Ok((message, behind)) => {
                let ghost before = messages.deep_view();
                messages.push(message);
                assert(messages.deep_view() =~= before.push(message@));
                next = behind;
                i += 1;
            },
            Err(stop) => {
                proof {
                    reveal(parse_messages);
                    lemma_message_run_fails(bytes, (i + 1) as nat, count as nat);
                }
                return Err(stop);
            },
        }
    }
    Ok((messages, next))
}

/// Reads a channel at `at`.
fn read_channel(data: &[u8], at: usize) -> (outcome: Result<(Channel, usize), Stop>)
    requires
        at <= data.len(),
    ensures
        reads(outcome, parse_channel(data@.skip(at as int)), at),
        outcome matches Ok((_, next)) ==> at <= next <= data.len(),
{
    reveal(parse_channel);
    let ghost bytes = data@.skip(at as int);
    let (name, at1) = match read_text(data, at) {
        Ok(read) => read,
        Err(stop) => {
            return Err(stop);
        },
    };
    assert(bytes.skip(at1 - at) =~= data@.skip(at1 as int));
    let (messages, at2) = match read_messages(data, at1) {
        Ok(read) => read,
        Err(stop) => {
            return Err(stop);
        },
    };
    assert(bytes.skip(at2 - at) =~= data@.skip(at2 as int));
    let (cover, at3) = match read_optional(data, at2) {
        Ok(read) => read,
        Err(stop) => {
            return Err(stop);
        },
    };
    Ok((Channel { name, messages, cover }, at3))
}

/// Reads a list of channels at `at`.
fn read_channels(data: &[u8], at: usize) -> (outcome: Result<(Vec<Channel>, usize), Stop>)
    requires
        at <= data.len(),
    ensures
        reads(outcome, parse_channels(data@.skip(at as int)), at),
        outcome matches Ok((_, next)) ==> at <= next <= data.len(),
{
    reveal(parse_channels);
    let (count, start) = match read_u64(data, at) {
        Ok(read) => read,
        Err(stop) => {
            return Err(stop);
        },
    };
    let ghost bytes = data@.skip(start as int);
    assert(data@.skip(at as int).skip(8) =~= bytes);
    let mut channels: Vec<Channel> = Vec::new();
    let mut next = start;
    let mut i: u64 = 0;
    assert(channels.deep_view() =~= Seq::empty());
    while i < count
        invariant
            i <= count,
            at <= start <= next <= data.len(),
            bytes == data@.skip(start as int),
            bytes == data@.skip(at as int).skip(8),
            parse_u64(data@.skip(at as int)) == Parsed::Done(count, 8),
            parse_channel_run(bytes, i as nat) == Parsed::Done(
                channels.deep_view(),
                (next - start) as nat,
            ),
        decreases count - i,
    {
        assert(bytes.skip(next - start) =~= data@.skip(next as int));
        match read_channel(data, next) {
            Ok((channel, behind)) => {
                let ghost before = channels.deep_view();
                channels.push(channel);
                assert(channels.deep_view() =~= before.push(channel@));
                next = behind;
                i += 1;
            },
            Err(stop) => {
                proof {
                    reveal(parse_channels);
                    lemma_channel_run_fails(bytes, (i + 1) as nat, count as nat);
                }
                return Err(stop);
            },
        }
    }
    Ok((channels, next))
}

/// Reads a frame at `at`.
fn read_frame(data: &[u8], at: usize) -> (outcome: Result<(Frame, usize), Stop>)
    requires
        at <= data.len(),
    ensures
        reads(outcome, parse_frame(data@.skip(at as int)), at),
        outcome matches Ok((_, next)) ==> at <= next <= data.len(),
{
    reveal(parse_frame);
    reveal(parse_fields);
    let (variant, start) = match read_u32(data, at) {
        Ok(read) => read,
        Err(stop) => {
            return Err(stop);
        },
    };
    let ghost bytes = data@.skip(start as int);
    assert(data@.skip(at as int).skip(4) =~= bytes);
    if variant == 0 {
        match read_user(data, start) {
            Ok((user, next)) => Ok((Frame::Authorize(user), next)),
            Err(stop) => Err(stop),
        }
    } else if variant == 1 {
        match read_channels(data, start) {
            Ok((channels, next)) => Ok((Frame::Connect(channels), next)),
            Err(stop) => Err(stop),
        }
    } else if variant == 2 {
        match read_message(data, start) {
            Ok((message, next)) => Ok((Frame::Message(message), next)),
            Err(stop) => Err(stop),
        }
    } else if variant == 3 {
        let (messages, middle) = match read_messages(data, start) {
            Ok(read) => read,
            Err(stop) => {
                return Err(stop);
            },
        };
        assert(bytes.skip(middle - start) =~= data@.skip(middle as int));
        match read_channels(data, middle) {
            Ok((channels, next)) => Ok((Frame::Bulk(messages, channels), next)),
            Err(stop) => Err(stop),
        }
    } else if variant == 4 {
        match read_channel(data, start) {
            Ok((channel, next)) => Ok((Frame::Channel(channel), next)),
            Err(stop) => Err(stop),
        }
    } else if variant == 5 {
        Ok((Frame::Okay, start))
    } else if variant == 6 {
        match read_text(data, start) {
            Ok((reason, next)) => Ok((Frame::Error(reason), next)),
            Err(stop) => Err(stop),
        }
    } else if variant == 7 {
        match read_user(data, start) {
            Ok((user, next)) => Ok((Frame::Disconnect(user), next)),
            Err(stop) => Err(stop),
        }
    } else {
        Err(Stop::Invalid)
    }
}

/// Whether `outcome` is what `parsed` says of some bytes: the frame and the
/// number of bytes that hold it, nothing yet if the bytes end too early,
/// and an error if they are no frame.
pub open spec fn decodes(
    outcome: Result<Option<(Frame, usize)>, ProtocolError>,
    parsed: Parsed<FrameView>,
) -> bool {
    match (outcome, parsed) {
        (Ok(Some((frame, len))), Parsed::Done(view, n)) => frame@ == view && len == n,
        (Ok(None), Parsed::Incomplete) => true,
        (Err(ProtocolError::Decode), Parsed::Invalid) => true,
        _ => false,
    }
}

/// Reads one frame from the start of `data`.
///
/// Gives the frame and the number of bytes that hold it; `None` if `data`
/// ends before the frame does, so that more bytes may complete it; and an
/// error if `data` is not the start of any frame.
pub fn decode_frame(data: &[u8]) -> (outcome: Result<Option<(Frame, usize)>, ProtocolError>)
    ensures
        decodes(outcome, parse_frame(data@)),
        outcome matches Ok(Some((_, len))) ==> len <= data@.len(),
{
    assert(data@.skip(0) =~= data@);
    match read_frame(data, 0) {
        Ok((frame, next)) => Ok(Some((frame, next))),
        Err(Stop::Incomplete) => Ok(None),
        Err(Stop::Invalid) => Err(ProtocolError::Decode),
    }
}

} // verus!
