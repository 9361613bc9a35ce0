//! Frames in the byte buffers of the `bytes` crate.

use crate::codec::{decode_frame, encode_frame};
use crate::errors::{ConnectionError, ProtocolError};
use crate::frame::Frame;
use crate::server::{Event, EventView};
use crate::wire::{frame_fits, parse_frame, serialize_frame, Parsed};
use bytes::{Buf, BufMut, Bytes, BytesMut};
use vstd::prelude::*;

verus! {

#[verifier::external_type_specification]
#[verifier::external_body]
pub struct ExBytes(bytes::Bytes);

#[verifier::external_type_specification]
#[verifier::external_body]
pub struct ExBytesMut(bytes::BytesMut);

/// The bytes that a `Bytes` holds, first to last.
pub uninterp spec fn bytes_content(buffer: Bytes) -> Seq<u8>;

/// The bytes that a `BytesMut` holds and has not yet given up, first to last.
pub uninterp spec fn buffer_content(buffer: BytesMut) -> Seq<u8>;

/// Calls `Bytes::from` on a `Vec<u8>`: the buffer takes the vector over and
/// holds its bytes.
#[verifier::external_body]
fn bytes_from_vec(data: Vec<u8>) -> (buffer: Bytes)
    ensures
        bytes_content(buffer) == data@,
{
    Bytes::from(data)
}

/// Calls `Bytes::as_ref`: the bytes of the buffer as a slice.
#[verifier::external_body]
fn bytes_as_slice(buffer: &Bytes) -> (data: &[u8])
    ensures
        data@ == bytes_content(*buffer),
{
    buffer.as_ref()
}

/// Calls `BytesMut::as_ref`: the bytes of the buffer as a slice.
#[verifier::external_body]
fn buffer_as_slice(buffer: &BytesMut) -> (data: &[u8])
    ensures
        data@ == buffer_content(*buffer),
{
    buffer.as_ref()
}

/// Calls `BufMut::put_slice` of `BytesMut`: `data` is added behind what the
/// buffer holds. It panics if the new length overflows `usize`, which the
/// precondition leaves out.
#[verifier::external_body]
fn buffer_put(buffer: &mut BytesMut, data: &[u8])
    requires
        buffer_content(*old(buffer)).len() + data@.len() <= usize::MAX,
    ensures
        buffer_content(*final(buffer)) == buffer_content(*old(buffer)) + data@,
{
    buffer.put_slice(data)
}

/// Calls `Buf::advance` of `BytesMut`: the buffer gives up its first `count`
/// bytes. It panics if the buffer holds fewer, which the precondition leaves
/// out.
#[verifier::external_body]
fn buffer_advance(buffer: &mut BytesMut, count: usize)
    requires
        count <= buffer_content(*old(buffer)).len(),
    ensures
        buffer_content(*final(buffer)) == buffer_content(*old(buffer)).skip(count as int),
{
    buffer.advance(count)
}

impl Frame {
    /// Reads the frame at the start of `value`; bytes behind it are passed
    /// over. Fails if `value` does not start with a whole frame.
    pub fn try_from(value: Bytes) -> (outcome: Result<Frame, ConnectionError>)
        ensures
            match parse_frame(bytes_content(value)) {
                Parsed::Done(frame, _) => outcome is Ok && outcome->Ok_0@ == frame,
                _ => outcome == Err::<Frame, ConnectionError>(ConnectionError::MessageParse),
            },
    {
        match decode_frame(bytes_as_slice(&value)) {
            Ok(Some((frame, _))) => Ok(frame),
            _ => Err(ConnectionError::MessageParse),
        }
    }

    /// The bytes of the frame. Every frame has them.
    pub fn try_into(self) -> (outcome: Result<Bytes, ConnectionError>)
        ensures
            outcome is Ok,
            bytes_content(outcome->Ok_0) == serialize_frame(self@),
            frame_fits(self@),
    {
        Ok(bytes_from_vec(encode_frame(&self)))
    }
}

/// The codec of the protocol for a stream of bytes: it writes frames behind
/// one another, and reads them one at a time from what has arrived.
#[derive(Debug)]
pub struct ChatCodec {}

impl ChatCodec {
    /// A codec. It keeps nothing between calls: what has arrived is in the
    /// buffer that it is handed.
    pub fn new() -> Self {
        ChatCodec {  }
    }

    /// Adds the bytes of `item` behind what `dst` holds. Fails, and leaves
    /// `dst` as it was, if the buffer would grow beyond what a length can
    /// count.
    pub fn encode(&mut self, item: Frame, dst: &mut BytesMut) -> (outcome: Result<
        (),
        ProtocolError,
    >)
        ensures
            outcome is Ok <==> buffer_content(*old(dst)).len() + serialize_frame(item@).len()
                <= usize::MAX,
            outcome is Ok ==> buffer_content(*final(dst)) == buffer_content(*old(dst))
                + serialize_frame(item@),
            outcome is Err ==> outcome == Err::<(), ProtocolError>(ProtocolError::Encode)
                && buffer_content(*final(dst)) == buffer_content(*old(dst)),
    {
        let frame = encode_frame(&item);
        let held = buffer_as_slice(dst).len();
        if frame.len() <= usize::MAX - held {
            buffer_put(dst, frame.as_slice());
            Ok(())
        } else {
            Err(ProtocolError::Encode)
        }
    }

    /// Reads the next event from what has arrived in `src`: the frame at its
    /// start, whose bytes are taken out of the buffer; nothing yet, if `src`
    /// ends before the frame does; or, if `src` is not the start of any
    /// frame, the arrival of bytes that are no frame, which are all dropped,
    /// since nothing in them says where a frame might begin.
    pub fn next_event(&mut self, src: &mut BytesMut) -> (event: Option<Event>)
        ensures
            match parse_frame(buffer_content(*old(src))) {
                Parsed::Done(frame, n) => event is Some && event->0@ == EventView::Frame(frame)
                    && buffer_content(*final(src)) == buffer_content(*old(src)).skip(n as int),
                Parsed::Incomplete => event is None && buffer_content(*final(src))
                    == buffer_content(*old(src)),
                Parsed::Invalid => event is Some && event->0@ == EventView::Malformed
                    && buffer_content(*final(src)) == Seq::<u8>::empty(),
            },
    {
        match self.decode(src) {
            Ok(Some(frame)) => Some(Event::Frame(frame)),
            Ok(None) => None,
            Err(_) => {
                let held = buffer_as_slice(src).len();
                buffer_advance(src, held);
                assert(buffer_content(*src) =~= Seq::<u8>::empty());
                Some(Event::Malformed)
            },
        }
    }

    /// Reads the frame at the start of `src` and takes its bytes out of the
    /// buffer. If `src` ends before the frame does, nothing is read and `src`
    /// is left as it was, so that more bytes may complete the frame. If `src`
    /// is not the start of any frame, that is an error, and `src` is left as
    /// it was.
    pub fn decode(&mut self, src: &mut BytesMut) -> (outcome: Result<Option<Frame>, ProtocolError>)
        ensures
            match parse_frame(buffer_content(*old(src))) {
                Parsed::Done(frame, n) => outcome is Ok && outcome->Ok_0 is Some
                    && outcome->Ok_0->0@ == frame && buffer_content(*final(src)) == buffer_content(
                    *old(src),
                ).skip(n as int),
                Parsed::Incomplete => outcome == Ok::<Option<Frame>, ProtocolError>(None)
                    && buffer_content(*final(src)) == buffer_content(*old(src)),
                Parsed::Invalid => outcome == Err::<Option<Frame>, ProtocolError>(
                    ProtocolError::Decode,
                ) && buffer_content(*final(src)) == buffer_content(*old(src)),
            },
    {
        match decode_frame(buffer_as_slice(src)) {
            Ok(Some((frame, len))) => {
                buffer_advance(src, len);
                Ok(Some(frame))
            },
            Ok(None) => Ok(None),
            Err(error) => Err(error),
        }
    }
}

} // verus!
