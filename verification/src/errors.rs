//! What can go wrong between the wire and the server.

use vstd::prelude::*;

verus! {

/// A failure of the codec.
#[derive(Clone, Copy, Debug, PartialEq, Eq, Structural)]
pub enum ProtocolError {
    /// The transport refused the bytes of a frame.
    Encode,
    /// The bytes are no frame.
    Decode,
    /// A value could not be written as bytes.
    Serialize,
}

impl ProtocolError {
    /// The error in words.
    pub open spec fn message(self) -> Seq<char> {
        match self {
            ProtocolError::Encode => "frame encode error"@,
            ProtocolError::Decode => "frame decode error"@,
            ProtocolError::Serialize => "unable to serialize value"@,
        }
    }

    /// The error in words.
    pub fn to_string(&self) -> (text: String)
        ensures
            text@ == self.message(),
    {
        match self {
            ProtocolError::Encode => String::from_str("frame encode error"),
            ProtocolError::Decode => String::from_str("frame decode error"),
            ProtocolError::Serialize => String::from_str("unable to serialize value"),
        }
    }
}

/// What the codec gives: a value, or why there is none.
pub type Result<T> = std::result::Result<T, ProtocolError>;

/// A failure of a connection.
#[derive(Clone, Copy, Debug, PartialEq, Eq, Structural)]
pub enum ConnectionError {
    /// The address to listen on could not be had.
    AlreadyInUse,
    /// The codec failed.
    Parse(ProtocolError),
    /// The peer has not said who it is.
    Unauthorized,
    /// The bytes are no frame, or the frame is no message.
    MessageParse,
    /// Tracing could not be set up.
    TracingError,
}

impl ConnectionError {
    /// The error in words.
    pub open spec fn message(self) -> Seq<char> {
        match self {
            ConnectionError::AlreadyInUse => "unable listen to adderss"@,
            ConnectionError::Parse(_) => "frame parsing error"@,
            ConnectionError::Unauthorized => "peer is not authorized"@,
            ConnectionError::MessageParse => "mesage parsing error"@,
            ConnectionError::TracingError => "failed to establish tracing"@,
        }
    }

    /// The error in words.
    pub fn to_string(&self) -> (text: String)
        ensures
            text@ == self.message(),
    {
        match self {
            ConnectionError::AlreadyInUse => String::from_str("unable listen to adderss"),
            ConnectionError::Parse(_) => String::from_str("frame parsing error"),
            ConnectionError::Unauthorized => String::from_str("peer is not authorized"),
            ConnectionError::MessageParse => String::from_str("mesage parsing error"),
            ConnectionError::TracingError => String::from_str("failed to establish tracing"),
        }
    }
}

} // verus!
