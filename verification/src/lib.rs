//! A chat relay: the frames that clients and server exchange, their binary
//! encoding, and the server's state machine (admission, channels, fan-out).
//!
//! - [`frame`] holds the values of the protocol, [`wire`] says what their
//!   bytes are, [`codec`] and [`buffer`] write and read them, and
//!   [`wire_laws`] proves that what is written is read back.
//! - [`server`] is the server as a state machine over [`registry`] and
//!   [`admission`]: it takes one event at a time and says which frames go
//!   where. [`laws`] proves what holds of it whatever happens.
//! - [`client`] is what a client keeps of a conversation.
//!
//! Nothing here touches the network: sockets, tasks and queues belong to the
//! program around the library.

pub mod addr;
pub mod admission;
pub mod buffer;
pub mod cli;
pub mod client;
pub mod codec;
pub mod display;
pub mod errors;
pub mod frame;
pub mod laws;
pub mod registry;
pub mod server;
pub mod time;
pub mod wire;
pub mod wire_laws;

pub use crate::addr::PeerAddr;
pub use crate::buffer::ChatCodec;
pub use crate::errors::{ConnectionError, ProtocolError, Result};
pub use crate::frame::{Channel, Frame, Message, User};
pub use crate::server::{Event, Outcome, Server};
