use vstd::prelude::*;

pub mod frame;
pub mod message;
pub mod ws_stream;

pub use frame::{Frame, FrameHeader, ProtocolError};
pub use message::Message;
pub use ws_stream::{HandshakeError, WSStream};

verus! {

/// Opcode of a continuation frame in a fragmented message.
pub const CONTINUE: u8 = 0x0;
/// Opcode of a text data frame.
pub const TEXT: u8 = 0x1;
/// Opcode of a binary data frame.
pub const BYTES: u8 = 0x2;
/// Opcode of a close control frame.
pub const CLOSE: u8 = 0x8;
/// Opcode of a ping control frame.
pub const PING: u8 = 0x9;
/// Opcode of a pong control frame.
pub const PONG: u8 = 0xA;

} // verus!
