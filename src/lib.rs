//! Streaming decoder for the UBX binary framing protocol: a pluggable byte
//! buffer, a parser that carries partial frames across feed calls, and a
//! frame-scanning iterator that validates and resynchronises.

pub mod buffer;
pub mod frame;
pub mod laws;
pub mod parser;

pub use buffer::{FixedLinearBuffer, UnderlyingBuffer};
pub use frame::{PacketRef, ParserError, MAX_PAYLOAD_LEN, SYNC_CHAR_1, SYNC_CHAR_2};
pub use parser::{Parser, ParserIter};
