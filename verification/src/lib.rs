//! Message framing for a request/response protocol carried over a byte stream.
//!
//! A frame is a self-delimiting run of bytes: every variable-length part is
//! preceded by its length as a big-endian `u32`. The codecs decide whether a
//! whole frame has arrived, take exactly that frame out of the accumulation
//! buffer, and write frames for outgoing messages.

pub mod buffer;
pub mod error;
pub mod framing;
pub mod request;
pub mod response;
pub mod text;
pub mod wire;
