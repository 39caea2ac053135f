//! The wire protocol: frames on a byte stream, the pluggable message
//! decoder, the mappings between messages and the engine's records, and
//! what a session does with what it receives.

pub mod frame;
pub mod messages;
pub mod session;

pub use self::frame::{FrameDecoder, ProtocolDecoder};
