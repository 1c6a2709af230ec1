//! Inter-process messaging: the message types, their receiver-side validation, the codec's
//! framing rules and the handshake's decisions.

pub mod codec;
pub mod handshake;
pub mod message;
pub mod validate;
