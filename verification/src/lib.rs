//! The server side of a binary game-network protocol: a variable-length
//! integer codec, length-prefixed packet framing, a recursive binary tag
//! serialization format with a JSON importer, a typed outgoing-packet
//! builder, and the per-connection state machine that drives a handshake,
//! status queries, a custom login sequence and the in-world credential
//! commands. Every function here carries a contract; network transport and
//! the credential store backend live outside, behind plain-value interfaces.

pub mod error;
pub mod fbits;
pub mod json;
pub mod nbt;
pub mod packet;
pub mod protocol;
pub mod session;
pub mod store;
pub mod text;
pub mod varint;
