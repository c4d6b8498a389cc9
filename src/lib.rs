//! A line-based chat broadcast server's logic: the frame codec, the
//! registry of live connections, the per-connection handshake, and the
//! delivery pass that fans one message out to every connection.

pub mod codec;
pub mod fanout;
pub mod registry;
pub mod session;
