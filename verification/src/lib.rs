//! The core of a small in-memory key-value server that speaks a line-framed,
//! length-prefixed wire protocol, keeps strings that may expire and append-only streams,
//! and replicates its writes from a primary to its replicas.
//!
//! Nothing here touches a socket, a clock or a thread: bytes and times come in as plain
//! values, and what is to be sent goes out as plain values. Every function is verified
//! against its contract, and the modules `roundtrip` and `guarantees` hold what is proved
//! of the whole.
pub mod bytes;
pub mod connection;
pub mod guarantees;
pub mod handler;
pub mod parse;
pub mod persistence;
pub mod roundtrip;
pub mod server;
