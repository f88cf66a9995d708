//! A minimal in-memory key-value server core speaking a textual, binary-safe
//! wire protocol, with a one-shot leader/follower replication bootstrap.
//!
//! The library is the verified core: the codec that frames values over a
//! byte stream, the keyspace with lazy time-based expiry, the command
//! dispatcher, and the replication handshake. Sockets, clocks and task
//! spawning live outside it and hand in plain bytes and millisecond
//! readings.

pub mod ascii;
pub mod codec_laws;
pub mod command;
pub mod decode;
pub mod replication;
pub mod resp;
pub mod server;
pub mod storage;
