//! A verified core for a small RESP (REdis Serialization Protocol) server:
//! a codec between wire bytes and typed values, a key-value store, and a
//! dispatcher for the PING / ECHO / GET / SET command set.
//!
//! Everything here is pure computation on bytes and values; sockets and
//! task spawning live outside the library.

pub mod num;
pub mod resp;
pub mod parse;
pub mod laws;
pub mod store;
pub mod handler;
