//! A small Redis-style key/value server core: the RESP frame codec, command
//! decoding, the in-memory store with expirations, and the append-only log
//! that makes the store durable.

pub mod protocol;
pub mod command;
pub mod store;
pub mod aof;
pub mod engine;
