//! Verified core of a line-oriented log-ingestion server: it splits a
//! connection's byte stream into newline-delimited messages, trims them and
//! drops empty ones, stamps each accepted message with a UTC timestamp, and
//! lays complete `[timestamp] message` lines end to end in an append-only
//! log, which concurrent writers may never interleave.

pub mod conn;
pub mod messages;
pub mod server;
pub mod sink;
pub mod timestamp;
