//! Core of a persistent key-value store backed by an append-only log of
//! JSON-encoded records, with an in-memory index rebuilt by replaying the
//! log, lazy time-to-live (TTL) expiration, and log compaction.
//!
//! The library is pure with respect to the outside world: commands are
//! applied in two phases (plan a [`kv::Step`], then [`kv::Step::commit`] it
//! once the planned records are durably appended), the clock is sampled by
//! the caller and passed in as plain epoch seconds, and log lines travel as
//! `String`s. File handles, the real clock, and the interactive loop live in
//! the thin host program around this crate.

pub mod codec;
pub mod config;
pub mod index;
pub mod kv;
pub mod command;
pub mod digits;
pub mod model;
pub mod time;
