//! Persistent state for a local cache-eviction agent.
//!
//! The library records, across process restarts, the last-use time of each
//! tracked artifact. It defines the in-memory state, the textual on-disk
//! schema (with a verified serializer and a strict, verified parser), and
//! the resolution of the platform's per-user data location.

pub mod codec;
pub mod digits;
pub mod locate;
pub mod state;
