//! An embedded, log-structured key-value storage engine.
//!
//! Writes are appended as immutable rows to numbered segments; an in-memory
//! key directory maps each key to the location of its most recent value.
//! The engine state is rebuilt from the segments by replaying them in order,
//! so the directory is always reconstructible from the log alone.
//!
//! The segment contents live in memory here; reading segment files from a
//! data directory and appending the encoded rows back to them is left to the
//! embedding program, which hands complete segment byte vectors in and
//! receives the bytes to append back out.

pub mod codec;
pub mod errors;
pub mod keydir;
pub mod paths;
pub mod store;
