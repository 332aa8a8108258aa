//! Phrase dictionary layer of a phonetic-input engine.
//!
//! A read-only backing store of phrase records is combined with a mutable
//! in-memory overlay of user edits and a tombstone set of soft deletions,
//! exposed through one merged query surface.

pub mod codec;
pub mod kv;
pub mod order;
pub mod phrase;
pub mod selector;
