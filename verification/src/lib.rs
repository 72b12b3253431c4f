//! Decoder for a node's persisted transaction-pool snapshot: a binary dump
//! holding a format version, an optional byte-wise obfuscation key, a declared
//! transaction count, and that many entries, each a serialized transaction
//! followed by a first-seen timestamp and a fee-priority delta.
//!
//! `stream` holds the positional XOR cipher and the reader that applies it;
//! `mempool` holds the record types and the streaming decoder; `laws` states
//! and proves the dump-level properties of the decoder.

pub mod laws;
pub mod mempool;
pub mod stream;
