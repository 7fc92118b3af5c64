//! A verified core for a small Git-compatible object store: loose objects,
//! tree and commit codecs, packfile decoding and the pkt-line framing of the
//! smart HTTP protocol, all stated over plain byte sequences.

pub mod bytes;
pub mod clone;
pub mod commands;
pub mod common;
pub mod cursor;
pub mod digest;
pub mod error;
pub mod network;
pub mod obj_read;
pub mod obj_type;
pub mod obj_write;
pub mod round_trip;
pub mod store;
pub mod tree_entry;
pub mod tree_read;
pub mod tree_write;
pub mod unpack;
pub mod worktree;
pub mod zlib;
