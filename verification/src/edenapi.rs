//! The types in which ids, hashes and keys travel between a client and a
//! server, and their forms on the wire.

pub mod anyid;
pub mod metadata;
pub mod wire;
