//! The map between the names of vertexes and their ids.

pub mod mem_idmap;
