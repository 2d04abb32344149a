//! Segmented changelog: an index over a commit graph whose vertexes are
//! numbered densely, so that long linear runs of commits collapse into
//! single segments and ancestry questions are answered on segments rather
//! than on commits.
//!
//! Executable code in this crate carries contracts that are checked by Verus.
//!
//! The graph of ids is in `iddag`, with the sets of ids, the descendants,
//! the places of ids and the segments above the flat ones in `idset`,
//! `descendants`, `place` and `levels`. The names of the ids are in `idmap`. The records of segments
//! are in `segment`, and the log that stores them, with its indexes, in
//! `iddagstore`. `read_only` answers the questions of clients, `update`
//! adds vertexes, and `on_demand` and `walk` decide how a changelog grows
//! when a question needs it to.

pub mod descendants;
pub mod edenapi;
pub mod endian;
pub mod id;
pub mod iddag;
pub mod iddagstore;
pub mod idmap;
pub mod idset;
pub mod levels;
pub mod lex;
pub mod on_demand;
pub mod place;
pub mod read_only;
pub mod segment;
pub mod storekey;
pub mod text;
pub mod update;
pub mod varint;
pub mod walk;
