//! The segment store: an append-only log of segment records with two
//! indexes that are derived from the records. `index` holds the model
//! of the indexes, `log` what is relied on of the log, `indexedlog_store`
//! the store, and `partition` the law that the flat segments of a group
//! stay a partition of its ids.

pub mod index;
pub mod indexedlog_store;
pub mod log;
pub mod partition;
