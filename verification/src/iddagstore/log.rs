//! The log that holds the records, and what this library relies on of it.
//!
//! The log comes from the `indexedlog` crate. Nothing in this file is
//! proved: each function states what the crate's documentation and source
//! say of the method it calls, over the contents of the log and over the
//! model of the indexes in `index`.

use super::index::group_parent_index;
use super::index::group_parent_ops;
use super::index::level_head_ops;
use super::index::index_state;
use super::index::key_in_range;
use crate::lex::key_le;
use super::index::level_head_index;
use super::index::lookup;
use super::index::IndexOp;
use super::index::IndexState;
use indexedlog::log::IndexOutput;
use indexedlog::log::Log;
use indexedlog::log::OpenOptions;
use indexedlog::Error;
use vstd::prelude::*;

verus! {

#[verifier::external_type_specification]
#[verifier::external_body]
pub struct ExLog(Log);

#[verifier::external_type_specification]
#[verifier::external_body]
pub struct ExError(Error);

#[verifier::external_type_specification]
#[verifier::external_body]
pub struct ExIndexOutput(IndexOutput);

/// The records that the log holds, in the order in which they were
/// appended: those on disk as this value of the log has seen them, then
/// those appended to it since.
pub uninterp spec fn log_entries(log: Log) -> Seq<Seq<u8>>;

/// How many of the records of the log are on disk.
pub uninterp spec fn log_clean_len(log: Log) -> nat;

/// Whether the log was opened at a directory with the options of
/// `log_open`: index 0 is computed by `level_head_index`, index 1 by
/// `group_parent_index`, and nothing is written to disk but by `Log::sync`.
pub uninterp spec fn log_is_segment_log(log: Log) -> bool;

/// Keys with the records found under them, as a scan of an index hands
/// them out.
pub type Scan = Seq<(Seq<u8>, Seq<Seq<u8>>)>;

/// Whether `scan` holds exactly the keys of `m` from `low` to `high`,
/// both included, in the order of the keys and each with its records.
pub open spec fn is_range_scan(scan: Scan, m: IndexState, low: Seq<u8>, high: Seq<u8>) -> bool {
    &&& forall|i: int|
        0 <= i < scan.len() ==> m.dom().contains((#[trigger] scan[i]).0) && key_in_range(
            scan[i].0,
            low,
            high,
            true,
        ) && scan[i].1 == m[scan[i].0]
    &&& forall|i: int, j: int|
        0 <= i < j < scan.len() ==> key_le((#[trigger] scan[i]).0, (#[trigger] scan[j]).0)
            && scan[i].0 != scan[j].0
    &&& forall|k: Seq<u8>|
        #[trigger] m.dom().contains(k) && key_in_range(k, low, high, true) ==> exists|i: int|
            0 <= i < scan.len() && (#[trigger] scan[i]).0 == k
}

/// Whether `key` is the first key of `m` from `low` to `high`.
pub open spec fn is_first_key(m: IndexState, low: Seq<u8>, high: Seq<u8>, key: Seq<u8>) -> bool {
    &&& m.dom().contains(key)
    &&& key_in_range(key, low, high, true)
    &&& forall|k: Seq<u8>|
        #[trigger] m.dom().contains(k) && key_in_range(k, low, high, true) ==> key_le(key, k)
}

/// Whether `key` is the last key of `m` from `low` to `high`.
pub open spec fn is_last_key(m: IndexState, low: Seq<u8>, high: Seq<u8>, key: Seq<u8>) -> bool {
    &&& m.dom().contains(key)
    &&& key_in_range(key, low, high, true)
    &&& forall|k: Seq<u8>|
        #[trigger] m.dom().contains(k) && key_in_range(k, low, high, true) ==> key_le(k, key)
}

/// Whether `m` has no key from `low` to `high`.
pub open spec fn no_key_in_range(m: IndexState, low: Seq<u8>, high: Seq<u8>) -> bool {
    forall|k: Seq<u8>| #[trigger] m.dom().contains(k) ==> !key_in_range(k, low, high, true)
}

/// One variant of `indexedlog::log::IndexOutput` for each variant of
/// `IndexOp`, with the same key or the same part of the record.
#[verifier::external_body]
fn index_output(op: IndexOp) -> IndexOutput {
    match op {
        IndexOp::Reference { start, end } => IndexOutput::Reference(start..end),
        IndexOp::Owned(key) => IndexOutput::Owned(key.into_boxed_slice()),
        IndexOp::Remove(key) => IndexOutput::Remove(key.into_boxed_slice()),
        IndexOp::RemovePrefix(prefix) => IndexOutput::RemovePrefix(prefix.into_boxed_slice()),
    }
}

/// The operations `ops` in the form in which the log takes them.
fn index_outputs(ops: Vec<IndexOp>) -> (outputs: Vec<IndexOutput>)
    ensures
        outputs@.len() == ops@.len(),
{
    let mut outputs: Vec<IndexOutput> = Vec::new();
    let mut ops = ops;
    let ghost n = ops@.len();
    while ops.len() > 0
        invariant
            outputs@.len() + ops@.len() == n,
        decreases ops@.len(),
    {
        let op = ops.remove(0);
        outputs.push(index_output(op));
    }
    outputs
}

/// The index by level and head, as the log calls it: one output for
/// each operation that `level_head_index` finds in the record, in their
/// order.
fn level_head_outputs(data: &[u8]) -> (outputs: Vec<IndexOutput>)
    ensures
        outputs@.len() == level_head_ops(data@).len(),
{
    index_outputs(level_head_index(data))
}

/// The index by group and parent, as the log calls it: one output for
/// each operation that `group_parent_index` finds in the record, in
/// their order.
fn group_parent_outputs(data: &[u8]) -> (outputs: Vec<IndexOutput>)
    ensures
        outputs@.len() == group_parent_ops(data@).len(),
{
    index_outputs(group_parent_index(data))
}

/// `OpenOptions::open`, on options that create the log where there is
/// none and define the two indexes of this library. What the log holds
/// depends on what is on disk; a log just opened has nothing in memory.
#[verifier::external_body]
pub(crate) fn log_open(path: &str) -> (r: Result<Log, Error>)
    ensures
        r matches Ok(log) ==> log_is_segment_log(log) && log_clean_len(log) == log_entries(
            log,
        ).len(),
{
    OpenOptions::new()
        .create(true)
        .index("level-head", level_head_outputs)
        .index("group-parent", group_parent_outputs)
        .open(path)
}

/// `Log::append`: the record is added in memory after the others, and the
/// indexes follow. Nothing is written to disk.
#[verifier::external_body]
pub(crate) fn log_append(log: &mut Log, data: &[u8]) -> (r: Result<(), Error>)
    requires
        log_is_segment_log(*old(log)),
    ensures
        log_is_segment_log(*final(log)),
        r is Ok ==> log_entries(*final(log)) == log_entries(*old(log)).push(data@),
        r is Ok ==> log_clean_len(*final(log)) == log_clean_len(*old(log)),
{
    log.append(data)
}

/// `Log::lookup`: the records found under `key` in the index, the newest
/// first. It panics on an empty key and on an index that the log lacks.
#[verifier::external_body]
pub(crate) fn log_lookup(log: &Log, index: usize, key: &[u8]) -> (r: Result<Vec<Vec<u8>>, Error>)
    requires
        log_is_segment_log(*log),
        index < 2,
        key@.len() > 0,
    ensures
        r matches Ok(values)
            ==> values.deep_view() == lookup(log_entries(*log), index as int, key@),
{
    log.lookup(index, key)?.map(|data| data.map(|d| d.to_vec())).collect()
}

/// `Log::lookup_range` on the keys from `low` to `high`, both included,
/// read to its end: the keys in their order, each with its records. It
/// panics where `low` comes after `high`.
#[verifier::external_body]
pub(crate) fn log_range(log: &Log, index: usize, low: &[u8], high: &[u8]) -> (r: Result<
    Vec<(Vec<u8>, Vec<Vec<u8>>)>,
    Error,
>)
    requires
        log_is_segment_log(*log),
        index < 2,
        key_le(low@, high@),
    ensures
        r matches Ok(scan) ==> is_range_scan(
            scan.deep_view(),
            index_state(log_entries(*log), index as int),
            low@,
            high@,
        ),
{
    let mut scan = Vec::new();
    for item in log.lookup_range(index, low..=high)? {
        let (key, values) = item?;
        let values = values.map(|data| data.map(|d| d.to_vec())).collect::<Result<_, _>>()?;
        scan.push((key.into_owned(), values));
    }
    Ok(scan)
}

/// The first step of `Log::lookup_range` on the keys from `low` to
/// `high`, both included: the first of these keys with its records, or
/// nothing where the index has no such key.
#[verifier::external_body]
pub(crate) fn log_range_first(log: &Log, index: usize, low: &[u8], high: &[u8]) -> (r: Result<
    Option<(Vec<u8>, Vec<Vec<u8>>)>,
    Error,
>)
    requires
        log_is_segment_log(*log),
        index < 2,
        key_le(low@, high@),
    ensures
        r matches Ok(None) ==> no_key_in_range(
            index_state(log_entries(*log), index as int),
            low@,
            high@,
        ),
        r matches Ok(Some(found)) ==> is_first_key(
            index_state(log_entries(*log), index as int),
            low@,
            high@,
            found.0@,
        ) && found.1.deep_view() == lookup(log_entries(*log), index as int, found.0@),
{
    match log.lookup_range(index, low..=high)?.next() {
        None => Ok(None),
        Some(item) => {
            let (key, values) = item?;
            let values = values.map(|data| data.map(|d| d.to_vec())).collect::<Result<_, _>>()?;
            Ok(Some((key.into_owned(), values)))
        },
    }
}

/// The first step from the end of `Log::lookup_range` on the keys from
/// `low` to `high`, both included: the last of these keys with its
/// records, or nothing where the index has no such key.
#[verifier::external_body]
pub(crate) fn log_range_last(log: &Log, index: usize, low: &[u8], high: &[u8]) -> (r: Result<
    Option<(Vec<u8>, Vec<Vec<u8>>)>,
    Error,
>)
    requires
        log_is_segment_log(*log),
        index < 2,
        key_le(low@, high@),
    ensures
        r matches Ok(None) ==> no_key_in_range(
            index_state(log_entries(*log), index as int),
            low@,
            high@,
        ),
        r matches Ok(Some(found)) ==> is_last_key(
            index_state(log_entries(*log), index as int),
            low@,
            high@,
            found.0@,
        ) && found.1.deep_view() == lookup(log_entries(*log), index as int, found.0@),
{
    match log.lookup_range(index, low..=high)?.next_back() {
        None => Ok(None),
        Some(item) => {
            let (key, values) = item?;
            let values = values.map(|data| data.map(|d| d.to_vec())).collect::<Result<_, _>>()?;
            Ok(Some((key.into_owned(), values)))
        },
    }
}

/// Whether the records `after` end with those of `before` that come
/// after the first `clean`: what was in memory only has been written
/// behind what the disk held.
pub open spec fn is_written(after: Seq<Seq<u8>>, before: Seq<Seq<u8>>, clean: nat) -> bool {
    clean <= before.len() && exists|disk: Seq<Seq<u8>>|
        after == disk + #[trigger] before.skip(clean as int)
}

/// `Log::sync`: the log takes in what is on disk and writes behind it
/// what it holds in memory. Other writers decide what the disk held;
/// nothing is left in memory.
#[verifier::external_body]
pub(crate) fn log_sync(log: &mut Log) -> (r: Result<u64, Error>)
    requires
        log_is_segment_log(*old(log)),
    ensures
        log_is_segment_log(*final(log)),
        r is Ok ==> log_clean_len(*final(log)) == log_entries(*final(log)).len(),
        r is Ok ==> is_written(
            log_entries(*final(log)),
            log_entries(*old(log)),
            log_clean_len(*old(log)),
        ),
{
    log.sync()
}

/// `Log::clear_dirty`: the records in memory are dropped, those on disk stay.
#[verifier::external_body]
pub(crate) fn log_clear_dirty(log: &mut Log) -> (r: Result<(), Error>)
    requires
        log_is_segment_log(*old(log)),
    ensures
        log_is_segment_log(*final(log)),
        r is Ok ==> log_entries(*final(log)) == log_entries(*old(log)).take(
            log_clean_len(*old(log)) as int,
        ),
        r is Ok ==> log_clean_len(*final(log)) == log_clean_len(*old(log)),
{
    log.clear_dirty()
}

/// `Log::try_clone`: a log that holds what this one holds.
#[verifier::external_body]
pub(crate) fn log_try_clone(log: &Log) -> (r: Result<Log, Error>)
    ensures
        r matches Ok(copy) ==> log_entries(copy) == log_entries(*log) && log_clean_len(copy)
            == log_clean_len(*log) && log_is_segment_log(copy) == log_is_segment_log(*log),
{
    log.try_clone()
}

/// `Log::try_clone_without_dirty`: a log that holds what this one has on disk.
#[verifier::external_body]
pub(crate) fn log_try_clone_without_dirty(log: &Log) -> (r: Result<Log, Error>)
    ensures
        r matches Ok(copy) ==> log_entries(copy) == log_entries(*log).take(
            log_clean_len(*log) as int,
        ) && log_clean_len(copy) == log_clean_len(*log) && log_is_segment_log(copy)
            == log_is_segment_log(*log),
{
    log.try_clone_without_dirty()
}

/// `Log::iter_dirty`, read to its end: the records that are in memory only.
#[verifier::external_body]
pub(crate) fn log_dirty_entries(log: &Log) -> (r: Result<Vec<Vec<u8>>, Error>)
    ensures
        r matches Ok(dirty) ==> log_clean_len(*log) <= log_entries(*log).len() && dirty.deep_view()
            == log_entries(*log).skip(log_clean_len(*log) as int),
{
    log.iter_dirty().map(|data| data.map(|d| d.to_vec())).collect()
}

/// The message of an error of the log, as its `Display` writes it.
#[verifier::external_body]
pub(crate) fn error_text(error: &Error) -> String {
    format!("{}", error)
}

} // verus!
