//! The segment store on a log with indexes.

use super::index::clear_non_master_bytes;
use super::index::clear_non_master_record;
use super::index::index_parent_key;
use super::index::index_state;
use super::index::is_rewrite_last_flat;
use super::index::is_rewrite_last_flat_record;
use super::index::key_in_range;
use crate::lex::key_le;
use crate::lex::lemma_key_le_antisymmetric;
use super::index::lemma_level_head_keys_ordered;
use super::index::lemma_parent_keys_ordered;
use super::index::lookup;
use super::index::parent_key;
use super::index::rewrite_record;
use super::index::segment_part;
use super::index::serialize_head_level_lookup_key;
use super::index::values_at;
use super::index::IndexState;
use super::index::INDEX_LEVEL_HEAD;
use super::index::INDEX_PARENT;
use super::index::MAGIC_REWRITE_LAST_FLAT;
use super::index::REWRITE_HEADER_LEN;
use super::log::error_text;
use super::log::is_first_key;
use super::log::is_last_key;
use super::log::is_range_scan;
use super::log::is_written;
use super::log::log_append;
use super::log::log_clean_len;
use super::log::log_clear_dirty;
use super::log::log_dirty_entries;
use super::log::log_entries;
use super::log::log_is_segment_log;
use super::log::log_lookup;
use super::log::log_open;
use super::log::log_range;
use super::log::log_range_first;
use super::log::log_range_last;
use super::log::log_sync;
use super::log::log_try_clone;
use super::log::log_try_clone_without_dirty;
use super::log::no_key_in_range;
use super::log::Scan;
use crate::id::Group;
use crate::id::Id;
use crate::segment;
use crate::endian::be_value;
use crate::endian::read_u64_be;
use crate::segment::describe_segment_bytes;
use crate::segment::described;
use crate::segment::id_text;
use crate::segment::level_head_key;
use crate::segment::push_described;
use crate::segment::push_id;
use crate::segment::segment_described;
use crate::text::decimal;
use crate::text::push_decimal;
use crate::segment::Level;
use crate::segment::Segment;
use crate::segment::SegmentData;
use crate::segment::SegmentFlags;
use crate::segment::SegmentView;
use crate::segment::Span;
use indexedlog::log::Log;
use indexedlog::Error;
use vstd::prelude::*;
use vstd::string::StringExecFns;

verus! {

/// Why an operation of the store failed.
#[derive(Debug)]
pub enum StoreError {
    /// The log reported an error; this is its message. After such an
    /// error from a write, the store is to be reloaded before it is
    /// asked anything: the indexes of the log may lag behind its records.
    Storage(String),
    /// A record that was read is no record of a segment.
    Corrupt,
    /// The store is not in the state that its own operations leave it in.
    Bug(String),
}

/// The error of the store for an error of the log.
fn storage_error(error: Error) -> (e: StoreError)
    ensures
        e is Storage,
{
    StoreError::Storage(error_text(&error))
}

/// The segment store.
///
/// It holds a log of records. A record is a segment, or the marker that
/// removes the non-master group, or a marker with a segment that replaces
/// the last flat segment. What the store answers is read from the two
/// indexes of the log.
pub struct IndexedLogStore {
    log: Log,
    cached_max_level: Level,
    next_free_ids_without_dirty: (Id, Id),
}

/// The level that `max_level` takes as "not known yet".
pub const MAX_LEVEL_UNKNOWN: Level = 0;

/// The first key of `m` from `low` to `high`, if there is one.
pub open spec fn first_key(m: IndexState, low: Seq<u8>, high: Seq<u8>) -> Option<Seq<u8>> {
    if exists|k: Seq<u8>| is_first_key(m, low, high, k) {
        Some(choose|k: Seq<u8>| is_first_key(m, low, high, k))
    } else {
        None
    }
}

/// The last key of `m` from `low` to `high`, if there is one.
pub open spec fn last_key(m: IndexState, low: Seq<u8>, high: Seq<u8>) -> Option<Seq<u8>> {
    if exists|k: Seq<u8>| is_last_key(m, low, high, k) {
        Some(choose|k: Seq<u8>| is_last_key(m, low, high, k))
    } else {
        None
    }
}

/// There is one first key at most.
pub proof fn lemma_first_key(m: IndexState, low: Seq<u8>, high: Seq<u8>, key: Seq<u8>)
    requires
        is_first_key(m, low, high, key),
    ensures
        first_key(m, low, high) == Some(key),
{
    let other = choose|k: Seq<u8>| is_first_key(m, low, high, k);
    assert(m.dom().contains(key) && key_in_range(key, low, high, true));
    assert(m.dom().contains(other) && key_in_range(other, low, high, true));
    lemma_key_le_antisymmetric(key, other);
}

/// There is one last key at most.
pub proof fn lemma_last_key(m: IndexState, low: Seq<u8>, high: Seq<u8>, key: Seq<u8>)
    requires
        is_last_key(m, low, high, key),
    ensures
        last_key(m, low, high) == Some(key),
{
    let other = choose|k: Seq<u8>| is_last_key(m, low, high, k);
    assert(m.dom().contains(key) && key_in_range(key, low, high, true));
    assert(m.dom().contains(other) && key_in_range(other, low, high, true));
    lemma_key_le_antisymmetric(key, other);
}

/// Where no key lies in a range, none is its first or its last.
pub proof fn lemma_no_key(m: IndexState, low: Seq<u8>, high: Seq<u8>)
    requires
        no_key_in_range(m, low, high),
    ensures
        first_key(m, low, high).is_none(),
        last_key(m, low, high).is_none(),
{
    if exists|k: Seq<u8>| is_first_key(m, low, high, k) {
        let k = choose|k: Seq<u8>| is_first_key(m, low, high, k);
        assert(m.dom().contains(k));
    }
    if exists|k: Seq<u8>| is_last_key(m, low, high, k) {
        let k = choose|k: Seq<u8>| is_last_key(m, low, high, k);
        assert(m.dom().contains(k));
    }
}

/// The segment that a record of the log stands for: the record, without
/// the header where it replaces the last flat segment.
pub fn segment_from_slice(bytes: &[u8]) -> (seg: Segment)
    ensures
        seg@ == segment_part(bytes@),
{
    if is_rewrite_last_flat_record(bytes) && bytes.len() >= REWRITE_HEADER_LEN {
        let part = vstd::slice::slice_subrange(bytes, REWRITE_HEADER_LEN, bytes.len());
        proof {
            assert(part@ =~= bytes@.skip(REWRITE_HEADER_LEN as int));
        }
        Segment(vstd::slice::slice_to_vec(part))
    } else {
        Segment(vstd::slice::slice_to_vec(bytes))
    }
}

/// The segment of the newest of `records`, if there is any record.
pub open spec fn newest_segment(records: Seq<Seq<u8>>) -> Option<Seq<u8>> {
    if records.len() == 0 {
        None
    } else {
        Some(segment_part(records[0]))
    }
}

/// The segment of the newest of the records found under a key.
pub fn first_segment(records: &Vec<Vec<u8>>) -> (r: Option<Segment>)
    ensures
        match r {
            Some(seg) => newest_segment(records.deep_view()) == Some(seg@),
            None => newest_segment(records.deep_view()).is_none(),
        },
{
    if records.len() == 0 {
        None
    } else {
        proof {
            assert(records.deep_view()[0] == records@[0]@);
        }
        Some(segment_from_slice(records[0].as_slice()))
    }
}

/// The ids that are free on a store that holds nothing.
pub fn default_next_free_ids_without_dirty() -> (ids: (Id, Id))
    ensures
        ids.0.0 == Group::Master.spec_min(),
        ids.1.0 == Group::NonMaster.spec_min(),
{
    (Group::Master.min_id(), Group::NonMaster.min_id())
}

/// The id that follows the segment found last in a range of heads, given
/// the newest record under the last key: the first id of the group where
/// there is no key, the id after the head of the segment otherwise.
pub open spec fn next_free_after(group: Group, last: Option<Seq<Seq<u8>>>) -> Option<Id> {
    match last {
        None => Some(Id(group.spec_min() as u64)),
        Some(records) => match newest_segment(records) {
            Some(bytes) => match segment::decoding(bytes) {
                Some(v) => Some(Id((v.high.0 + 1) as u64)),
                None => None,
            },
            None => None,
        },
    }
}

/// The records found under a key, as mathematical values.
pub open spec fn records_view(found: Option<Vec<Vec<u8>>>) -> Option<Seq<Seq<u8>>> {
    match found {
        Some(records) => Some(records.deep_view()),
        None => None,
    }
}

/// Decides what `next_free_id` answers from what the index holds under
/// the last key of the group: `Corrupt` where the newest record there is
/// no segment, `Bug` where the key has no record at all.
pub fn next_free_id_after(group: Group, last: Option<Vec<Vec<u8>>>) -> (r: Result<Id, StoreError>)
    ensures
        match r {
            Ok(id) => next_free_after(group, records_view(last)) == Some(id),
            Err(e) => next_free_after(group, records_view(last)).is_none() && (e is Bug || e
                is Corrupt) && (e is Bug <==> (last matches Some(records) && records@.len() == 0)),
        },
{
    match last {
        None => Ok(group.min_id()),
        Some(records) => match first_segment(&records) {
            None => Err(StoreError::Bug(String::from_str("key should have values in next_free_id"))),
            Some(seg) => {
                proof {
                    assert(records.deep_view()[0] == records@[0]@);
                }
                match seg.high() {
                    Ok(high) => Ok(Id(high.0 + 1)),
                    Err(_) => Err(StoreError::Corrupt),
                }
            },
        },
    }
}

/// The segments that records stand for, as mathematical values.
pub open spec fn segments_view(segments: Seq<Segment>) -> Seq<Seq<u8>> {
    segments.map_values(|s: Segment| s@)
}

/// The segments of `records`, in their order.
pub open spec fn segments_of(records: Seq<Seq<u8>>) -> Seq<Seq<u8>> {
    records.map_values(|r: Seq<u8>| segment_part(r))
}

/// The segments of a scan: key after key, and for each key the newest first.
pub open spec fn scan_segments(scan: Scan) -> Seq<Seq<u8>>
    decreases scan.len(),
{
    if scan.len() == 0 {
        Seq::empty()
    } else {
        scan_segments(scan.drop_last()) + segments_of(scan.last().1)
    }
}

/// The segments of a scan from its last key to its first, and for each
/// key the newest first.
pub open spec fn scan_segments_descending(scan: Scan) -> Seq<Seq<u8>>
    decreases scan.len(),
{
    if scan.len() == 0 {
        Seq::empty()
    } else {
        segments_of(scan.last().1) + scan_segments_descending(scan.drop_last())
    }
}

/// Adds the segments of `records` to `out`.
fn push_segments(out: &mut Vec<Segment>, records: &Vec<Vec<u8>>)
    ensures
        segments_view(final(out)@) == segments_view(old(out)@) + segments_of(records.deep_view()),
{
    let ghost start = segments_view(out@);
    let ghost all = records.deep_view();
    let mut i: usize = 0;
    while i < records.len()
        invariant
            i <= records@.len(),
            all == records.deep_view(),
            segments_view(out@) == start + segments_of(all.take(i as int)),
        decreases records@.len() - i,
    {
        let seg = segment_from_slice(records[i].as_slice());
        let ghost before = out@;
        out.push(seg);
        proof {
            assert(all[i as int] == records@[i as int]@);
            assert(all.take(i + 1) =~= all.take(i as int).push(all[i as int]));
            assert(segments_view(out@) =~= segments_view(before).push(seg@));
            assert(segments_of(all.take(i + 1)) =~= segments_of(all.take(i as int)).push(
                segment_part(all[i as int]),
            ));
        }
        i = i + 1;
    }
    proof {
        assert(all.take(i as int) =~= all);
    }
}

/// The segments of a scan, key after key.
pub fn segments_ascending(scan: &Vec<(Vec<u8>, Vec<Vec<u8>>)>) -> (out: Vec<Segment>)
    ensures
        segments_view(out@) == scan_segments(scan.deep_view()),
{
    let mut out: Vec<Segment> = Vec::new();
    let ghost all = scan.deep_view();
    let mut i: usize = 0;
    proof {
        assert(segments_view(out@) =~= Seq::<Seq<u8>>::empty());
        assert(all.take(0) =~= Seq::empty());
    }
    while i < scan.len()
        invariant
            i <= scan@.len(),
            all == scan.deep_view(),
            segments_view(out@) == scan_segments(all.take(i as int)),
        decreases scan@.len() - i,
    {
        push_segments(&mut out, &scan[i].1);
        proof {
            assert(all[i as int].1 == scan@[i as int].1.deep_view());
            assert(all.take(i + 1).drop_last() =~= all.take(i as int));
            assert(all.take(i + 1).last() == all[i as int]);
        }
        i = i + 1;
    }
    proof {
        assert(all.take(i as int) =~= all);
    }
    out
}

/// The segments of a scan, from its last key to its first.
pub fn segments_descending(scan: &Vec<(Vec<u8>, Vec<Vec<u8>>)>) -> (out: Vec<Segment>)
    ensures
        segments_view(out@) == scan_segments_descending(scan.deep_view()),
{
    let mut out: Vec<Segment> = Vec::new();
    let ghost all = scan.deep_view();
    let mut i: usize = scan.len();
    proof {
        assert(segments_view(out@) =~= Seq::<Seq<u8>>::empty());
        assert(all.take(i as int) =~= all);
    }
    while i > 0
        invariant
            i <= scan@.len(),
            all == scan.deep_view(),
            segments_view(out@) + scan_segments_descending(all.take(i as int))
                == scan_segments_descending(all),
        decreases i,
    {
        let ghost before = segments_view(out@);
        push_segments(&mut out, &scan[i - 1].1);
        proof {
            let part = all.take(i as int);
            assert(part.last() == all[i - 1]);
            assert(all[i - 1].1 == scan@[i - 1].1.deep_view());
            assert(part.drop_last() =~= all.take(i - 1));
            let here = segments_of(part.last().1);
            let rest = scan_segments_descending(all.take(i - 1));
            assert((before + here) + rest =~= before + (here + rest));
        }
        i = i - 1;
    }
    proof {
        assert(scan_segments_descending(all.take(0)) =~= Seq::<Seq<u8>>::empty());
        assert(segments_view(out@) =~= scan_segments_descending(all));
    }
    out
}

/// What is found for `id` under the first key at or after it: the
/// segment of the newest record there, unless it starts after `id`.
/// The outer `None` stands for a record that is no segment.
pub open spec fn flat_including(id: Id, first: Option<Seq<Seq<u8>>>) -> Option<Option<Seq<u8>>> {
    match first {
        None => Some(None),
        Some(records) => match newest_segment(records) {
            None => Some(None),
            Some(bytes) => match segment::decoding(bytes) {
                None => None,
                Some(v) => if v.low.0 > id.0 {
                    Some(None)
                } else {
                    Some(Some(bytes))
                },
            },
        },
    }
}

/// Decides what `find_flat_segment_including_id` answers from the
/// records under the first key at or after the id.
pub fn flat_segment_including(id: Id, first: Option<Vec<Vec<u8>>>) -> (r: Result<
    Option<Segment>,
    StoreError,
>)
    ensures
        match r {
            Ok(Some(seg)) => flat_including(id, records_view(first)) == Some(Some(seg@)),
            Ok(None) => flat_including(id, records_view(first)) == Some(None::<Seq<u8>>),
            Err(e) => e is Corrupt && flat_including(id, records_view(first)).is_none(),
        },
{
    match first {
        None => Ok(None),
        Some(records) => match first_segment(&records) {
            None => Ok(None),
            Some(seg) => match seg.span() {
                Err(_) => Err(StoreError::Corrupt),
                Ok(span) => if span.low.0 > id.0 {
                    Ok(None)
                } else {
                    Ok(Some(seg))
                },
            },
        },
    }
}

/// The segment that takes the place of the flat segment `last` when the
/// flat segment `next` is written right after it: it runs from the first
/// id of `last` to the last of `next`, and has the parents of `last`.
///
/// Two flat segments merge where the second starts right after the first
/// ends and has the head of the first as its only parent.
pub open spec fn merge_of(last: SegmentView, next: SegmentView) -> Option<SegmentView> {
    if last.level == 0 && next.level == 0 && next.parents == seq![last.high] && last.high.0 + 1
        == next.low.0 && last.high.spec_group() == next.low.spec_group() {
        Some(
            SegmentView {
                flags: SegmentFlags {
                    has_root: last.flags.has_root,
                    only_head: next.flags.only_head,
                },
                level: 0,
                low: last.low,
                high: next.high,
                parents: last.parents,
            },
        )
    } else {
        None
    }
}

/// Merging two well-formed segments gives a well-formed segment.
pub proof fn lemma_merge_wf(last: SegmentView, next: SegmentView)
    requires
        last.wf(),
        next.wf(),
        merge_of(last, next).is_some(),
    ensures
        merge_of(last, next).unwrap().wf(),
        merge_of(last, next).unwrap().low.0 <= merge_of(last, next).unwrap().high.0,
{
}

/// Merges the flat segment `next` into the flat segment `last` where
/// `merge_of` says that they merge.
pub fn merged_flat_segment(last: &SegmentData, next: &SegmentData) -> (r: Option<SegmentData>)
    requires
        last@.wf(),
        next@.wf(),
    ensures
        match r {
            Some(m) => merge_of(last@, next@) == Some(m@),
            None => merge_of(last@, next@).is_none(),
        },
{
    if last.level != 0 || next.level != 0 || next.parents.len() != 1 {
        proof {
            if next.parents@.len() != 1 {
                assert(next.parents@ != seq![last.high]);
            }
        }
        return None;
    }
    let parent = next.parents[0];
    if parent.0 != last.high.0 || last.high.0 == u64::MAX || last.high.0 + 1 != next.low.0 {
        proof {
            if parent.0 != last.high.0 {
                assert(seq![last.high][0] == last.high);
            }
        }
        return None;
    }
    let same_group = match (last.high.group(), next.low.group()) {
        (Some(a), Some(b)) => a == b,
        _ => false,
    };
    if !same_group {
        return None;
    }
    proof {
        assert(next.parents@ =~= seq![last.high]);
    }
    let mut parents: Vec<Id> = Vec::new();
    let mut i: usize = 0;
    while i < last.parents.len()
        invariant
            i <= last.parents@.len(),
            parents@ == last.parents@.take(i as int),
        decreases last.parents@.len() - i,
    {
        parents.push(last.parents[i]);
        proof {
            assert(parents@ =~= last.parents@.take(i + 1));
        }
        i = i + 1;
    }
    proof {
        assert(last.parents@.take(i as int) =~= last.parents@);
    }
    Some(
        SegmentData {
            flags: SegmentFlags {
                has_root: last.flags.has_root,
                only_head: next.flags.only_head,
            },
            level: 0,
            low: last.low,
            high: next.high,
            parents,
        },
    )
}

/// The head that a flat segment must follow in order to merge: its
/// only parent, where that is the id before its first one.
pub open spec fn merge_head(next: SegmentView) -> Option<Id> {
    if next.level == 0 && next.parents.len() == 1 && next.parents[0].0 + 1 == next.low.0 {
        Some(next.parents[0])
    } else {
        None
    }
}

/// The record that is written for the segment `seg`, given the flat
/// segment `last` that is found under the head which `seg` follows: a
/// record that replaces `last` where the two merge, `seg` otherwise.
/// `None` stands for a record that is no segment.
pub open spec fn record_for(seg: Seq<u8>, last: Option<Seq<u8>>) -> Option<Seq<u8>> {
    match segment::decoding(seg) {
        None => None,
        Some(next) => match last {
            None => Some(seg),
            Some(bytes) => match segment::decoding(bytes) {
                None => None,
                Some(found) => match merge_of(found, next) {
                    Some(m) => Some(rewrite_record(found.high, segment::encoding(m))),
                    None => Some(seg),
                },
            },
        },
    }
}

/// The bytes of a record that replaces the flat segment with the head
/// `previous` by the segment `merged`.
pub fn rewrite_record_bytes(previous: Id, merged: &[u8]) -> (record: Vec<u8>)
    ensures
        record@ == rewrite_record(previous, merged@),
{
    let mut record: Vec<u8> = Vec::new();
    record.push(MAGIC_REWRITE_LAST_FLAT);
    let mut key = serialize_head_level_lookup_key(previous, 0);
    record.append(&mut key);
    let mut rest = vstd::slice::slice_to_vec(merged);
    record.append(&mut rest);
    proof {
        assert(record@ =~= rewrite_record(previous, merged@));
    }
    record
}

/// Decides which record is written for the segment `seg`, given the flat
/// segment found under the head that `seg` follows. The flag tells
/// whether the record replaces that segment.
pub fn record_to_insert(seg: &Segment, last: Option<Segment>) -> (r: Result<
    (Vec<u8>, bool),
    StoreError,
>)
    ensures
        match r {
            Ok((record, merged)) => record_for(
                seg@,
                match last {
                    Some(l) => Some(l@),
                    None => None,
                },
            ) == Some(record@) && merged == (record@ != seg@),
            Err(e) => e is Corrupt && record_for(
                seg@,
                match last {
                    Some(l) => Some(l@),
                    None => None,
                },
            ).is_none(),
        },
{
    let next = match seg.data() {
        Ok(d) => d,
        Err(_) => { return Err(StoreError::Corrupt); },
    };
    let last = match last {
        Some(l) => l,
        None => {
            return Ok((vstd::slice::slice_to_vec(seg.0.as_slice()), false));
        },
    };
    let found = match last.data() {
        Ok(d) => d,
        Err(_) => { return Err(StoreError::Corrupt); },
    };
    match merged_flat_segment(&found, &next) {
        None => Ok((vstd::slice::slice_to_vec(seg.0.as_slice()), false)),
        Some(m) => {
            proof {
                lemma_merge_wf(found@, next@);
            }
            let bytes = m.encode();
            let record = rewrite_record_bytes(found.high, bytes.as_slice());
            proof {
                lemma_rewrite_is_no_segment(found.high, bytes@, seg@);
            }
            Ok((record, true))
        },
    }
}

/// A record that replaces the last flat segment is the record of no
/// segment: its first byte sets bits that no flags byte sets.
pub proof fn lemma_rewrite_is_no_segment(previous: Id, merged: Seq<u8>, seg: Seq<u8>)
    requires
        segment::decoding(seg).is_some(),
    ensures
        rewrite_record(previous, merged) != seg,
        is_rewrite_last_flat(rewrite_record(previous, merged)),
        !is_rewrite_last_flat(seg),
{
    let record = rewrite_record(previous, merged);
    assert(record[0] == MAGIC_REWRITE_LAST_FLAT);
    assert(seg[0] < 4);
}

/// The parent that a key of the index by group and parent names.
pub open spec fn parent_of_key(key: Seq<u8>) -> Id {
    Id(be_value(key.skip(1)))
}

/// The segments of `records`, each with the parent `parent`.
pub open spec fn with_parent(parent: Id, records: Seq<Seq<u8>>) -> Seq<(Id, Seq<u8>)> {
    records.map_values(|r: Seq<u8>| (parent, segment_part(r)))
}

/// The segments of a scan of the index by group and parent, each with
/// the parent under which it was found.
pub open spec fn scan_parent_segments(scan: Scan) -> Seq<(Id, Seq<u8>)>
    decreases scan.len(),
{
    if scan.len() == 0 {
        Seq::empty()
    } else {
        scan_parent_segments(scan.drop_last()) + with_parent(
            parent_of_key(scan.last().0),
            scan.last().1,
        )
    }
}

/// Segments with a parent each, as mathematical values.
pub open spec fn parent_segments_view(found: Seq<(Id, Segment)>) -> Seq<(Id, Seq<u8>)> {
    found.map_values(|f: (Id, Segment)| (f.0, f.1@))
}

/// Adds the segments of `records` to `out`, each with the parent `parent`.
fn push_parent_segments(out: &mut Vec<(Id, Segment)>, parent: Id, records: &Vec<Vec<u8>>)
    ensures
        parent_segments_view(final(out)@) == parent_segments_view(old(out)@) + with_parent(
            parent,
            records.deep_view(),
        ),
{
    let ghost start = parent_segments_view(out@);
    let ghost all = records.deep_view();
    let mut i: usize = 0;
    while i < records.len()
        invariant
            i <= records@.len(),
            all == records.deep_view(),
            parent_segments_view(out@) == start + with_parent(parent, all.take(i as int)),
        decreases records@.len() - i,
    {
        let seg = segment_from_slice(records[i].as_slice());
        let ghost before = out@;
        out.push((parent, seg));
        proof {
            assert(all[i as int] == records@[i as int]@);
            assert(all.take(i + 1) =~= all.take(i as int).push(all[i as int]));
            assert(parent_segments_view(out@) =~= parent_segments_view(before).push((parent,
                seg@)));
            assert(with_parent(parent, all.take(i + 1)) =~= with_parent(
                parent,
                all.take(i as int),
            ).push((parent, segment_part(all[i as int]))));
        }
        i = i + 1;
    }
    proof {
        assert(all.take(i as int) =~= all);
    }
}

/// The segments of a scan of the index by group and parent, each with
/// its parent; `None` where a key of the scan is too short to name one.
pub fn parent_segments(scan: &Vec<(Vec<u8>, Vec<Vec<u8>>)>) -> (r: Option<Vec<(Id, Segment)>>)
    ensures
        match r {
            Some(found) => parent_segments_view(found@) == scan_parent_segments(scan.deep_view()),
            None => exists|i: int| 0 <= i < scan@.len() && (#[trigger] scan@[i]).0@.len() < 9,
        },
{
    let mut out: Vec<(Id, Segment)> = Vec::new();
    let ghost all = scan.deep_view();
    let mut i: usize = 0;
    proof {
        assert(parent_segments_view(out@) =~= Seq::<(Id, Seq<u8>)>::empty());
        assert(all.take(0) =~= Seq::empty());
    }
    while i < scan.len()
        invariant
            i <= scan@.len(),
            all == scan.deep_view(),
            parent_segments_view(out@) == scan_parent_segments(all.take(i as int)),
        decreases scan@.len() - i,
    {
        let key = &scan[i].0;
        if key.len() < 9 {
            return None;
        }
        let id_bytes = vstd::slice::slice_subrange(key.as_slice(), 1, key.len());
        let parent = Id(read_u64_be(id_bytes));
        proof {
            assert(id_bytes@ =~= key@.skip(1));
            assert(all[i as int].0 == key@);
            assert(parent == parent_of_key(all[i as int].0));
        }
        push_parent_segments(&mut out, parent, &scan[i].1);
        proof {
            assert(all[i as int].1 == scan@[i as int].1.deep_view());
            assert(all.take(i + 1).drop_last() =~= all.take(i as int));
            assert(all.take(i + 1).last() == all[i as int]);
        }
        i = i + 1;
    }
    proof {
        assert(all.take(i as int) =~= all);
    }
    Some(out)
}

/// What is said of the key in a record that replaces the last flat segment.
pub open spec fn previous_text(key: Seq<u8>) -> Seq<char> {
    "Previous index Level = "@ + decimal(key[0] as nat) + ", Head = "@ + id_text(
        Id(be_value(key.skip(1))),
    )
}

/// The description of a record of the log: the marker that removes the
/// non-master group, or the marker and the key of a record that replaces
/// the last flat segment and then what follows them, or a segment.
pub open spec fn entry_described(data: Seq<u8>) -> Seq<char>
    decreases data.len(),
{
    if super::index::is_clear_non_master(data) {
        described(data, "MAGIC_CLEAR_NON_MASTER"@)
    } else if is_rewrite_last_flat(data) && data.len() >= REWRITE_HEADER_LEN {
        described(data.subrange(0, 1), "MAGIC_REWRITE_LAST_FLAT"@) + described(
            data.subrange(1, REWRITE_HEADER_LEN as int),
            previous_text(data.subrange(1, REWRITE_HEADER_LEN as int)),
        ) + entry_described(data.skip(REWRITE_HEADER_LEN as int))
    } else {
        segment_described(data)
    }
}

/// Describes a record of the log for troubleshooting.
pub fn describe_indexedlog_entry(data: &[u8]) -> (message: String)
    ensures
        message@ == entry_described(data@),
    decreases data@.len(),
{
    if super::index::is_clear_non_master_record(data) {
        let mut message = String::new();
        push_described(&mut message, data, "MAGIC_CLEAR_NON_MASTER");
        proof {
            assert(message@ =~= entry_described(data@));
        }
        message
    } else if is_rewrite_last_flat_record(data) && data.len() >= REWRITE_HEADER_LEN {
        let mut message = String::new();
        push_described(
            &mut message,
            vstd::slice::slice_subrange(data, 0, 1),
            "MAGIC_REWRITE_LAST_FLAT",
        );
        let key = vstd::slice::slice_subrange(data, 1, REWRITE_HEADER_LEN);
        let head_bytes = vstd::slice::slice_subrange(key, 1, 9);
        let head = read_u64_be(head_bytes);
        let mut what = String::from_str("Previous index Level = ");
        push_decimal(&mut what, key[0] as u64);
        what.append(", Head = ");
        push_id(&mut what, Id(head));
        proof {
            assert(head_bytes@ =~= key@.skip(1));
            assert(what@ =~= previous_text(key@));
        }
        push_described(&mut message, key, what.as_str());
        let rest = vstd::slice::slice_subrange(data, REWRITE_HEADER_LEN, data.len());
        proof {
            assert(rest@ =~= data@.skip(REWRITE_HEADER_LEN as int));
        }
        let tail = describe_indexedlog_entry(rest);
        message.append(tail.as_str());
        proof {
            assert(message@ =~= entry_described(data@));
        }
        message
    } else {
        describe_segment_bytes(data)
    }
}

/// Where a flat segment starts right after the flat segment found under
/// the id before it and has that id as its only parent, the record
/// written for it replaces that segment.
pub proof fn lemma_adjacent_segment_is_merged(next: SegmentView, found: SegmentView)
    requires
        next.wf(),
        found.wf(),
        merge_of(found, next).is_some(),
    ensures
        record_for(segment::encoding(next), Some(segment::encoding(found))) == Some(
            rewrite_record(found.high, segment::encoding(merge_of(found, next).unwrap())),
        ),
        is_rewrite_last_flat(
            record_for(segment::encoding(next), Some(segment::encoding(found))).unwrap(),
        ),
{
    segment::lemma_decoding_of_encoding(next);
    segment::lemma_decoding_of_encoding(found);
    lemma_rewrite_is_no_segment(
        found.high,
        segment::encoding(merge_of(found, next).unwrap()),
        segment::encoding(next),
    );
}

/// Where a flat segment does not start right after the segment found
/// before it, or has other parents than its head, the record written for
/// it is the segment itself, and replaces nothing.
pub proof fn lemma_segment_with_gap_is_kept(next: SegmentView, found: SegmentView)
    requires
        next.wf(),
        found.wf(),
        found.high.0 + 1 != next.low.0 || next.parents != seq![found.high],
    ensures
        record_for(segment::encoding(next), Some(segment::encoding(found))) == Some(
            segment::encoding(next),
        ),
        record_for(segment::encoding(next), None) == Some(segment::encoding(next)),
        !is_rewrite_last_flat(segment::encoding(next)),
{
    segment::lemma_decoding_of_encoding(next);
    segment::lemma_decoding_of_encoding(found);
    lemma_rewrite_is_no_segment(found.high, Seq::empty(), segment::encoding(next));
}

/// The record that is written for the segment `seg` into a log that
/// holds `entries`: see `record_for`.
pub open spec fn record_in(entries: Seq<Seq<u8>>, seg: Seq<u8>) -> Option<Seq<u8>> {
    record_for(
        seg,
        match segment::decoding(seg) {
            Some(next) => match merge_head(next) {
                Some(head) => newest_segment(
                    lookup(entries, INDEX_LEVEL_HEAD as int, level_head_key(0, head)),
                ),
                None => None,
            },
            None => None,
        },
    )
}

/// What a log that holds `entries` holds after the segments `segs`
/// were written into it one after another; `None` where one of them,
/// or a segment that it would merge into, cannot be read.
pub open spec fn with_segments(entries: Seq<Seq<u8>>, segs: Seq<Seq<u8>>) -> Option<Seq<Seq<u8>>>
    decreases segs.len(),
{
    if segs.len() == 0 {
        Some(entries)
    } else {
        match with_segments(entries, segs.drop_last()) {
            Some(before) => match record_in(before, segs.last()) {
                Some(record) => Some(before.push(record)),
                None => None,
            },
            None => None,
        }
    }
}

impl IndexedLogStore {
    /// What every store satisfies: its log has the two indexes of this library.
    pub closed spec fn wf(&self) -> bool {
        log_is_segment_log(self.log)
    }

    /// The records of the log, in the order in which they were written.
    pub closed spec fn entries(&self) -> Seq<Seq<u8>> {
        log_entries(self.log)
    }

    /// How many of the records are on disk.
    pub closed spec fn clean_len(&self) -> nat {
        log_clean_len(self.log)
    }

    /// The greatest level that the store remembers, or `MAX_LEVEL_UNKNOWN`.
    pub closed spec fn spec_cached_max_level(&self) -> Level {
        self.cached_max_level
    }

    /// The ids that were free in the two groups when the store was last
    /// opened or persisted.
    pub closed spec fn spec_next_free_ids_without_dirty(&self) -> (Id, Id) {
        self.next_free_ids_without_dirty
    }

    /// The index by level and head.
    pub open spec fn level_head(&self) -> IndexState {
        index_state(self.entries(), INDEX_LEVEL_HEAD as int)
    }

    /// The index by group and parent.
    pub open spec fn group_parent(&self) -> IndexState {
        index_state(self.entries(), INDEX_PARENT as int)
    }

    /// The segment with the given head and level, if the index has one.
    pub open spec fn spec_find_segment_by_head_and_level(&self, head: Id, level: Level) -> Option<
        Seq<u8>,
    > {
        newest_segment(lookup(self.entries(), INDEX_LEVEL_HEAD as int, level_head_key(level, head)))
    }

    /// The records under the last key of `level` and `group`.
    pub open spec fn last_of_group(&self, level: Level, group: Group) -> Option<Seq<Seq<u8>>> {
        match last_key(
            self.level_head(),
            level_head_key(level, Id(group.spec_min() as u64)),
            level_head_key(level, Id(group.spec_max() as u64)),
        ) {
            Some(key) => Some(values_at(self.level_head(), key)),
            None => None,
        }
    }

    /// The id after the last segment of `level` and `group`; `None` where
    /// the record of that segment cannot be read.
    pub open spec fn spec_next_free_id(&self, level: Level, group: Group) -> Option<Id> {
        next_free_after(group, self.last_of_group(level, group))
    }

    /// Looks up the segment with the given head and level.
    pub fn find_segment_by_head_and_level(&self, head: Id, level: Level) -> (r: Result<
        Option<Segment>,
        StoreError,
    >)
        requires
            self.wf(),
        ensures
            match r {
                Ok(Some(seg)) => self.spec_find_segment_by_head_and_level(head, level) == Some(
                    seg@,
                ),
                Ok(None) => self.spec_find_segment_by_head_and_level(head, level).is_none(),
                Err(e) => e is Storage,
            },
    {
        let key = serialize_head_level_lookup_key(head, level);
        match log_lookup(&self.log, INDEX_LEVEL_HEAD, key.as_slice()) {
            Ok(records) => Ok(first_segment(&records)),
            Err(e) => Err(storage_error(e)),
        }
    }

    /// The id that follows the last segment of `level` in `group`, or the
    /// first id of the group where it has no segment of that level.
    pub fn next_free_id(&self, level: Level, group: Group) -> (r: Result<Id, StoreError>)
        requires
            self.wf(),
        ensures
            match r {
                Ok(id) => self.spec_next_free_id(level, group) == Some(id),
                Err(e) => (e is Storage || e is Corrupt)
                    && (e is Corrupt ==> self.spec_next_free_id(
                    level,
                    group,
                ).is_none()),
            },
    {
        let min_id = group.min_id();
        let max_id = group.max_id();
        let low = serialize_head_level_lookup_key(min_id, level);
        let high = serialize_head_level_lookup_key(max_id, level);
        proof {
            lemma_level_head_keys_ordered(level, min_id, max_id);
        }
        match log_range_last(&self.log, INDEX_LEVEL_HEAD, low.as_slice(), high.as_slice()) {
            Err(e) => Err(storage_error(e)),
            Ok(None) => {
                proof {
                    lemma_no_key(self.level_head(), low@, high@);
                    assert(Id(group.spec_min() as u64) == min_id);
                    assert(Id(group.spec_max() as u64) == max_id);
                    assert(self.last_of_group(level, group).is_none());
                }
                let r = next_free_id_after(group, None);
                proof {
                    assert(records_view(None) == self.last_of_group(level, group));
                }
                r
            },
            Ok(Some(found)) => {
                proof {
                    lemma_last_key(self.level_head(), low@, high@, found.0@);
                    super::index::lemma_index_keys_have_records(
                        self.entries(),
                        INDEX_LEVEL_HEAD as int,
                    );
                    assert(self.level_head().dom().contains(found.0@));
                    assert(found.1.deep_view().len() > 0);
                    assert(Id(group.spec_min() as u64) == min_id);
                    assert(Id(group.spec_max() as u64) == max_id);
                    assert(self.last_of_group(level, group) == Some(found.1.deep_view()));
                }
                let ghost records = found.1;
                let r = next_free_id_after(group, Some(found.1));
                proof {
                    assert(records_view(Some(records)) == self.last_of_group(level, group));
                }
                r
            },
        }
    }

    /// The lowest key that a scan of a whole index starts from.
    pub open spec fn lowest_key() -> Seq<u8> {
        seq![0u8]
    }

    /// A key that no key of nine bytes comes after.
    pub open spec fn highest_key() -> Seq<u8> {
        Seq::new(9, |i: int| 255u8)
    }

    /// The greatest level of which the index by level and head has a
    /// segment, 0 where it has none.
    pub open spec fn index_max_level(&self) -> Level {
        match last_key(self.level_head(), Self::lowest_key(), Self::highest_key()) {
            Some(key) => if key.len() > 0 {
                key[0]
            } else {
                0
            },
            None => 0,
        }
    }

    /// Whether the index `m` by level and head has no segment of a
    /// level above `level`.
    pub open spec fn no_level_above(m: IndexState, level: Level) -> bool {
        forall|k: Seq<u8>| #[trigger]
            m.dom().contains(k) && key_in_range(k, Self::lowest_key(), Self::highest_key(), true)
                ==> k.len() > 0 && k[0] <= level
    }

    /// The level that the store remembers, or, where it remembers none,
    /// the greatest level of which the index has a segment. The store
    /// remembers the greatest level that was written to it, and the
    /// level that it had when the non-master group was removed.
    pub open spec fn spec_max_level(&self) -> Level {
        if self.spec_cached_max_level() != MAX_LEVEL_UNKNOWN {
            self.spec_cached_max_level()
        } else {
            self.index_max_level()
        }
    }

    /// The greatest level of the segments of the store.
    pub fn max_level(&self) -> (r: Result<Level, StoreError>)
        requires
            self.wf(),
        ensures
            match r {
                Ok(level) => level == self.spec_max_level(),
                Err(e) => e is Storage,
            },
    {
        if self.cached_max_level != MAX_LEVEL_UNKNOWN {
            return Ok(self.cached_max_level);
        }
        self.read_max_level()
    }

    /// Reads the greatest level of which the index has a segment.
    fn read_max_level(&self) -> (r: Result<Level, StoreError>)
        requires
            self.wf(),
        ensures
            match r {
                Ok(level) => level == self.index_max_level() && Self::no_level_above(
                    self.level_head(),
                    level,
                ),
                Err(e) => e is Storage,
            },
    {
        let mut low: Vec<u8> = Vec::new();
        low.push(0);
        let mut high: Vec<u8> = Vec::new();
        let mut i: usize = 0;
        while i < 9
            invariant
                i <= 9,
                high@ == Seq::new(i as nat, |j: int| 255u8),
            decreases 9 - i,
        {
            high.push(255);
            proof {
                assert(high@ =~= Seq::new((i + 1) as nat, |j: int| 255u8));
            }
            i = i + 1;
        }
        proof {
            assert(low@ =~= Self::lowest_key());
            assert(high@ =~= Self::highest_key());
        }
        match log_range_last(&self.log, INDEX_LEVEL_HEAD, low.as_slice(), high.as_slice()) {
            Err(e) => Err(storage_error(e)),
            Ok(None) => {
                proof {
                    lemma_no_key(self.level_head(), low@, high@);
                }
                Ok(0)
            },
            Ok(Some(found)) => {
                proof {
                    lemma_last_key(self.level_head(), low@, high@, found.0@);
                    assert forall|k: Seq<u8>| #[trigger]
                        self.level_head().dom().contains(k) && key_in_range(
                            k,
                            low@,
                            high@,
                            true,
                        ) implies k.len() > 0 && found.0@.len() > 0 && k[0] <= found.0@[0] by {
                        assert(key_le(low@, k));
                        assert(key_le(k, found.0@));
                    }
                }
                if found.0.len() > 0 {
                    Ok(found.0[0])
                } else {
                    Ok(0)
                }
            },
        }
    }

    /// The records under the first key of level 0 at or after `id`.
    pub open spec fn first_flat_from(&self, id: Id) -> Option<Seq<Seq<u8>>> {
        match first_key(
            self.level_head(),
            level_head_key(0, id),
            level_head_key(0, Id(u64::MAX)),
        ) {
            Some(key) => Some(values_at(self.level_head(), key)),
            None => None,
        }
    }

    /// The flat segment that holds `id`: the one with the first head at
    /// or after `id`, unless it starts after `id`. The outer `None` stands
    /// for a record that is no segment.
    pub open spec fn spec_find_flat_segment_including_id(&self, id: Id) -> Option<Option<Seq<u8>>> {
        flat_including(id, self.first_flat_from(id))
    }

    /// Looks up the flat segment that holds `id`.
    pub fn find_flat_segment_including_id(&self, id: Id) -> (r: Result<Option<Segment>, StoreError>)
        requires
            self.wf(),
        ensures
            match r {
                Ok(Some(seg)) => self.spec_find_flat_segment_including_id(id) == Some(Some(seg@)),
                Ok(None) => self.spec_find_flat_segment_including_id(id) == Some(
                    None::<Seq<u8>>,
                ),
                Err(e) => (e is Storage || e is Corrupt) && (e is Corrupt
                    ==> self.spec_find_flat_segment_including_id(id).is_none()),
            },
    {
        let low = serialize_head_level_lookup_key(id, 0);
        let high = serialize_head_level_lookup_key(Id(u64::MAX), 0);
        proof {
            lemma_level_head_keys_ordered(0, id, Id(u64::MAX));
        }
        match log_range_first(&self.log, INDEX_LEVEL_HEAD, low.as_slice(), high.as_slice()) {
            Err(e) => Err(storage_error(e)),
            Ok(None) => {
                proof {
                    lemma_no_key(self.level_head(), low@, high@);
                    assert(records_view(None) == self.first_flat_from(id));
                }
                flat_segment_including(id, None)
            },
            Ok(Some(found)) => {
                proof {
                    lemma_first_key(self.level_head(), low@, high@, found.0@);
                    assert(records_view(Some(found.1)) == self.first_flat_from(id));
                }
                flat_segment_including(id, Some(found.1))
            },
        }
    }

    /// The flat segment that `seg` would merge into: the one found under
    /// the head that `seg` follows.
    pub open spec fn spec_merge_candidate(&self, seg: Seq<u8>) -> Option<Seq<u8>> {
        match segment::decoding(seg) {
            Some(next) => match merge_head(next) {
                Some(head) => self.spec_find_segment_by_head_and_level(head, 0),
                None => None,
            },
            None => None,
        }
    }

    /// The record that `insert_segment` writes for `seg`; `None` where
    /// `seg`, or the segment that it would merge into, cannot be read.
    pub open spec fn spec_insert_record(&self, seg: Seq<u8>) -> Option<Seq<u8>> {
        record_for(seg, self.spec_merge_candidate(seg))
    }

    /// The level that the store remembers after a segment of `level` was written.
    pub open spec fn level_after(cached: Level, level: Level) -> Level {
        if level > cached {
            level
        } else {
            cached
        }
    }

    /// Looks up the flat segment that `seg` would merge into.
    fn merge_candidate(&self, seg: &Segment) -> (r: Result<Option<Segment>, StoreError>)
        requires
            self.wf(),
        ensures
            match r {
                Ok(Some(last)) => self.spec_merge_candidate(seg@) == Some(last@),
                Ok(None) => self.spec_merge_candidate(seg@).is_none(),
                Err(e) => e is Storage || (e is Corrupt && segment::decoding(seg@).is_none()),
            },
            segment::decoding(seg@).is_none() ==> (r matches Err(e) && e is Corrupt),
    {
        let next = match seg.data() {
            Ok(d) => d,
            Err(_) => { return Err(StoreError::Corrupt); },
        };
        if next.level != 0 || next.parents.len() != 1 {
            return Ok(None);
        }
        let head = next.parents[0];
        if head.0 == u64::MAX || head.0 + 1 != next.low.0 {
            return Ok(None);
        }
        self.find_segment_by_head_and_level(head, 0)
    }

    /// Writes the record for `seg`: see `spec_insert_record`.
    ///
    /// A flat segment that starts right after the flat segment found under
    /// the id before it, and has that id as its only parent, is merged
    /// into that segment: the record written replaces it. Any other
    /// segment is written as it is. A record that is no record of a
    /// segment is refused as `Corrupt` before the log is asked anything.
    pub fn insert_segment(&mut self, segment: Segment) -> (r: Result<(), StoreError>)
        requires
            old(self).wf(),
        ensures
            final(self).wf(),
            final(self).spec_next_free_ids_without_dirty()
                == old(self).spec_next_free_ids_without_dirty(),
            segment::decoding(segment@).is_none() ==> (r matches Err(e) && e is Corrupt) && final(self).entries() == old(self).entries(),
            match r {
                Ok(()) => old(self).spec_insert_record(segment@).is_some() && final(self).entries()
                    == old(self).entries().push(old(self).spec_insert_record(segment@).unwrap())
                    && final(self).clean_len() == old(self).clean_len()
                        && final(self).spec_cached_max_level() == Self::level_after(
                    old(self).spec_cached_max_level(),
                    segment::decoding(segment@).unwrap().level,
                ),
                Err(e) => (e is Storage || e is Corrupt)
                    && (e is Corrupt ==> old(self).spec_insert_record(segment@).is_none()
                        && final(self).entries() == old(self).entries()),
            },
    {
        let level = match segment.level() {
            Ok(l) => l,
            Err(_) => { return Err(StoreError::Corrupt); },
        };
        let last = match self.merge_candidate(&segment) {
            Ok(l) => l,
            Err(e) => { return Err(e); },
        };
        let (record, _merged) = match record_to_insert(&segment, last) {
            Ok(x) => x,
            Err(e) => { return Err(e); },
        };
        match log_append(&mut self.log, record.as_slice()) {
            Ok(()) => {
                if level > self.cached_max_level {
                    self.cached_max_level = level;
                }
                Ok(())
            },
            Err(e) => Err(storage_error(e)),
        }
    }

    /// Writes the record that replaces the last flat segment by its merge
    /// with `segment`, where the two merge. Tells whether it did.
    pub fn maybe_insert_merged_flat_segment(&mut self, segment: &Segment) -> (r: Result<
        bool,
        StoreError,
    >)
        requires
            old(self).wf(),
        ensures
            final(self).wf(),
            final(self).spec_next_free_ids_without_dirty()
                == old(self).spec_next_free_ids_without_dirty(),
            final(self).spec_cached_max_level() == old(self).spec_cached_max_level(),
            segment::decoding(segment@).is_none() ==> (r matches Err(e) && e is Corrupt) && final(self).entries() == old(self).entries(),
            match r {
                Ok(true) => old(self).spec_insert_record(segment@).is_some()
                    && old(self).spec_insert_record(segment@).unwrap() != segment@
                    && final(self).entries()
                        == old(self).entries().push(old(self).spec_insert_record(segment@).unwrap()),
                Ok(false) => old(self).spec_insert_record(segment@) == Some(segment@)
                    && final(self).entries() == old(self).entries(),
                Err(e) => (e is Storage || e is Corrupt)
                    && (e is Corrupt ==> old(self).spec_insert_record(segment@).is_none()
                        && final(self).entries() == old(self).entries()),
            },
    {
        let last = match self.merge_candidate(segment) {
            Ok(l) => l,
            Err(e) => { return Err(e); },
        };
        let (record, merged) = match record_to_insert(segment, last) {
            Ok(x) => x,
            Err(e) => { return Err(e); },
        };
        if !merged {
            return Ok(false);
        }
        match log_append(&mut self.log, record.as_slice()) {
            Ok(()) => Ok(true),
            Err(e) => Err(storage_error(e)),
        }
    }

    /// The id that was free in `group` when the store was last opened or persisted.
    pub fn next_free_id_without_dirty(&self, group: Group) -> (r: Result<Id, StoreError>)
        requires
            self.wf(),
        ensures
            r matches Ok(id) && id == (match group {
                Group::Master => self.spec_next_free_ids_without_dirty().0,
                Group::NonMaster => self.spec_next_free_ids_without_dirty().1,
            }),
    {
        match group {
            Group::Master => Ok(self.next_free_ids_without_dirty.0),
            Group::NonMaster => Ok(self.next_free_ids_without_dirty.1),
        }
    }

    /// The last head that a scan of the heads from `id` on goes up to:
    /// the last id of the group of `id`.
    pub open spec fn last_head_from(id: Id) -> Id {
        match id.spec_group() {
            Some(group) => Id(group.spec_max() as u64),
            None => Id(u64::MAX),
        }
    }

    /// The segments of `level` with a head at or after `id` in the group
    /// of `id`, by their heads.
    pub fn next_segments(&self, id: Id, level: Level) -> (r: Result<Vec<Segment>, StoreError>)
        requires
            self.wf(),
        ensures
            match r {
                Ok(segments) => exists|scan: Scan|
                    is_range_scan(
                        scan,
                        self.level_head(),
                        level_head_key(level, id),
                        level_head_key(level, Self::last_head_from(id)),
                    ) && segments_view(segments@) == scan_segments(scan),
                Err(e) => e is Storage,
            },
    {
        let last = match id.group() {
            Some(group) => group.max_id(),
            None => Id(u64::MAX),
        };
        let low = serialize_head_level_lookup_key(id, level);
        let high = serialize_head_level_lookup_key(last, level);
        proof {
            lemma_level_head_keys_ordered(level, id, last);
        }
        match log_range(&self.log, INDEX_LEVEL_HEAD, low.as_slice(), high.as_slice()) {
            Err(e) => Err(storage_error(e)),
            Ok(scan) => Ok(segments_ascending(&scan)),
        }
    }

    /// The segments of `level` with a head up to `max_high_id`, from the
    /// greatest head down.
    pub fn iter_segments_descending(&self, max_high_id: Id, level: Level) -> (r: Result<
        Vec<Segment>,
        StoreError,
    >)
        requires
            self.wf(),
        ensures
            match r {
                Ok(segments) => exists|scan: Scan|
                    is_range_scan(
                        scan,
                        self.level_head(),
                        level_head_key(level, Id(0)),
                        level_head_key(level, max_high_id),
                    ) && segments_view(segments@) == scan_segments_descending(scan),
                Err(e) => e is Storage,
            },
    {
        let low = serialize_head_level_lookup_key(Id(0), level);
        let high = serialize_head_level_lookup_key(max_high_id, level);
        proof {
            lemma_level_head_keys_ordered(level, Id(0), max_high_id);
        }
        match log_range(&self.log, INDEX_LEVEL_HEAD, low.as_slice(), high.as_slice()) {
            Err(e) => Err(storage_error(e)),
            Ok(scan) => Ok(segments_descending(&scan)),
        }
    }

    /// The segments of `level` with a head from `min_high_id` on, from the
    /// least head up.
    pub fn iter_segments_ascending(&self, min_high_id: Id, level: Level) -> (r: Result<
        Vec<Segment>,
        StoreError,
    >)
        requires
            self.wf(),
        ensures
            match r {
                Ok(segments) => exists|scan: Scan|
                    is_range_scan(
                        scan,
                        self.level_head(),
                        level_head_key(level, min_high_id),
                        level_head_key(level, Id(u64::MAX)),
                    ) && segments_view(segments@) == scan_segments(scan),
                Err(e) => e is Storage,
            },
    {
        let low = serialize_head_level_lookup_key(min_high_id, level);
        let high = serialize_head_level_lookup_key(Id(u64::MAX), level);
        proof {
            lemma_level_head_keys_ordered(level, min_high_id, Id(u64::MAX));
        }
        match log_range(&self.log, INDEX_LEVEL_HEAD, low.as_slice(), high.as_slice()) {
            Err(e) => Err(storage_error(e)),
            Ok(scan) => Ok(segments_ascending(&scan)),
        }
    }

    /// The flat segments that have `parent` among their parents: those of
    /// the master group first where `parent` is of that group, then those
    /// of the other group.
    pub open spec fn spec_flat_segments_with_parent(&self, parent: Id) -> Seq<Seq<u8>> {
        let others = segments_of(
            lookup(self.entries(), INDEX_PARENT as int, parent_key(Group::NonMaster, parent)),
        );
        if parent.spec_group() == Some(Group::Master) {
            segments_of(
                lookup(self.entries(), INDEX_PARENT as int, parent_key(Group::Master, parent)),
            ) + others
        } else {
            others
        }
    }

    /// The flat segments that have `parent` among their parents.
    pub fn iter_flat_segments_with_parent(&self, parent: Id) -> (r: Result<
        Vec<Segment>,
        StoreError,
    >)
        requires
            self.wf(),
        ensures
            match r {
                Ok(segments) => segments_view(segments@) == self.spec_flat_segments_with_parent(
                    parent,
                ),
                Err(e) => e is Storage,
            },
    {
        let mut out: Vec<Segment> = Vec::new();
        proof {
            assert(segments_view(out@) =~= Seq::<Seq<u8>>::empty());
        }
        if Group::Master.contains(parent) {
            let key = index_parent_key(Group::Master, parent);
            match log_lookup(&self.log, INDEX_PARENT, key.as_slice()) {
                Err(e) => { return Err(storage_error(e)); },
                Ok(records) => {
                    push_segments(&mut out, &records);
                },
            }
        }
        let ghost first = segments_view(out@);
        let key = index_parent_key(Group::NonMaster, parent);
        match log_lookup(&self.log, INDEX_PARENT, key.as_slice()) {
            Err(e) => { return Err(storage_error(e)); },
            Ok(records) => {
                push_segments(&mut out, &records);
            },
        }
        proof {
            assert(segments_view(out@) =~= self.spec_flat_segments_with_parent(parent));
        }
        Ok(out)
    }

    /// Writes the record that removes every segment of the non-master
    /// group, and checks on every level that the group holds no segment
    /// any more. The store remembers the greatest level that it had
    /// before: that level does not go down with the segments removed.
    pub fn remove_non_master(&mut self) -> (r: Result<(), StoreError>)
        requires
            old(self).wf(),
        ensures
            final(self).wf(),
            final(self).spec_next_free_ids_without_dirty()
                == old(self).spec_next_free_ids_without_dirty(),
            final(self).spec_cached_max_level() == old(self).spec_cached_max_level()
                || final(self).spec_cached_max_level() == old(self).spec_max_level(),
            match r {
                Ok(()) => final(self).entries() == old(self).entries().push(
                    clear_non_master_record(),
                ) && (forall|level: Level| #[trigger]
                    final(self).spec_next_free_id(level, Group::NonMaster) == Some(
                        Id(Group::NonMaster.spec_min() as u64),
                    )) && final(self).spec_max_level() == old(self).spec_max_level()
                    && final(self).spec_cached_max_level() == old(self).spec_max_level(),
                Err(e) => e is Storage,
            },
    {
        let max = if self.cached_max_level != MAX_LEVEL_UNKNOWN {
            self.cached_max_level
        } else {
            match self.read_max_level() {
                Ok(l) => l,
                Err(e) => { return Err(e); },
            }
        };
        self.cached_max_level = max;
        let record = clear_non_master_bytes();
        match log_append(&mut self.log, record.as_slice()) {
            Ok(()) => {},
            Err(e) => { return Err(storage_error(e)); },
        }
        proof {
            if max == MAX_LEVEL_UNKNOWN {
                let before = old(self).level_head();
                let after = self.level_head();
                assert(Self::no_level_above(before, 0));
                assert forall|k: Seq<u8>| #[trigger]
                    after.dom().contains(k) && key_in_range(
                        k,
                        Self::lowest_key(),
                        Self::highest_key(),
                        true,
                    ) implies k.len() > 0 && k[0] <= 0 by {
                    super::index::lemma_clear_adds_no_key(old(self).entries(), k);
                    assert(before.dom().contains(k));
                }
                if exists|k: Seq<u8>|
                    is_last_key(after, Self::lowest_key(), Self::highest_key(), k) {
                    let k = choose|k: Seq<u8>|
                        is_last_key(after, Self::lowest_key(), Self::highest_key(), k);
                    assert(after.dom().contains(k));
                }
                assert(self.index_max_level() == 0);
            }
        }
        proof {
            assert forall|level: Level| #[trigger]
                self.spec_next_free_id(level, Group::NonMaster) == Some(
                    Id(Group::NonMaster.spec_min() as u64),
                ) by {
                self.lemma_non_master_is_empty(old(self).entries(), level);
            }
        }
        let ghost ids = self.spec_next_free_ids_without_dirty();
        let ghost cached = self.spec_cached_max_level();
        let ghost written = self.entries();
        let mut level: Level = 0;
        loop
            invariant
                level <= max,
                self.wf(),
                self.entries() == written,
                self.spec_next_free_ids_without_dirty() == ids,
                self.spec_cached_max_level() == cached,
                written == old(self).entries().push(clear_non_master_record()),
                ids == old(self).spec_next_free_ids_without_dirty(),
                cached == max,
                max == old(self).spec_max_level(),
                self.spec_max_level() == max,
                forall|l: Level| #[trigger]
                    self.spec_next_free_id(l, Group::NonMaster) == Some(
                        Id(Group::NonMaster.spec_min() as u64),
                    ),
            ensures
                level == max,
            decreases max - level,
        {
            match self.next_free_id(level, Group::NonMaster) {
                Ok(id) => {
                    assert(self.spec_next_free_id(level, Group::NonMaster) == Some(id));
                    if id.0 != Group::NonMaster.min_id().0 {
                        return Err(
                            StoreError::Bug(String::from_str("remove_non_master did not take effect")),
                        );
                    }
                },
                Err(e) => {
                    return Err(e);
                },
            }
            if level == max {
                break ;
            }
            level = level + 1;
        }
        Ok(())
    }

    /// After the record that removes the non-master group, that group
    /// has no segment on any level: its next free id is its first id.
    pub proof fn lemma_non_master_is_empty(&self, before: Seq<Seq<u8>>, level: Level)
        requires
            self.entries() == before.push(clear_non_master_record()),
        ensures
            self.spec_next_free_id(level, Group::NonMaster) == Some(
                Id(Group::NonMaster.spec_min() as u64),
            ),
    {
        let low = level_head_key(level, Id(Group::NonMaster.spec_min() as u64));
        let high = level_head_key(level, Id(Group::NonMaster.spec_max() as u64));
        let m = self.level_head();
        assert forall|k: Seq<u8>| #[trigger] m.dom().contains(k) implies !key_in_range(
            k,
            low,
            high,
            true,
        ) by {
            if key_in_range(k, low, high, true) {
                super::index::lemma_non_master_range(level, k);
                assert(k.take(2)[0] == level && k.take(2)[1] == 1);
                super::index::lemma_clear_removes_non_master(before, k);
            }
        }
        lemma_no_key(m, low, high);
    }

    /// Where the record that removes the non-master group was written
    /// last and the store was persisted then, that group has no segment
    /// on any level, whatever the disk held: `before` are the records of
    /// the store before it was persisted, the first `clean` of them on disk.
    pub proof fn lemma_removal_is_persisted(
        &self,
        before: Seq<Seq<u8>>,
        clean: nat,
        level: Level,
    )
        requires
            is_written(self.entries(), before, clean),
            clean < before.len(),
            before.last() == clear_non_master_record(),
        ensures
            self.spec_next_free_id(level, Group::NonMaster) == Some(
                Id(Group::NonMaster.spec_min() as u64),
            ),
    {
        let dirty = before.skip(clean as int);
        let disk = choose|disk: Seq<Seq<u8>>| self.entries() == disk + dirty;
        let kept = (disk + dirty).drop_last();
        assert(dirty.last() == before.last());
        assert(self.entries() =~= kept.push(clear_non_master_record()));
        self.lemma_non_master_is_empty(kept, level);
    }

    /// Reads the ids that are free in the log as it is into what
    /// `next_free_id_without_dirty` answers.
    fn reload_next_free_ids_without_dirty(&mut self) -> (r: Result<(), StoreError>)
        requires
            old(self).wf(),
        ensures
            final(self).wf(),
            final(self).entries() == old(self).entries(),
            final(self).clean_len() == old(self).clean_len(),
            final(self).spec_cached_max_level() == old(self).spec_cached_max_level(),
            match r {
                Ok(()) => final(self).ids_are_current(),
                Err(e) => (e is Storage || e is Corrupt)
                    && final(self).spec_next_free_ids_without_dirty()
                        == old(self).spec_next_free_ids_without_dirty(),
            },
    {
        let master = match self.next_free_id(0, Group::Master) {
            Ok(id) => id,
            Err(e) => { return Err(e); },
        };
        let non_master = match self.next_free_id(0, Group::NonMaster) {
            Ok(id) => id,
            Err(e) => { return Err(e); },
        };
        self.next_free_ids_without_dirty = (master, non_master);
        Ok(())
    }

    /// Whether what `next_free_id_without_dirty` answers is what
    /// `next_free_id` answers for flat segments.
    pub open spec fn ids_are_current(&self) -> bool {
        &&& self.spec_next_free_id(0, Group::Master) == Some(
            self.spec_next_free_ids_without_dirty().0,
        )
        &&& self.spec_next_free_id(0, Group::NonMaster) == Some(
            self.spec_next_free_ids_without_dirty().1,
        )
    }

    /// Opens the store at the directory `path`, and creates it where
    /// there is none. Whether it can be opened lies with the log. Where
    /// it cannot, the error is that of the log, or `Corrupt` where a
    /// record that the log holds is no record of a segment.
    pub fn open(path: &str) -> (r: Result<IndexedLogStore, StoreError>)
        ensures
            r matches Ok(store) ==> store.wf() && store.ids_are_current() && store.clean_len()
                == store.entries().len() && store.spec_cached_max_level() == MAX_LEVEL_UNKNOWN,
            r matches Err(e) ==> e is Storage || e is Corrupt,
    {
        let log = match log_open(path) {
            Ok(log) => log,
            Err(e) => { return Err(storage_error(e)); },
        };
        let mut store = IndexedLogStore {
            log,
            cached_max_level: MAX_LEVEL_UNKNOWN,
            next_free_ids_without_dirty: default_next_free_ids_without_dirty(),
        };
        match store.reload_next_free_ids_without_dirty() {
            Ok(()) => Ok(store),
            Err(e) => Err(e),
        }
    }

    /// Opens the log of a store at the directory `path`, for
    /// `open_from_clean_log`. Whether it can be opened lies with the log;
    /// where it cannot, the error is that of the log.
    pub fn open_log(path: &str) -> (r: Result<Log, StoreError>)
        ensures
            r matches Ok(log) ==> log_is_segment_log(log) && log_clean_len(log) == log_entries(
                log,
            ).len(),
            r matches Err(e) ==> e is Storage,
    {
        match log_open(path) {
            Ok(log) => Ok(log),
            Err(e) => Err(storage_error(e)),
        }
    }

    /// Makes a store of a log that holds nothing in memory.
    ///
    /// Fails with `Bug` where the log holds records in memory.
    pub fn open_from_clean_log(log: Log) -> (r: Result<IndexedLogStore, StoreError>)
        requires
            log_is_segment_log(log),
        ensures
            match r {
                Ok(store) => log_clean_len(log) == log_entries(log).len() && store.wf()
                    && store.entries() == log_entries(log) && store.ids_are_current()
                    && store.clean_len() == store.entries().len(),
                Err(e) => if log_clean_len(log) < log_entries(log).len() {
                    e is Bug || e is Storage
                } else {
                    e is Storage || e is Corrupt
                },
            },
    {
        let dirty = match log_dirty_entries(&log) {
            Ok(d) => d,
            Err(e) => {
                return Err(storage_error(e));
            },
        };
        if dirty.len() > 0 {
            proof {
                assert(dirty.deep_view().len() == dirty@.len());
                assert(log_entries(log).skip(log_clean_len(log) as int).len() == log_entries(
                    log,
                ).len() - log_clean_len(log));
            }
            return Err(StoreError::Bug(String::from_str("open_from_clean_log got a dirty log")));
        }
        proof {
            assert(dirty.deep_view().len() == 0);
            assert(log_entries(log).skip(log_clean_len(log) as int).len() == log_entries(
                log,
            ).len() - log_clean_len(log));
        }
        let mut store = IndexedLogStore {
            log,
            cached_max_level: MAX_LEVEL_UNKNOWN,
            next_free_ids_without_dirty: default_next_free_ids_without_dirty(),
        };
        match store.reload_next_free_ids_without_dirty() {
            Ok(()) => Ok(store),
            Err(e) => Err(e),
        }
    }

    /// A store that holds what this one holds.
    pub fn try_clone(&self) -> (r: Result<IndexedLogStore, StoreError>)
        requires
            self.wf(),
        ensures
            match r {
                Ok(copy) => copy.wf() && copy.entries() == self.entries() && copy.clean_len()
                    == self.clean_len() && copy.spec_cached_max_level()
                    == self.spec_cached_max_level() && copy.spec_next_free_ids_without_dirty()
                    == self.spec_next_free_ids_without_dirty(),
                Err(e) => e is Storage,
            },
    {
        match log_try_clone(&self.log) {
            Ok(log) => Ok(
                IndexedLogStore {
                    log,
                    cached_max_level: self.cached_max_level,
                    next_free_ids_without_dirty: self.next_free_ids_without_dirty,
                },
            ),
            Err(e) => Err(storage_error(e)),
        }
    }

    /// A store that holds what this one has on disk.
    pub fn try_clone_without_dirty(&self) -> (r: Result<IndexedLogStore, StoreError>)
        requires
            self.wf(),
        ensures
            match r {
                Ok(copy) => copy.wf() && copy.entries() == self.entries().take(
                    self.clean_len() as int,
                )
                    && copy.clean_len() == self.clean_len() && copy.spec_cached_max_level()
                    == MAX_LEVEL_UNKNOWN && copy.spec_next_free_ids_without_dirty()
                    == self.spec_next_free_ids_without_dirty(),
                Err(e) => e is Storage,
            },
    {
        match log_try_clone_without_dirty(&self.log) {
            Ok(log) => Ok(
                IndexedLogStore {
                    log,
                    cached_max_level: MAX_LEVEL_UNKNOWN,
                    next_free_ids_without_dirty: self.next_free_ids_without_dirty,
                },
            ),
            Err(e) => Err(storage_error(e)),
        }
    }

    /// Drops what is in memory and takes in what is on disk.
    pub fn reload(&mut self) -> (r: Result<(), StoreError>)
        requires
            old(self).wf(),
        ensures
            final(self).wf(),
            final(self).spec_next_free_ids_without_dirty()
                == old(self).spec_next_free_ids_without_dirty(),
            final(self).spec_cached_max_level() == old(self).spec_cached_max_level(),
            r is Ok ==> final(self).clean_len() == final(self).entries().len(),
            r matches Err(e) ==> e is Storage,
    {
        match log_clear_dirty(&mut self.log) {
            Ok(()) => {},
            Err(e) => { return Err(storage_error(e)); },
        }
        match log_sync(&mut self.log) {
            Ok(_) => Ok(()),
            Err(e) => Err(storage_error(e)),
        }
    }

    /// Writes to disk what is in memory, behind what the disk holds, and
    /// makes what `next_free_id_without_dirty` answers current.
    pub fn persist(&mut self) -> (r: Result<(), StoreError>)
        requires
            old(self).wf(),
        ensures
            final(self).wf(),
            final(self).spec_cached_max_level() == old(self).spec_cached_max_level(),
            r is Ok ==> final(self).ids_are_current()
                && final(self).clean_len() == final(self).entries().len(),
            r is Ok ==> is_written(
                final(self).entries(),
                old(self).entries(),
                old(self).clean_len(),
            ),
            r matches Err(e) ==> e is Storage || e is Corrupt,
    {
        match log_sync(&mut self.log) {
            Ok(_) => {},
            Err(e) => { return Err(storage_error(e)); },
        }
        self.reload_next_free_ids_without_dirty()
    }

    /// The records that are in memory only, in the order in which they
    /// were written.
    pub fn dirty_entries(&self) -> (r: Result<Vec<Vec<u8>>, StoreError>)
        requires
            self.wf(),
        ensures
            match r {
                Ok(dirty) => self.clean_len() <= self.entries().len() && dirty.deep_view()
                    == self.entries().skip(self.clean_len() as int),
                Err(e) => e is Storage,
            },
    {
        match log_dirty_entries(&self.log) {
            Ok(d) => Ok(d),
            Err(e) => Err(storage_error(e)),
        }
    }

    /// The flat segments of the master group that have a parent in `span`,
    /// each with that parent, by their parents.
    pub fn iter_master_flat_segments_with_parent_span(&self, parent_span: Span) -> (r: Result<
        Vec<(Id, Segment)>,
        StoreError,
    >)
        requires
            self.wf(),
        ensures
            match r {
                Ok(found) => if parent_span.low.0 <= parent_span.high.0 {
                    exists|scan: Scan|
                        is_range_scan(
                            scan,
                            self.group_parent(),
                            parent_key(Group::Master, parent_span.low),
                            parent_key(Group::Master, parent_span.high),
                        ) && parent_segments_view(found@) == scan_parent_segments(scan)
                } else {
                    found@.len() == 0
                },
                Err(e) => e is Storage || e is Bug,
            },
            parent_span.low.0 > parent_span.high.0 ==> (r matches Ok(found) && found@.len() == 0),
    {
        if parent_span.low.0 > parent_span.high.0 {
            return Ok(Vec::new());
        }
        let low = index_parent_key(Group::Master, parent_span.low);
        let high = index_parent_key(Group::Master, parent_span.high);
        proof {
            lemma_parent_keys_ordered(Group::Master, parent_span.low, parent_span.high);
        }
        match log_range(&self.log, INDEX_PARENT, low.as_slice(), high.as_slice()) {
            Err(e) => Err(storage_error(e)),
            Ok(scan) => match parent_segments(&scan) {
                Some(found) => Ok(found),
                None => Err(StoreError::Bug(String::from_str("a key of the parent index is short"))),
            },
        }
    }

    /// Writes the segments `segments` one after another, each as
    /// `insert_segment` writes it. Stops at the first that fails. Where
    /// one of them is no record of a segment, nothing is written.
    pub fn insert_segments(&mut self, segments: &Vec<Segment>) -> (r: Result<(), StoreError>)
        requires
            old(self).wf(),
        ensures
            final(self).wf(),
            final(self).spec_next_free_ids_without_dirty()
                == old(self).spec_next_free_ids_without_dirty(),
            final(self).clean_len() == old(self).clean_len() || r is Err,
            (exists|k: int|
                0 <= k < segments@.len() && segment::decoding((#[trigger] segments@[k])@).is_none())
                ==> (r matches Err(e) && e is Corrupt) && final(self).entries() == old(self).entries(),
            match r {
                Ok(()) => with_segments(old(self).entries(), segments_view(segments@)) == Some(
                    final(self).entries(),
                ),
                Err(e) => (e is Storage || e is Corrupt) && (e is Corrupt ==> with_segments(
                    old(self).entries(),
                    segments_view(segments@),
                ).is_none()),
            },
    {
        let ghost start = self.entries();
        let ghost all = segments_view(segments@);
        let mut k: usize = 0;
        while k < segments.len()
            invariant
                k <= segments@.len(),
                *self == *old(self),
                self.wf(),
                start == self.entries(),
                all == segments_view(segments@),
                forall|j: int|
                    0 <= j < k ==> segment::decoding((#[trigger] segments@[j])@).is_some(),
            decreases segments@.len() - k,
        {
            match segments[k].level() {
                Ok(_) => {},
                Err(_) => {
                    proof {
                        assert(all.take(k + 1).drop_last() =~= all.take(k as int));
                        assert(all.take(k + 1).last() == segments@[k as int]@);
                        assert(with_segments(start, all.take(k + 1)).is_none());
                        lemma_with_segments_fails(start, all, k + 1);
                    }
                    return Err(StoreError::Corrupt);
                },
            }
            k = k + 1;
        }
        let mut i: usize = 0;
        proof {
            assert(all.take(0) =~= Seq::<Seq<u8>>::empty());
        }
        while i < segments.len()
            invariant
                self.wf(),
                all == segments_view(segments@),
                forall|j: int|
                    0 <= j < segments@.len() ==> segment::decoding(
                        (#[trigger] segments@[j])@,
                    ).is_some(),
                i <= segments@.len(),
                start == old(self).entries(),
                self.spec_next_free_ids_without_dirty()
                    == old(self).spec_next_free_ids_without_dirty(),
                self.clean_len() == old(self).clean_len(),
                with_segments(start, all.take(i as int)) == Some(self.entries()),
            decreases segments@.len() - i,
        {
            proof {
                assert(all.take(i + 1).drop_last() =~= all.take(i as int));
                assert(all.take(i + 1).last() == segments@[i as int]@);
                assert(self.spec_insert_record(segments@[i as int]@) == record_in(
                    self.entries(),
                    segments@[i as int]@,
                ));
            }
            let copy = Segment(vstd::slice::slice_to_vec(segments[i].0.as_slice()));
            match self.insert_segment(copy) {
                Ok(()) => {},
                Err(e) => {
                    proof {
                        if e is Corrupt {
                            lemma_with_segments_fails(start, all, i + 1);
                        }
                    }
                    return Err(e);
                },
            }
            i = i + 1;
        }
        proof {
            assert(all.take(i as int) =~= all);
        }
        Ok(())
    }
}

/// Where writing the first `n` segments fails, writing all of them fails.
pub proof fn lemma_with_segments_fails(entries: Seq<Seq<u8>>, segs: Seq<Seq<u8>>, n: int)
    requires
        0 <= n <= segs.len(),
        with_segments(entries, segs.take(n)).is_none(),
    ensures
        with_segments(entries, segs).is_none(),
    decreases segs.len() - n,
{
    if n < segs.len() {
        assert(segs.drop_last().take(n) =~= segs.take(n));
        lemma_with_segments_fails(entries, segs.drop_last(), n);
    } else {
        assert(segs.take(n) =~= segs);
    }
}

/// The record of a segment starts with its flags, then its key in the
/// index by level and head.
pub proof fn lemma_record_key(v: SegmentView)
    ensures
        segment::encoding(v).len() >= 10,
        segment::encoding(v).subrange(1, 10) == level_head_key(v.level, v.high),
        segment::encoding(v)[0] < 4,
{
    crate::endian::lemma_be_value_of_bytes(v.high.0);
    let b = segment::encoding(v);
    assert(b.subrange(1, 10) =~= level_head_key(v.level, v.high));
}

/// After a segment was written, it is the newest segment found under
/// its level and head, and what is found under other keys is as it was.
pub proof fn lemma_written_segment_is_found(entries: Seq<Seq<u8>>, v: SegmentView, key: Seq<u8>)
    ensures
        lookup(
            entries.push(segment::encoding(v)),
            INDEX_LEVEL_HEAD as int,
            level_head_key(v.level, v.high),
        ) == seq![segment::encoding(v)] + lookup(
            entries,
            INDEX_LEVEL_HEAD as int,
            level_head_key(v.level, v.high),
        ),
        key != level_head_key(v.level, v.high) ==> lookup(
            entries.push(segment::encoding(v)),
            INDEX_LEVEL_HEAD as int,
            key,
        ) == lookup(entries, INDEX_LEVEL_HEAD as int, key),
{
    let data = segment::encoding(v);
    let after = entries.push(data);
    lemma_record_key(v);
    assert(after.drop_last() =~= entries);
    assert(data != clear_non_master_record()) by {
        assert(clear_non_master_record().len() == 5);
    }
    assert(!is_rewrite_last_flat(data));
    let ops = super::index::level_head_ops(data);
    assert(ops.len() == 1);
    assert(ops.drop_last() =~= Seq::<super::index::KeyOp>::empty());
    assert(ops.last() == super::index::KeyOp::Insert(data.subrange(1, 10)));
    let m = index_state(entries, INDEX_LEVEL_HEAD as int);
    assert(after.last() == data);
    assert(index_state(after, INDEX_LEVEL_HEAD as int) == super::index::apply_ops(m, ops, data));
    assert(super::index::apply_ops(m, ops.drop_last(), data) == m);
    assert(super::index::apply_ops(m, ops, data) == super::index::apply_op(m, ops.last(), data));
}

/// After a record that replaces the last flat segment was written, the
/// new segment is the newest one found under its head, and nothing is
/// found under the head of the segment replaced.
pub proof fn lemma_replaced_segment_is_gone(entries: Seq<Seq<u8>>, previous: Id, merged: SegmentView)
    requires
        merged.level == 0,
        merged.high != previous,
    ensures
        lookup(
            entries.push(rewrite_record(previous, segment::encoding(merged))),
            INDEX_LEVEL_HEAD as int,
            level_head_key(0, previous),
        ).len() == 0,
        newest_segment(
            lookup(
                entries.push(rewrite_record(previous, segment::encoding(merged))),
                INDEX_LEVEL_HEAD as int,
                level_head_key(0, merged.high),
            ),
        ) == Some(segment::encoding(merged)),
        lookup(
            entries.push(rewrite_record(previous, segment::encoding(merged))),
            INDEX_PARENT as int,
            level_head_key(0, previous),
        ) == lookup(entries, INDEX_PARENT as int, level_head_key(0, previous)),
        forall|key: Seq<u8>|
            key != level_head_key(0, previous) && key != level_head_key(0, merged.high)
                ==> #[trigger] lookup(
                entries.push(rewrite_record(previous, segment::encoding(merged))),
                INDEX_LEVEL_HEAD as int,
                key,
            ) == lookup(entries, INDEX_LEVEL_HEAD as int, key),
{
    let body = segment::encoding(merged);
    let data = rewrite_record(previous, body);
    let after = entries.push(data);
    lemma_record_key(merged);
    crate::endian::lemma_be_value_of_bytes(previous.0);
    crate::endian::lemma_be_value_of_bytes(merged.high.0);
    assert(after.drop_last() =~= entries);
    assert(data[0] == MAGIC_REWRITE_LAST_FLAT);
    assert(data != clear_non_master_record()) by {
        assert(clear_non_master_record()[0] == 0x43);
    }
    assert(data.len() >= REWRITE_HEADER_LEN + 10);
    let old_key = data.subrange(1, REWRITE_HEADER_LEN as int);
    let new_key = data.subrange(REWRITE_HEADER_LEN + 1, REWRITE_HEADER_LEN + 10);
    assert(old_key =~= level_head_key(0, previous));
    assert(new_key =~= body.subrange(1, 10));
    assert(level_head_key(0, previous) != level_head_key(0, merged.high)) by {
        if level_head_key(0, previous) == level_head_key(0, merged.high) {
            assert(level_head_key(0, previous).skip(1) =~= crate::endian::be_bytes(previous.0));
            assert(level_head_key(0, merged.high).skip(1) =~= crate::endian::be_bytes(
                merged.high.0,
            ));
        }
    }
    let ops = super::index::level_head_ops(data);
    assert(ops.len() == 2);
    let first = ops.drop_last();
    assert(first.len() == 1);
    assert(first.drop_last() =~= Seq::<super::index::KeyOp>::empty());
    assert(first.last() == super::index::KeyOp::Remove(old_key));
    assert(ops.last() == super::index::KeyOp::Insert(new_key));
    assert(segment_part(data) =~= body);
    let m = index_state(entries, INDEX_LEVEL_HEAD as int);
    assert(after.last() == data);
    assert(index_state(after, INDEX_LEVEL_HEAD as int) == super::index::apply_ops(m, ops, data));
    assert(super::index::apply_ops(m, first.drop_last(), data) == m);
    let removed = super::index::apply_op(m, first.last(), data);
    assert(super::index::apply_ops(m, first, data) == removed);
    assert(super::index::apply_ops(m, ops, data) == super::index::apply_op(
        removed,
        ops.last(),
        data,
    ));
    let parent_ops = super::index::group_parent_ops(data);
    assert(parent_ops.len() == 0);
    let pm = index_state(entries, INDEX_PARENT as int);
    assert(index_state(after, INDEX_PARENT as int) == super::index::apply_ops(
        pm,
        parent_ops,
        data,
    ));
}

/// Two scans of the same keys agree up to any place that one of them has.
pub proof fn lemma_scans_agree(
    first: Scan,
    second: Scan,
    m: IndexState,
    low: Seq<u8>,
    high: Seq<u8>,
    i: int,
)
    requires
        is_range_scan(first, m, low, high),
        is_range_scan(second, m, low, high),
        0 <= i < first.len(),
    ensures
        i < second.len(),
        first[i] == second[i],
    decreases i,
{
    if i > 0 {
        lemma_scans_agree(first, second, m, low, high, i - 1);
    }
    assert forall|j: int| 0 <= j < i implies #[trigger] first[j] == second[j] by {
        lemma_scans_agree(first, second, m, low, high, j);
    }
    let k = first[i].0;
    assert(m.dom().contains(k) && key_in_range(k, low, high, true));
    let j2 = choose|j: int| 0 <= j < second.len() && (#[trigger] second[j]).0 == k;
    if j2 < i {
        assert(first[j2] == second[j2]);
        assert(first[j2].0 != first[i].0);
    }
    if j2 > i {
        let other = second[i].0;
        assert(m.dom().contains(other) && key_in_range(other, low, high, true));
        let j1 = choose|j: int| 0 <= j < first.len() && (#[trigger] first[j]).0 == other;
        if j1 < i {
            assert(first[j1] == second[j1]);
            assert(second[j1].0 != second[i].0);
        }
        if j1 > i {
            assert(key_le(first[i].0, first[j1].0));
        }
        assert(key_le(second[i].0, second[j2].0));
        lemma_key_le_antisymmetric(k, other);
        assert(second[i].0 != second[j2].0);
    }
    assert(first[i].1 == m[k]);
    assert(second[i].1 == m[k]);
}

/// There is one scan of the keys of an index from one key to another:
/// what the functions that list segments answer is determined.
pub proof fn lemma_one_scan(first: Scan, second: Scan, m: IndexState, low: Seq<u8>, high: Seq<u8>)
    requires
        is_range_scan(first, m, low, high),
        is_range_scan(second, m, low, high),
    ensures
        first == second,
{
    if first.len() > 0 {
        lemma_scans_agree(first, second, m, low, high, first.len() - 1);
    }
    if second.len() > 0 {
        lemma_scans_agree(second, first, m, low, high, second.len() - 1);
    }
    assert forall|i: int| 0 <= i < first.len() implies first[i] == second[i] by {
        lemma_scans_agree(first, second, m, low, high, i);
    }
    assert(first =~= second);
}

} // verus!
