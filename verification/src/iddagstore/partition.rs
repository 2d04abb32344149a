//! The flat segments that a segment store shows, and the law that
//! writing keeps them a partition of the ids of a group.
//!
//! Under the head of a flat segment the index by level and head shows
//! the newest record. The flat segments of a group that are shown
//! partition the ids of the group from its first id up to the id that is
//! free next: every such id lies in one of them, and in one only. A flat
//! segment that starts at the free id keeps this so, whether it is
//! written as it is or merged into the segment before it.

use super::index::is_rewrite_last_flat;
use super::index::clear_non_master_record;
use super::index::index_state;
use super::index::lookup;
use super::index::rewrite_record;
use super::index::segment_part;
use super::index::INDEX_LEVEL_HEAD;
use super::indexedlog_store::lemma_merge_wf;
use super::indexedlog_store::lemma_replaced_segment_is_gone;
use super::indexedlog_store::merge_head;
use super::indexedlog_store::merge_of;
use super::indexedlog_store::newest_segment;
use super::indexedlog_store::record_in;
use super::indexedlog_store::IndexedLogStore;
use crate::id::Group;
use crate::id::Id;
use crate::segment::decoding;
use crate::segment::encoding;
use crate::segment::lemma_decoding_of_encoding;
use crate::segment::level_head_key;
use crate::segment::SegmentView;
use vstd::prelude::*;

verus! {

/// The flat segment that is shown under the head `h`: what the newest
/// record found there holds.
pub open spec fn shown(entries: Seq<Seq<u8>>, h: Id) -> Option<SegmentView> {
    match newest_segment(lookup(entries, INDEX_LEVEL_HEAD as int, level_head_key(0, h))) {
        Some(bytes) => decoding(bytes),
        None => None,
    }
}

/// Whether what is found under the head `h`, if anything is, is a flat
/// segment with that head.
pub open spec fn sound_at(entries: Seq<Seq<u8>>, h: Id) -> bool {
    lookup(entries, INDEX_LEVEL_HEAD as int, level_head_key(0, h)).len() > 0 ==> (shown(
        entries,
        h,
    ) matches Some(v) && v.level == 0 && v.high == h)
}

/// Whether the flat segment shown under the head `h` holds the id `x`.
pub open spec fn holds_at(entries: Seq<Seq<u8>>, h: Id, x: Id) -> bool {
    shown(entries, h) matches Some(v) && v.low.0 <= x.0 <= h.0
}

/// Whether a flat segment of `group` that is shown holds the id `x`.
pub open spec fn held(entries: Seq<Seq<u8>>, group: Group, x: Id) -> bool {
    exists|h: Id| h.spec_group() == Some(group) && #[trigger] holds_at(entries, h, x)
}

/// Whether the flat segments of `group` that are shown partition the
/// ids of the group before `end`: each of these ids, and no other id
/// of the group, lies in one of them, and none lies in two.
pub open spec fn tiles(entries: Seq<Seq<u8>>, group: Group, end: int) -> bool {
    &&& forall|h: Id| h.spec_group() == Some(group) ==> #[trigger] sound_at(entries, h)
    &&& forall|x: Id| x.spec_group() == Some(group) ==> (x.0 < end <==> #[trigger] held(entries, group, x))
    &&& forall|a: Id, b: Id, x: Id|
        a.spec_group() == Some(group) && b.spec_group() == Some(group) && #[trigger] holds_at(
            entries,
            a,
            x,
        ) && #[trigger] holds_at(entries, b, x) ==> a == b
}

/// Two heads with one key are one head.
pub proof fn lemma_one_key(a: Id, b: Id)
    requires
        level_head_key(0, a) == level_head_key(0, b),
    ensures
        a == b,
{
    crate::endian::lemma_be_value_of_bytes(a.0);
    crate::endian::lemma_be_value_of_bytes(b.0);
    assert(level_head_key(0, a).skip(1) =~= crate::endian::be_bytes(a.0));
    assert(level_head_key(0, b).skip(1) =~= crate::endian::be_bytes(b.0));
}

/// A record that holds a segment holds, after its flags, the key of the
/// segment in the index by level and head.
pub proof fn lemma_decoded_key(b: Seq<u8>)
    requires
        decoding(b).is_some(),
    ensures
        b.len() >= 10,
        b[0] < 4,
        b.subrange(1, 10) == level_head_key(decoding(b).unwrap().level, decoding(b).unwrap().high),
{
    let v = decoding(b).unwrap();
    let digits = b.subrange(2, 10);
    crate::endian::lemma_be_bytes_of_value(digits);
    assert(b.subrange(1, 10) =~= level_head_key(v.level, v.high));
}

/// After a record that holds the flat segment `v` was written as it is,
/// `v` is shown under its head, and what is shown under other heads is
/// as it was.
pub proof fn lemma_shown_after_plain(entries: Seq<Seq<u8>>, b: Seq<u8>, h: Id)
    requires
        decoding(b) matches Some(v) && v.level == 0,
    ensures
        shown(entries.push(b), h) == (if h == decoding(b).unwrap().high {
            decoding(b)
        } else {
            shown(entries, h)
        }),
        h != decoding(b).unwrap().high ==> lookup(
            entries.push(b),
            INDEX_LEVEL_HEAD as int,
            level_head_key(0, h),
        ) == lookup(entries, INDEX_LEVEL_HEAD as int, level_head_key(0, h)),
{
    let v = decoding(b).unwrap();
    let after = entries.push(b);
    lemma_decoded_key(b);
    assert(after.drop_last() =~= entries);
    assert(b != clear_non_master_record()) by {
        assert(clear_non_master_record().len() == 5);
    }
    assert(!is_rewrite_last_flat(b));
    let ops = super::index::level_head_ops(b);
    assert(ops.len() == 1);
    assert(ops.drop_last() =~= Seq::<super::index::KeyOp>::empty());
    assert(ops.last() == super::index::KeyOp::Insert(b.subrange(1, 10)));
    let m = index_state(entries, INDEX_LEVEL_HEAD as int);
    assert(after.last() == b);
    assert(index_state(after, INDEX_LEVEL_HEAD as int) == super::index::apply_ops(m, ops, b));
    assert(super::index::apply_ops(m, ops.drop_last(), b) == m);
    assert(super::index::apply_ops(m, ops, b) == super::index::apply_op(m, ops.last(), b));
    assert(segment_part(b) == b);
    if h != v.high {
        if level_head_key(0, h) == level_head_key(0, v.high) {
            lemma_one_key(h, v.high);
        }
    }
}

/// After a record that replaces the flat segment `found` by its merge
/// with `v` was written, the merged segment is shown under the head of
/// `v`, nothing is shown under the head of `found`, and what is shown
/// under other heads is as it was.
pub proof fn lemma_shown_after_merge(
    entries: Seq<Seq<u8>>,
    found: SegmentView,
    v: SegmentView,
    h: Id,
)
    requires
        found.wf(),
        v.wf(),
        merge_of(found, v).is_some(),
    ensures
        shown(
            entries.push(rewrite_record(found.high, encoding(merge_of(found, v).unwrap()))),
            h,
        ) == (if h == v.high {
            merge_of(found, v)
        } else if h == found.high {
            None
        } else {
            shown(entries, h)
        }),
        h != v.high && h != found.high ==> lookup(
            entries.push(rewrite_record(found.high, encoding(merge_of(found, v).unwrap()))),
            INDEX_LEVEL_HEAD as int,
            level_head_key(0, h),
        ) == lookup(entries, INDEX_LEVEL_HEAD as int, level_head_key(0, h)),
        lookup(
            entries.push(rewrite_record(found.high, encoding(merge_of(found, v).unwrap()))),
            INDEX_LEVEL_HEAD as int,
            level_head_key(0, found.high),
        ).len() == 0,
{
    let m = merge_of(found, v).unwrap();
    lemma_merge_wf(found, v);
    lemma_decoding_of_encoding(m);
    lemma_replaced_segment_is_gone(entries, found.high, m);
    if h != v.high && h != found.high {
        if level_head_key(0, h) == level_head_key(0, v.high) {
            lemma_one_key(h, v.high);
        }
        if level_head_key(0, h) == level_head_key(0, found.high) {
            lemma_one_key(h, found.high);
        }
    }
}

/// Writing a flat segment that starts at the id that is free next keeps
/// the flat segments of its group a partition: afterwards they hold the
/// ids of the group up to the last id of the segment, each once,
/// whether the segment was written as it is or merged into the one
/// before it.
pub proof fn lemma_insert_keeps_partition(entries: Seq<Seq<u8>>, seg: Seq<u8>, group: Group, end: int)
    requires
        tiles(entries, group, end),
        decoding(seg) matches Some(v) && v.level == 0 && v.low.0 == end && v.low.spec_group()
            == Some(group),
        record_in(entries, seg).is_some(),
    ensures
        tiles(
            entries.push(record_in(entries, seg).unwrap()),
            group,
            decoding(seg).unwrap().high.0 + 1,
        ),
{
    let v = decoding(seg).unwrap();
    let record = record_in(entries, seg).unwrap();
    let after = entries.push(record);
    assert(v.wf());
    // Nothing was shown under the head of the new segment.
    assert(shown(entries, v.high).is_none()) by {
        if shown(entries, v.high).is_some() {
            assert(sound_at(entries, v.high));
            let w = shown(entries, v.high).unwrap();
            assert(w.wf());
            assert(holds_at(entries, v.high, v.high));
            assert(held(entries, group, v.high));
        }
    }
    let candidate = match merge_head(v) {
        Some(head) => newest_segment(
            lookup(entries, INDEX_LEVEL_HEAD as int, level_head_key(0, head)),
        ),
        None => None,
    };
    let merged = match candidate {
        Some(bytes) => match decoding(bytes) {
            Some(found) => merge_of(found, v),
            None => None,
        },
        None => None,
    };
    if merged.is_some() {
        let head = merge_head(v).unwrap();
        let found = decoding(candidate.unwrap()).unwrap();
        let m = merged.unwrap();
        assert(found.wf());
        assert(shown(entries, head) == Some(found));
        assert(sound_at(entries, head));
        assert(head.spec_group() == Some(group));
        assert(found.high == head);
        assert(record == rewrite_record(found.high, encoding(m)));
        assert forall|h: Id| h.spec_group() == Some(group) implies #[trigger] sound_at(after, h) by {
            lemma_shown_after_merge(entries, found, v, h);
            assert(sound_at(entries, h));
        }
        assert forall|h: Id, x: Id| #[trigger] holds_at(after, h, x) <==> (h == v.high && found.low.0
            <= x.0 <= v.high.0) || (h != v.high && h != head && holds_at(entries, h, x)) by {
            lemma_shown_after_merge(entries, found, v, h);
        }
        assert forall|x: Id| x.spec_group() == Some(group) implies (x.0 < v.high.0 + 1
            <==> #[trigger] held(after, group, x)) by {
            if held(after, group, x) {
                let h = choose|h: Id|
                    h.spec_group() == Some(group) && #[trigger] holds_at(after, h, x);
                if h != v.high {
                    assert(holds_at(entries, h, x));
                    assert(held(entries, group, x));
                }
            }
            if x.0 < v.high.0 + 1 {
                if x.0 < end {
                    assert(held(entries, group, x));
                    let h = choose|h: Id|
                        h.spec_group() == Some(group) && #[trigger] holds_at(entries, h, x);
                    if h == head {
                        assert(holds_at(after, v.high, x));
                    } else {
                        assert(h != v.high);
                        assert(holds_at(after, h, x));
                    }
                } else {
                    assert(holds_at(after, v.high, x));
                }
            }
        }
        assert forall|a: Id, b: Id, x: Id|
            a.spec_group() == Some(group) && b.spec_group() == Some(group) && #[trigger] holds_at(
                after,
                a,
                x,
            ) && #[trigger] holds_at(after, b, x) implies a == b by {
            if a != v.high && b != v.high {
                assert(holds_at(entries, a, x) && holds_at(entries, b, x));
            } else if a != b {
                let other = if a == v.high {
                    b
                } else {
                    a
                };
                assert(holds_at(entries, other, x));
                assert(held(entries, group, x));
                assert(holds_at(entries, head, x));
            }
        }
    } else {
        assert(record == seg);
        assert forall|h: Id| h.spec_group() == Some(group) implies #[trigger] sound_at(after, h) by {
            lemma_shown_after_plain(entries, seg, h);
            lemma_decoded_key(seg);
            assert(sound_at(entries, h));
            if h == v.high {
                assert(lookup(after, INDEX_LEVEL_HEAD as int, level_head_key(0, h)).len() > 0);
            }
        }
        assert forall|h: Id, x: Id| #[trigger] holds_at(after, h, x) <==> (h == v.high && v.low.0
            <= x.0 <= v.high.0) || (h != v.high && holds_at(entries, h, x)) by {
            lemma_shown_after_plain(entries, seg, h);
        }
        assert forall|x: Id| x.spec_group() == Some(group) implies (x.0 < v.high.0 + 1
            <==> #[trigger] held(after, group, x)) by {
            if held(after, group, x) {
                let h = choose|h: Id|
                    h.spec_group() == Some(group) && #[trigger] holds_at(after, h, x);
                if h != v.high {
                    assert(holds_at(entries, h, x));
                    assert(held(entries, group, x));
                }
            }
            if x.0 < v.high.0 + 1 {
                if x.0 < end {
                    assert(held(entries, group, x));
                    let h = choose|h: Id|
                        h.spec_group() == Some(group) && #[trigger] holds_at(entries, h, x);
                    assert(h != v.high);
                    assert(holds_at(after, h, x));
                } else {
                    assert(holds_at(after, v.high, x));
                }
            }
        }
        assert forall|a: Id, b: Id, x: Id|
            a.spec_group() == Some(group) && b.spec_group() == Some(group) && #[trigger] holds_at(
                after,
                a,
                x,
            ) && #[trigger] holds_at(after, b, x) implies a == b by {
            if a != v.high && b != v.high {
                assert(holds_at(entries, a, x) && holds_at(entries, b, x));
            } else if a != b {
                let other = if a == v.high {
                    b
                } else {
                    a
                };
                assert(holds_at(entries, other, x));
                assert(held(entries, group, x));
            }
        }
    }
}

/// What `insert_segment` writes for a flat segment that starts at the
/// id that is free next keeps the flat segments that the store shows a
/// partition of the ids of the group.
pub proof fn lemma_insert_segment_keeps_partition(
    before: IndexedLogStore,
    after: IndexedLogStore,
    seg: Seq<u8>,
    group: Group,
    end: int,
)
    requires
        tiles(before.entries(), group, end),
        decoding(seg) matches Some(v) && v.level == 0 && v.low.0 == end && v.low.spec_group()
            == Some(group),
        before.spec_insert_record(seg).is_some(),
        after.entries() == before.entries().push(before.spec_insert_record(seg).unwrap()),
    ensures
        tiles(after.entries(), group, decoding(seg).unwrap().high.0 + 1),
{
    assert(before.spec_insert_record(seg) == record_in(before.entries(), seg));
    lemma_insert_keeps_partition(before.entries(), seg, group, end);
}

/// A store that holds nothing shows a partition of no ids.
pub proof fn lemma_nothing_tiles(group: Group)
    ensures
        tiles(Seq::empty(), group, group.spec_min()),
{
    let entries = Seq::<Seq<u8>>::empty();
    assert forall|h: Id| shown(entries, h).is_none() && #[trigger] sound_at(entries, h) by {}
    assert forall|x: Id| !#[trigger] held(entries, group, x) by {
        if held(entries, group, x) {
            let h = choose|h: Id| h.spec_group() == Some(group) && #[trigger] holds_at(entries, h, x);
            assert(shown(entries, h).is_none());
        }
    }
}

} // verus!
