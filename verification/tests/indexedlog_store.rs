use segmented_changelog::id::Group;
use segmented_changelog::id::Id;
use segmented_changelog::iddag::FlatSegment;
use segmented_changelog::iddag::IdDag;
use segmented_changelog::iddagstore::indexedlog_store::describe_indexedlog_entry;
use segmented_changelog::iddagstore::indexedlog_store::flat_segment_including;
use segmented_changelog::iddagstore::indexedlog_store::merged_flat_segment;
use segmented_changelog::iddagstore::indexedlog_store::next_free_id_after;
use segmented_changelog::iddagstore::indexedlog_store::record_to_insert;
use segmented_changelog::iddagstore::indexedlog_store::segment_from_slice;
use segmented_changelog::iddagstore::indexedlog_store::IndexedLogStore;
use segmented_changelog::iddagstore::indexedlog_store::StoreError;
use segmented_changelog::segment::Span;
use segmented_changelog::segment::Segment;
use segmented_changelog::segment::SegmentFlags;

fn dbg(segment: &Segment) -> String {
    segment.data().unwrap().to_text()
}

fn dbg_opt(segment: Option<Segment>) -> String {
    match segment {
        Some(s) => format!("Some({})", dbg(&s)),
        None => "None".to_string(),
    }
}

fn dbg_iter(segments: Vec<Segment>) -> String {
    let parts: Vec<String> = segments.iter().map(dbg).collect();
    format!("[{}]", parts.join(", "))
}

#[test]
fn test_merge_persisted_segments() {
    // Persisted                    | Not persisted
    // [0..=5] [6..=10, parents=[3]] [11..=20, parents=[10]]
    //         [6..                       =20, parents=[3] ] <- merged
    let tmp = tempfile::tempdir().unwrap();
    let path = tmp.path().to_str().unwrap();
    let mut iddag = IndexedLogStore::open(path).unwrap();
    let seg1 = Segment::new(SegmentFlags::root(), 0, Id(0), Id(5), &[]);
    let seg2 = Segment::new(SegmentFlags::empty(), 0, Id(6), Id(10), &[Id(3)]);
    iddag.insert_segment(seg1).unwrap();
    iddag.insert_segment(seg2).unwrap();
    iddag.persist().unwrap();

    let seg3 = Segment::new(SegmentFlags::head(), 0, Id(11), Id(20), &[Id(10)]);
    iddag.insert_segment(seg3).unwrap();
    iddag.persist().unwrap();

    // Reload.
    let iddag2 = IndexedLogStore::open(path).unwrap();

    // Check the merged segments.
    assert_eq!(
        dbg_iter(iddag2.iter_segments_descending(Id(20), 0).unwrap()),
        "[H6-20[3], R0-5[]]"
    );

    // Check parent -> child index.
    // 10 -> 11 parent index wasn't inserted.
    assert_eq!(
        dbg_iter(iddag2.iter_flat_segments_with_parent(Id(10)).unwrap()),
        "[]"
    );
    // 3 -> 6 parent index only returns the new segment.
    assert_eq!(
        dbg_iter(iddag2.iter_flat_segments_with_parent(Id(3)).unwrap()),
        "[6-10[3]]"
    );

    // Check (level, head) -> segment index.
    // Check lookup by "including_id". Should all return the new merged segment.
    assert_eq!(
        dbg_opt(iddag2.find_flat_segment_including_id(Id(7)).unwrap()),
        "Some(H6-20[3])"
    );
    assert_eq!(
        dbg_opt(iddag2.find_flat_segment_including_id(Id(13)).unwrap()),
        "Some(H6-20[3])"
    );
    assert_eq!(
        dbg_opt(iddag2.find_flat_segment_including_id(Id(20)).unwrap()),
        "Some(H6-20[3])"
    );
    // Check lookup by head.
    // By head 20 returns the new merged segment.
    assert_eq!(
        dbg_opt(iddag2.find_segment_by_head_and_level(Id(20), 0).unwrap()),
        "Some(H6-20[3])"
    );
    // By head 10 does not return the old segment.
    assert_eq!(
        dbg_opt(iddag2.find_segment_by_head_and_level(Id(10), 0).unwrap()),
        "None"
    );
}

#[test]
fn test_describe() {
    let tmp = tempfile::tempdir().unwrap();
    let mut iddag = IndexedLogStore::open(tmp.path().to_str().unwrap()).unwrap();
    let seg1 = Segment::new(SegmentFlags::root(), 0, Id(0), Id(5), &[]);
    let seg2 = Segment::new(SegmentFlags::empty(), 0, Id(6), Id(10), &[Id(5)]);
    iddag.insert_segment(seg1).unwrap();
    iddag.insert_segment(seg2).unwrap();
    let bytes = iddag.dirty_entries().unwrap().into_iter().nth(1).unwrap();
    assert_eq!(
        describe_indexedlog_entry(&bytes),
        r#"# f0: MAGIC_REWRITE_LAST_FLAT
# 00 00 00 00 00 00 00 00 05: Previous index Level = 0, Head = 5
# 01: Flags = HAS_ROOT
# 00: Level = 0
# 00 00 00 00 00 00 00 0a: High = 10
# 0a: Delta = 10 (Low = 0)
# 00: Parent count = 0
"#
    );
}

#[test]
fn remove_non_master_empties_the_group() {
    let tmp = tempfile::tempdir().unwrap();
    let mut store = IndexedLogStore::open(tmp.path().to_str().unwrap()).unwrap();
    let n0 = Group::NonMaster.min_id();
    store
        .insert_segment(Segment::new(SegmentFlags::root(), 0, Id(0), Id(3), &[]))
        .unwrap();
    store
        .insert_segment(Segment::new(SegmentFlags::empty(), 0, n0, Id(n0.0 + 1), &[Id(3)]))
        .unwrap();
    assert_eq!(store.next_free_id(0, Group::NonMaster).unwrap(), Id(n0.0 + 2));
    assert_eq!(store.iter_flat_segments_with_parent(Id(3)).unwrap().len(), 1);
    store.remove_non_master().unwrap();
    store.persist().unwrap();
    assert_eq!(store.next_free_id(0, Group::NonMaster).unwrap(), n0);
    assert_eq!(store.next_free_id(0, Group::Master).unwrap(), Id(4));
    assert_eq!(store.next_free_id_without_dirty(Group::Master).unwrap(), Id(4));
    assert_eq!(store.next_free_id_without_dirty(Group::NonMaster).unwrap(), n0);
    assert_eq!(store.iter_flat_segments_with_parent(Id(3)).unwrap().len(), 0);
    assert_eq!(
        dbg_opt(store.find_flat_segment_including_id(Id(2)).unwrap()),
        "Some(R0-3[])"
    );
}

fn open_in(dir: &tempfile::TempDir) -> IndexedLogStore {
    IndexedLogStore::open(dir.path().to_str().unwrap()).unwrap()
}

fn flat(low: u64, high: u64, parents: &[u64]) -> Segment {
    let parents: Vec<Id> = parents.iter().map(|p| Id(*p)).collect();
    let flags = if parents.is_empty() {
        SegmentFlags::root()
    } else {
        SegmentFlags::empty()
    };
    Segment::new(flags, 0, Id(low), Id(high), &parents)
}

#[test]
fn a_segment_right_after_the_last_one_replaces_it() {
    let tmp = tempfile::tempdir().unwrap();
    let mut store = open_in(&tmp);
    store.insert_segment(flat(0, 5, &[])).unwrap();
    store.insert_segment(flat(6, 9, &[5])).unwrap();
    let records = store.dirty_entries().unwrap();
    assert_eq!(records.len(), 2);
    assert_eq!(records[0], flat(0, 5, &[]).0);
    assert_eq!(records[1][0], 0xf0);
    assert_eq!(&records[1][1..10], &[0, 0, 0, 0, 0, 0, 0, 0, 5]);
    assert_eq!(&records[1][10..], &flat(0, 9, &[]).0[..]);
    assert_eq!(dbg_iter(store.iter_segments_ascending(Id(0), 0).unwrap()), "[R0-9[]]");
    assert_eq!(store.next_free_id(0, Group::Master).unwrap(), Id(10));
}

#[test]
fn a_segment_after_a_gap_or_with_other_parents_is_kept_as_it_is() {
    let tmp = tempfile::tempdir().unwrap();
    let mut store = open_in(&tmp);
    store.insert_segment(flat(0, 5, &[])).unwrap();
    // A gap.
    store.insert_segment(flat(7, 9, &[5])).unwrap();
    // Right after, with another parent.
    store.insert_segment(flat(10, 12, &[3])).unwrap();
    // Right after, with two parents.
    store.insert_segment(flat(13, 13, &[12, 2])).unwrap();
    let records = store.dirty_entries().unwrap();
    assert_eq!(records.len(), 4);
    assert_eq!(records[1], flat(7, 9, &[5]).0);
    assert_eq!(records[2], flat(10, 12, &[3]).0);
    assert_eq!(records[3], flat(13, 13, &[12, 2]).0);
    assert_eq!(
        dbg_iter(store.iter_segments_ascending(Id(0), 0).unwrap()),
        "[R0-5[], 7-9[5], 10-12[3], 13-13[12, 2]]"
    );
}

#[test]
fn segments_above_level_zero_are_never_merged() {
    let tmp = tempfile::tempdir().unwrap();
    let mut store = open_in(&tmp);
    store.insert_segment(flat(0, 5, &[])).unwrap();
    let high = Segment::new(SegmentFlags::empty(), 1, Id(6), Id(9), &[Id(5)]);
    assert_eq!(store.maybe_insert_merged_flat_segment(&high).unwrap(), false);
    store.insert_segment(high).unwrap();
    assert_eq!(store.dirty_entries().unwrap().len(), 2);
    assert_eq!(store.max_level().unwrap(), 1);
    assert_eq!(store.next_free_id(1, Group::Master).unwrap(), Id(10));
    assert_eq!(store.next_free_id(0, Group::Master).unwrap(), Id(6));
    assert_eq!(store.next_free_id(2, Group::Master).unwrap(), Id(0));
}

#[test]
fn flushing_after_each_of_three_appends_leaves_one_segment() {
    let tmp = tempfile::tempdir().unwrap();
    let mut store = open_in(&tmp);
    store.insert_segment(flat(0, 0, &[])).unwrap();
    store.persist().unwrap();
    store.insert_segment(flat(1, 1, &[0])).unwrap();
    let second = store.dirty_entries().unwrap();
    store.persist().unwrap();
    store.insert_segment(flat(2, 2, &[1])).unwrap();
    let third = store.dirty_entries().unwrap();
    store.persist().unwrap();
    assert_eq!(second.len(), 1);
    assert_eq!(third.len(), 1);
    assert_eq!(second[0][0], 0xf0);
    assert_eq!(third[0][0], 0xf0);
    assert_eq!(store.dirty_entries().unwrap().len(), 0);

    let reloaded = open_in(&tmp);
    assert_eq!(dbg_iter(reloaded.iter_segments_ascending(Id(0), 0).unwrap()), "[R0-2[]]");
    assert_eq!(dbg_iter(reloaded.iter_segments_descending(Id(u64::MAX), 0).unwrap()), "[R0-2[]]");
    assert_eq!(dbg_opt(reloaded.find_segment_by_head_and_level(Id(0), 0).unwrap()), "None");
    assert_eq!(dbg_opt(reloaded.find_segment_by_head_and_level(Id(1), 0).unwrap()), "None");
    assert_eq!(
        dbg_opt(reloaded.find_segment_by_head_and_level(Id(2), 0).unwrap()),
        "Some(R0-2[])"
    );
    assert_eq!(
        dbg_opt(reloaded.find_flat_segment_including_id(Id(0)).unwrap()),
        "Some(R0-2[])"
    );
    assert_eq!(reloaded.next_free_id_without_dirty(Group::Master).unwrap(), Id(3));
}

#[test]
fn persisting_makes_the_persisted_ids_current() {
    let tmp = tempfile::tempdir().unwrap();
    let mut store = open_in(&tmp);
    let n0 = Group::NonMaster.min_id().0;
    assert_eq!(store.next_free_id_without_dirty(Group::Master).unwrap(), Id(0));
    assert_eq!(store.next_free_id_without_dirty(Group::NonMaster).unwrap(), Id(n0));
    store.insert_segment(flat(0, 7, &[])).unwrap();
    store.insert_segment(flat(n0, n0 + 2, &[3])).unwrap();
    assert_eq!(store.next_free_id(0, Group::Master).unwrap(), Id(8));
    assert_eq!(store.next_free_id(0, Group::NonMaster).unwrap(), Id(n0 + 3));
    assert_eq!(store.next_free_id_without_dirty(Group::Master).unwrap(), Id(0));
    assert_eq!(store.next_free_id_without_dirty(Group::NonMaster).unwrap(), Id(n0));
    store.persist().unwrap();
    for group in [Group::Master, Group::NonMaster] {
        assert_eq!(
            store.next_free_id(0, group).unwrap(),
            store.next_free_id_without_dirty(group).unwrap()
        );
    }
    assert_eq!(store.next_free_id_without_dirty(Group::Master).unwrap(), Id(8));
    assert_eq!(store.next_free_id_without_dirty(Group::NonMaster).unwrap(), Id(n0 + 3));
}

#[test]
fn clearing_the_non_master_group_keeps_the_master_group() {
    let tmp = tempfile::tempdir().unwrap();
    let mut store = open_in(&tmp);
    let n0 = Group::NonMaster.min_id().0;
    store.insert_segment(flat(0, 3, &[])).unwrap();
    store.insert_segment(flat(4, 6, &[1])).unwrap();
    store.insert_segment(flat(n0, n0 + 1, &[6])).unwrap();
    store
        .insert_segment(Segment::new(SegmentFlags::empty(), 1, Id(n0), Id(n0 + 1), &[Id(6)]))
        .unwrap();
    store.remove_non_master().unwrap();
    let records = store.dirty_entries().unwrap();
    assert_eq!(records.last().unwrap(), &b"CLRNM".to_vec());
    // Any later append leaves what the master group held where it was.
    store.insert_segment(flat(7, 7, &[2])).unwrap();
    store.insert_segment(flat(n0, n0, &[7])).unwrap();
    store.persist().unwrap();

    let store = open_in(&tmp);
    assert_eq!(
        dbg_iter(store.iter_segments_ascending(Id(0), 0).unwrap()),
        "[R0-3[], 4-6[1], 7-7[2], N0-N0[7]]"
    );
    assert_eq!(dbg_iter(store.iter_flat_segments_with_parent(Id(1)).unwrap()), "[4-6[1]]");
    assert_eq!(dbg_iter(store.iter_flat_segments_with_parent(Id(6)).unwrap()), "[]");
    assert_eq!(dbg_iter(store.iter_flat_segments_with_parent(Id(7)).unwrap()), "[N0-N0[7]]");
    assert_eq!(store.next_free_id(1, Group::NonMaster).unwrap(), Id(n0));
    assert_eq!(store.next_free_id(0, Group::NonMaster).unwrap(), Id(n0 + 1));
    assert_eq!(store.next_free_id(0, Group::Master).unwrap(), Id(8));
}

#[test]
fn segments_are_listed_by_their_heads() {
    let tmp = tempfile::tempdir().unwrap();
    let mut store = open_in(&tmp);
    let n0 = Group::NonMaster.min_id().0;
    store.insert_segment(flat(0, 3, &[])).unwrap();
    store.insert_segment(flat(4, 6, &[1])).unwrap();
    store.insert_segment(flat(7, 9, &[3, 6])).unwrap();
    store.insert_segment(flat(n0, n0 + 4, &[9])).unwrap();
    assert_eq!(
        dbg_iter(store.next_segments(Id(5), 0).unwrap()),
        "[4-6[1], 7-9[3, 6]]"
    );
    assert_eq!(dbg_iter(store.next_segments(Id(7), 0).unwrap()), "[7-9[3, 6]]");
    assert_eq!(dbg_iter(store.next_segments(Id(10), 0).unwrap()), "[]");
    assert_eq!(dbg_iter(store.next_segments(Id(n0), 0).unwrap()), "[N0-N4[9]]");
    assert_eq!(dbg_iter(store.next_segments(Id(0), 1).unwrap()), "[]");
    assert_eq!(
        dbg_iter(store.iter_segments_descending(Id(8), 0).unwrap()),
        "[4-6[1], R0-3[]]"
    );
    assert_eq!(
        dbg_iter(store.iter_segments_descending(Id(9), 0).unwrap()),
        "[7-9[3, 6], 4-6[1], R0-3[]]"
    );
    assert_eq!(
        dbg_iter(store.iter_segments_ascending(Id(4), 0).unwrap()),
        "[4-6[1], 7-9[3, 6], N0-N4[9]]"
    );
    assert_eq!(dbg_opt(store.find_flat_segment_including_id(Id(10)).unwrap()), "None");
    assert_eq!(
        dbg_opt(store.find_flat_segment_including_id(Id(n0 + 5)).unwrap()),
        "None"
    );
    assert_eq!(
        dbg_opt(store.find_flat_segment_including_id(Id(4)).unwrap()),
        "Some(4-6[1])"
    );
    assert_eq!(store.max_level().unwrap(), 0);
}

#[test]
fn master_segments_are_found_by_a_span_of_parents() {
    let tmp = tempfile::tempdir().unwrap();
    let mut store = open_in(&tmp);
    let n0 = Group::NonMaster.min_id().0;
    store.insert_segment(flat(0, 3, &[])).unwrap();
    store.insert_segment(flat(4, 6, &[1])).unwrap();
    store.insert_segment(flat(7, 9, &[3, 6])).unwrap();
    store.insert_segment(flat(10, 10, &[3])).unwrap();
    store.insert_segment(flat(n0, n0 + 4, &[3])).unwrap();
    let show = |found: Vec<(Id, Segment)>| -> Vec<String> {
        found.iter().map(|(p, s)| format!("{}:{}", p.0, dbg(s))).collect()
    };
    let span = |low: u64, high: u64| Span { low: Id(low), high: Id(high) };
    assert_eq!(
        show(store.iter_master_flat_segments_with_parent_span(span(0, 10)).unwrap()),
        vec!["1:4-6[1]", "3:10-10[3]", "3:7-9[3, 6]", "6:7-9[3, 6]"]
    );
    assert_eq!(
        show(store.iter_master_flat_segments_with_parent_span(span(2, 3)).unwrap()),
        vec!["3:10-10[3]", "3:7-9[3, 6]"]
    );
    assert_eq!(
        show(store.iter_master_flat_segments_with_parent_span(span(4, 5)).unwrap()),
        Vec::<String>::new()
    );
    assert_eq!(
        show(store.iter_master_flat_segments_with_parent_span(span(5, 4)).unwrap()),
        Vec::<String>::new()
    );
    // Both groups are found by a single parent, the master group first.
    assert_eq!(
        dbg_iter(store.iter_flat_segments_with_parent(Id(3)).unwrap()),
        "[10-10[3], 7-9[3, 6], N0-N4[3]]"
    );
    assert_eq!(dbg_iter(store.iter_flat_segments_with_parent(Id(n0)).unwrap()), "[]");
}

#[test]
fn copies_hold_all_or_what_is_on_disk() {
    let tmp = tempfile::tempdir().unwrap();
    let mut store = open_in(&tmp);
    store.insert_segment(flat(0, 3, &[])).unwrap();
    store.persist().unwrap();
    store.insert_segment(flat(4, 6, &[1])).unwrap();
    let all = store.try_clone().unwrap();
    let clean = store.try_clone_without_dirty().unwrap();
    assert_eq!(dbg_iter(all.iter_segments_ascending(Id(0), 0).unwrap()), "[R0-3[], 4-6[1]]");
    assert_eq!(all.dirty_entries().unwrap().len(), 1);
    assert_eq!(dbg_iter(clean.iter_segments_ascending(Id(0), 0).unwrap()), "[R0-3[]]");
    assert_eq!(clean.dirty_entries().unwrap().len(), 0);
    assert_eq!(all.next_free_id_without_dirty(Group::Master).unwrap(), Id(4));
    assert_eq!(clean.next_free_id_without_dirty(Group::Master).unwrap(), Id(4));
    // Reloading drops what was not persisted.
    store.reload().unwrap();
    assert_eq!(dbg_iter(store.iter_segments_ascending(Id(0), 0).unwrap()), "[R0-3[]]");
    assert_eq!(store.dirty_entries().unwrap().len(), 0);
}

#[test]
fn a_store_is_made_of_a_clean_log_only() {
    let tmp = tempfile::tempdir().unwrap();
    let path = tmp.path().to_str().unwrap();
    {
        let mut store = IndexedLogStore::open(path).unwrap();
        store.insert_segment(flat(0, 3, &[])).unwrap();
        store.persist().unwrap();
    }
    let log = IndexedLogStore::open_log(path).unwrap();
    let store = IndexedLogStore::open_from_clean_log(log).unwrap();
    assert_eq!(store.next_free_id_without_dirty(Group::Master).unwrap(), Id(4));
    assert_eq!(dbg_iter(store.iter_segments_ascending(Id(0), 0).unwrap()), "[R0-3[]]");

    let mut log = IndexedLogStore::open_log(path).unwrap();
    log.append(flat(4, 4, &[3]).0).unwrap();
    assert!(matches!(
        IndexedLogStore::open_from_clean_log(log),
        Err(StoreError::Bug(_))
    ));
}

#[test]
fn a_record_of_no_segment_is_not_written() {
    let tmp = tempfile::tempdir().unwrap();
    let mut store = open_in(&tmp);
    assert!(matches!(
        store.insert_segment(Segment(vec![1, 2, 3])),
        Err(StoreError::Corrupt)
    ));
    assert!(matches!(
        store.maybe_insert_merged_flat_segment(&Segment(b"CLRNM".to_vec())),
        Err(StoreError::Corrupt)
    ));
    assert_eq!(store.dirty_entries().unwrap().len(), 0);
}

#[test]
fn the_answers_are_decided_from_what_the_index_holds() {
    let n0 = Group::NonMaster.min_id();
    let seg = flat(4, 6, &[1]);
    let rewritten = {
        let mut record = vec![0xf0, 0, 0, 0, 0, 0, 0, 0, 0, 3];
        record.extend_from_slice(&flat(0, 6, &[]).0);
        record
    };
    assert_eq!(segment_from_slice(&seg.0).0, seg.0);
    assert_eq!(segment_from_slice(&rewritten).0, flat(0, 6, &[]).0);
    assert_eq!(segment_from_slice(&[0xf0, 1]).0, vec![0xf0, 1]);

    assert_eq!(next_free_id_after(Group::Master, None).unwrap(), Id(0));
    assert_eq!(next_free_id_after(Group::NonMaster, None).unwrap(), n0);
    assert_eq!(
        next_free_id_after(Group::Master, Some(vec![seg.0.clone(), flat(0, 9, &[]).0])).unwrap(),
        Id(7)
    );
    assert_eq!(
        next_free_id_after(Group::Master, Some(vec![rewritten.clone()])).unwrap(),
        Id(7)
    );
    assert!(matches!(
        next_free_id_after(Group::Master, Some(vec![])),
        Err(StoreError::Bug(_))
    ));
    assert!(matches!(
        next_free_id_after(Group::Master, Some(vec![vec![9, 9]])),
        Err(StoreError::Corrupt)
    ));

    assert_eq!(dbg_opt(flat_segment_including(Id(5), None).unwrap()), "None");
    assert_eq!(dbg_opt(flat_segment_including(Id(5), Some(vec![])).unwrap()), "None");
    assert_eq!(
        dbg_opt(flat_segment_including(Id(5), Some(vec![seg.0.clone()])).unwrap()),
        "Some(4-6[1])"
    );
    assert_eq!(
        dbg_opt(flat_segment_including(Id(3), Some(vec![seg.0.clone()])).unwrap()),
        "None"
    );
    assert!(matches!(
        flat_segment_including(Id(3), Some(vec![vec![0]])),
        Err(StoreError::Corrupt)
    ));
}

#[test]
fn two_flat_segments_merge_where_the_second_continues_the_first() {
    let data = |seg: Segment| seg.data().unwrap();
    let last = data(flat(4, 6, &[1]));
    let merged = merged_flat_segment(
        &last,
        &data(Segment::new(SegmentFlags::head(), 0, Id(7), Id(9), &[Id(6)])),
    )
    .unwrap();
    assert_eq!(merged.to_text(), "H4-9[1]");
    let root = data(flat(0, 3, &[]));
    assert_eq!(
        merged_flat_segment(&root, &data(flat(4, 4, &[3]))).unwrap().to_text(),
        "R0-4[]"
    );
    assert!(merged_flat_segment(&last, &data(flat(8, 9, &[6]))).is_none());
    assert!(merged_flat_segment(&last, &data(flat(7, 9, &[5]))).is_none());
    assert!(merged_flat_segment(&last, &data(flat(7, 9, &[6, 2]))).is_none());
    assert!(merged_flat_segment(&last, &data(flat(7, 9, &[]))).is_none());
    let upper = data(Segment::new(SegmentFlags::empty(), 1, Id(7), Id(9), &[Id(6)]));
    assert!(merged_flat_segment(&last, &upper).is_none());
    let m = Group::Master.max_id().0;
    let n0 = Group::NonMaster.min_id().0;
    let end_of_master = data(flat(m - 1, m, &[1]));
    assert!(merged_flat_segment(&end_of_master, &data(flat(n0, n0, &[m]))).is_none());

    let next = flat(7, 9, &[6]);
    let (record, replaced) = record_to_insert(&next, Some(flat(4, 6, &[1]))).unwrap();
    assert!(replaced);
    assert_eq!(record[0], 0xf0);
    assert_eq!(&record[10..], &flat(4, 9, &[1]).0[..]);
    let (record, replaced) = record_to_insert(&next, None).unwrap();
    assert!(!replaced);
    assert_eq!(record, next.0);
    let (record, replaced) = record_to_insert(&next, Some(flat(0, 5, &[]))).unwrap();
    assert!(!replaced);
    assert_eq!(record, next.0);
    assert!(matches!(
        record_to_insert(&next, Some(Segment(vec![7]))),
        Err(StoreError::Corrupt)
    ));
    assert!(matches!(
        record_to_insert(&Segment(vec![7]), None),
        Err(StoreError::Corrupt)
    ));
}

#[test]
fn markers_are_described() {
    assert_eq!(
        describe_indexedlog_entry(b"CLRNM"),
        "# 43 4c 52 4e 4d: MAGIC_CLEAR_NON_MASTER\n"
    );
    let n0 = Group::NonMaster.min_id().0;
    let mut record = vec![0xf0, 0, 1, 0, 0, 0, 0, 0, 0, 9];
    record.extend_from_slice(&flat(n0 + 3, n0 + 12, &[7]).0);
    assert_eq!(
        describe_indexedlog_entry(&record),
        "# f0: MAGIC_REWRITE_LAST_FLAT\n\
         # 00 01 00 00 00 00 00 00 09: Previous index Level = 0, Head = N9\n\
         # 00: Flags = (empty)\n\
         # 00: Level = 0\n\
         # 01 00 00 00 00 00 00 0c: High = N12\n\
         # 09: Delta = 9 (Low = N3)\n\
         # 01: Parent count = 1\n\
         # 07: Parents[0] = 7\n"
    );
    assert_eq!(describe_indexedlog_entry(&[0xf0]), "# f0: Flags = (empty)\n");
}

#[test]
fn a_graph_is_written_out_as_it_grows() {
    let tmp = tempfile::tempdir().unwrap();
    let mut store = open_in(&tmp);
    let n0 = Group::NonMaster.min_id().0;
    let seg = |low: u64, high: u64, parents: &[u64]| FlatSegment {
        low: Id(low),
        high: Id(high),
        parents: parents.iter().map(|p| Id(*p)).collect(),
    };
    let mut dag = IdDag::from_flat_segments(&vec![seg(0, 3, &[]), seg(4, 6, &[1])]).unwrap();
    let records = dag.segments_from(Group::Master, Id(0));
    assert_eq!(dbg_iter(dag.segments_from(Group::Master, Id(0))), "[R0-3[], 4-6[1]]");
    store.insert_segments(&records).unwrap();
    store.persist().unwrap();
    // The graph grows: a segment gets longer, and others join.
    dag.add_vertex(Id(7), &vec![Id(6)]).unwrap();
    dag.add_vertex(Id(8), &vec![Id(7)]).unwrap();
    dag.add_vertex(Id(9), &vec![Id(8), Id(3)]).unwrap();
    dag.add_vertex(Id(n0), &vec![Id(9)]).unwrap();
    let start = store.next_free_id(0, Group::Master).unwrap();
    assert_eq!(start, Id(7));
    let records = dag.segments_from(Group::Master, start);
    assert_eq!(dbg_iter(dag.segments_from(Group::Master, start)), "[7-8[6], H9-9[8, 3]]");
    assert_eq!(dbg_iter(dag.segments_from(Group::Master, Id(5))), "[5-8[4], H9-9[8, 3]]");
    assert_eq!(dbg_iter(dag.segments_from(Group::Master, Id(10))), "[]");
    assert_eq!(dbg_iter(dag.segments_from(Group::NonMaster, Id(0))), "[HN0-N0[9]]");
    store.insert_segments(&records).unwrap();
    store
        .insert_segments(&dag.segments_from(Group::NonMaster, Id(n0)))
        .unwrap();
    store.persist().unwrap();

    let store = open_in(&tmp);
    assert_eq!(
        dbg_iter(store.iter_segments_ascending(Id(0), 0).unwrap()),
        "[R0-3[], 4-8[1], H9-9[8, 3], HN0-N0[9]]"
    );
    assert_eq!(store.next_free_id(0, Group::Master).unwrap(), dag.next_free_id(0, Group::Master));
    assert_eq!(
        store.next_free_id(0, Group::NonMaster).unwrap(),
        dag.next_free_id(0, Group::NonMaster)
    );
    let mut store = store;
    assert!(matches!(
        store.insert_segments(&vec![flat(10, 10, &[9]), Segment(vec![1])]),
        Err(StoreError::Corrupt)
    ));
    // Where one record is no segment, none is written.
    assert_eq!(store.dirty_entries().unwrap().len(), 0);
}

#[test]
fn what_is_persisted_comes_behind_what_the_disk_holds() {
    let tmp = tempfile::tempdir().unwrap();
    let mut first = open_in(&tmp);
    let mut second = open_in(&tmp);
    first
        .insert_segment(Segment::new(SegmentFlags::root(), 1, Id(0), Id(5), &[]))
        .unwrap();
    first.persist().unwrap();
    second
        .insert_segment(Segment::new(SegmentFlags::root(), 2, Id(0), Id(9), &[]))
        .unwrap();
    assert_eq!(dbg_opt(second.find_segment_by_head_and_level(Id(5), 1).unwrap()), "None");
    second.persist().unwrap();
    assert!(second.dirty_entries().unwrap().is_empty());
    assert_eq!(
        dbg_opt(second.find_segment_by_head_and_level(Id(5), 1).unwrap()),
        "Some(R0-5[])"
    );
    assert_eq!(
        dbg_opt(second.find_segment_by_head_and_level(Id(9), 2).unwrap()),
        "Some(R0-9[])"
    );
    let third = open_in(&tmp);
    assert_eq!(
        dbg_opt(third.find_segment_by_head_and_level(Id(9), 2).unwrap()),
        "Some(R0-9[])"
    );
}

#[test]
fn a_removed_group_stays_removed_when_the_store_is_persisted() {
    let tmp = tempfile::tempdir().unwrap();
    let n0 = Group::NonMaster.min_id().0;
    let mut first = open_in(&tmp);
    let mut second = open_in(&tmp);
    first.insert_segment(flat(0, 3, &[])).unwrap();
    first
        .insert_segment(Segment::new(SegmentFlags::empty(), 0, Id(n0), Id(n0 + 1), &[Id(3)]))
        .unwrap();
    first.persist().unwrap();
    second.remove_non_master().unwrap();
    second.persist().unwrap();
    assert_eq!(second.next_free_id(0, Group::NonMaster).unwrap(), Id(n0));
    assert_eq!(second.next_free_id(0, Group::Master).unwrap(), Id(4));
    assert_eq!(second.next_free_id_without_dirty(Group::NonMaster).unwrap(), Id(n0));
    let third = open_in(&tmp);
    assert_eq!(third.next_free_id(0, Group::NonMaster).unwrap(), Id(n0));
    assert_eq!(third.next_free_id(0, Group::Master).unwrap(), Id(4));
}

#[test]
fn a_store_that_cannot_be_opened_tells_why() {
    let tmp = tempfile::tempdir().unwrap();
    let file = tempfile::NamedTempFile::new_in(tmp.path()).unwrap();
    match IndexedLogStore::open(file.path().to_str().unwrap()) {
        Err(StoreError::Storage(message)) => assert!(!message.is_empty()),
        Err(other) => panic!("another error: {:?}", other),
        Ok(_) => panic!("a file was opened as a store"),
    }
}

#[test]
fn the_greatest_level_does_not_go_down_with_the_non_master_group() {
    let tmp = tempfile::tempdir().unwrap();
    let n0 = Group::NonMaster.min_id().0;
    let mut store = open_in(&tmp);
    store.insert_segment(flat(0, 3, &[])).unwrap();
    store
        .insert_segment(Segment::new(SegmentFlags::empty(), 0, Id(n0), Id(n0 + 1), &[Id(3)]))
        .unwrap();
    store
        .insert_segment(Segment::new(SegmentFlags::empty(), 1, Id(n0), Id(n0 + 1), &[Id(3)]))
        .unwrap();
    store.persist().unwrap();
    // A store just opened remembers no level: it reads the index.
    let mut opened = open_in(&tmp);
    assert_eq!(opened.max_level().unwrap(), 1);
    opened.remove_non_master().unwrap();
    assert_eq!(opened.max_level().unwrap(), 1);
    assert_eq!(opened.next_free_id(1, Group::NonMaster).unwrap(), Id(n0));
    // Without the level remembered, the index has nothing above level 0.
    opened.persist().unwrap();
    assert_eq!(open_in(&tmp).max_level().unwrap(), 0);
}

#[test]
fn a_record_of_no_segment_is_refused_before_anything_is_written() {
    let tmp = tempfile::tempdir().unwrap();
    let mut store = open_in(&tmp);
    let broken = Segment(vec![0xff, 0, 1]);
    assert!(matches!(
        store.insert_segment(Segment(vec![0xff, 0, 1])),
        Err(StoreError::Corrupt)
    ));
    assert!(matches!(
        store.maybe_insert_merged_flat_segment(&broken),
        Err(StoreError::Corrupt)
    ));
    assert!(matches!(
        store.insert_segments(&vec![flat(0, 3, &[]), Segment(vec![0xff, 0, 1])]),
        Err(StoreError::Corrupt)
    ));
    assert!(store.dirty_entries().unwrap().is_empty());
    assert_eq!(store.next_free_id(0, Group::Master).unwrap(), Id(0));
    let found = store
        .iter_master_flat_segments_with_parent_span(Span { low: Id(5), high: Id(4) })
        .unwrap();
    assert!(found.is_empty());
}
