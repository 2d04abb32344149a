use segmented_changelog::id::Group;
use segmented_changelog::id::Id;
use segmented_changelog::iddagstore::index::clear_non_master_bytes;
use segmented_changelog::iddagstore::index::group_parent_index;
use segmented_changelog::iddagstore::index::index_parent_key;
use segmented_changelog::iddagstore::index::is_clear_non_master_record;
use segmented_changelog::iddagstore::index::is_rewrite_last_flat_record;
use segmented_changelog::iddagstore::index::level_head_index;
use segmented_changelog::iddagstore::index::serialize_head_level_lookup_key;
use segmented_changelog::iddagstore::index::IndexOp;
use segmented_changelog::iddagstore::indexedlog_store::rewrite_record_bytes;
use segmented_changelog::segment::Segment;
use segmented_changelog::segment::SegmentFlags;

fn show(ops: Vec<IndexOp>) -> Vec<String> {
    ops.iter().map(|op| format!("{:?}", op)).collect()
}

#[test]
fn keys_hold_a_byte_and_an_id_most_significant_byte_first() {
    assert_eq!(
        serialize_head_level_lookup_key(Id(0x0102030405060708), 9),
        vec![9, 1, 2, 3, 4, 5, 6, 7, 8]
    );
    assert_eq!(
        serialize_head_level_lookup_key(Id(20), 0),
        vec![0, 0, 0, 0, 0, 0, 0, 0, 20]
    );
    assert_eq!(
        index_parent_key(Group::NonMaster, Id(0x0a0b)),
        vec![1, 0, 0, 0, 0, 0, 0, 0x0a, 0x0b]
    );
    assert_eq!(
        index_parent_key(Group::Master, Id(u64::MAX)),
        vec![0, 255, 255, 255, 255, 255, 255, 255, 255]
    );
}

#[test]
fn the_markers_are_told_apart() {
    assert_eq!(clear_non_master_bytes(), b"CLRNM".to_vec());
    assert!(is_clear_non_master_record(b"CLRNM"));
    assert!(!is_clear_non_master_record(b"CLRNMX"));
    assert!(!is_clear_non_master_record(b"CLRN"));
    assert!(!is_clear_non_master_record(b"clrnm"));
    assert!(is_rewrite_last_flat_record(&[0xf0]));
    assert!(is_rewrite_last_flat_record(&[0xf0, 1, 2]));
    assert!(!is_rewrite_last_flat_record(&[]));
    assert!(!is_rewrite_last_flat_record(&[0x0f, 0xf0]));
}

#[test]
fn a_segment_is_found_under_its_level_and_head() {
    let seg = Segment::new(SegmentFlags::empty(), 0, Id(6), Id(10), &[Id(3)]);
    assert_eq!(show(level_head_index(&seg.0)), vec!["Reference { start: 1, end: 10 }"]);
    assert_eq!(show(level_head_index(&[1, 2, 3])), Vec::<String>::new());
}

#[test]
fn a_replacing_record_removes_the_old_key_and_adds_the_new_one() {
    let merged = Segment::new(SegmentFlags::root(), 0, Id(0), Id(10), &[]);
    let record = rewrite_record_bytes(Id(5), &merged.0);
    assert_eq!(record[0], 0xf0);
    assert_eq!(&record[1..10], &[0, 0, 0, 0, 0, 0, 0, 0, 5]);
    assert_eq!(&record[10..], &merged.0[..]);
    assert_eq!(
        show(level_head_index(&record)),
        vec![
            "Remove([0, 0, 0, 0, 0, 0, 0, 0, 5])",
            "Reference { start: 11, end: 20 }"
        ]
    );
    assert_eq!(show(group_parent_index(&record)), Vec::<String>::new());
    // Too short to hold a key after the header.
    assert_eq!(show(level_head_index(&record[..15])), Vec::<String>::new());
}

#[test]
fn the_clearing_record_removes_the_non_master_keys_of_every_level() {
    let ops = level_head_index(b"CLRNM");
    assert_eq!(ops.len(), 256);
    let shown = show(ops);
    assert_eq!(shown[0], "RemovePrefix([0, 1])");
    assert_eq!(shown[1], "RemovePrefix([1, 1])");
    assert_eq!(shown[255], "RemovePrefix([255, 1])");
    assert_eq!(show(group_parent_index(b"CLRNM")), vec!["RemovePrefix([1])"]);
}

#[test]
fn a_flat_segment_is_found_under_each_parent() {
    let seg = Segment::new(SegmentFlags::empty(), 0, Id(6), Id(10), &[Id(3), Id(5)]);
    assert_eq!(
        show(group_parent_index(&seg.0)),
        vec![
            "Owned([0, 0, 0, 0, 0, 0, 0, 0, 3])",
            "Owned([0, 0, 0, 0, 0, 0, 0, 0, 5])"
        ]
    );
    let n0 = Group::NonMaster.min_id().0;
    let seg = Segment::new(SegmentFlags::empty(), 0, Id(n0), Id(n0 + 1), &[Id(3)]);
    assert_eq!(
        show(group_parent_index(&seg.0)),
        vec!["Owned([1, 0, 0, 0, 0, 0, 0, 0, 3])"]
    );
    // Segments above level 0 and records of no segment have no keys.
    let seg = Segment::new(SegmentFlags::empty(), 1, Id(6), Id(10), &[Id(3)]);
    assert_eq!(show(group_parent_index(&seg.0)), Vec::<String>::new());
    assert_eq!(show(group_parent_index(&[0, 0, 9])), Vec::<String>::new());
    let root = Segment::new(SegmentFlags::root(), 0, Id(0), Id(5), &[]);
    assert_eq!(show(group_parent_index(&root.0)), Vec::<String>::new());
}
