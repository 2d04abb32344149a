use segmented_changelog::id::Id;
use segmented_changelog::segment::decode;
use segmented_changelog::segment::describe_segment_bytes;
use segmented_changelog::segment::CorruptSegment;
use segmented_changelog::segment::Segment;
use segmented_changelog::segment::SegmentData;
use segmented_changelog::segment::SegmentFlags;
use segmented_changelog::segment::Span;

const N0: u64 = 1 << 56;

#[test]
fn flags_are_two_bits() {
    assert_eq!(SegmentFlags::empty().bits(), 0);
    assert_eq!(SegmentFlags::root().bits(), 1);
    assert_eq!(SegmentFlags::head().bits(), 2);
    assert_eq!(SegmentFlags { has_root: true, only_head: true }.bits(), 3);
    assert_eq!(SegmentFlags::from_bits(0), Some(SegmentFlags::empty()));
    assert_eq!(SegmentFlags::from_bits(1), Some(SegmentFlags::root()));
    assert_eq!(SegmentFlags::from_bits(2), Some(SegmentFlags::head()));
    assert_eq!(
        SegmentFlags::from_bits(3),
        Some(SegmentFlags { has_root: true, only_head: true })
    );
    assert_eq!(SegmentFlags::from_bits(4), None);
    assert_eq!(SegmentFlags::from_bits(0xf0), None);
}

#[test]
fn a_record_is_laid_out_byte_by_byte() {
    let seg = Segment::new(SegmentFlags::head(), 0, Id(6), Id(20), &[Id(3)]);
    assert_eq!(
        seg.0,
        vec![
            2, // flags
            0, // level
            0, 0, 0, 0, 0, 0, 0, 20, // high, big-endian
            14, // high - low
            1,  // parent count
            3,  // parent
        ]
    );
    let seg = Segment::new(SegmentFlags::root(), 3, Id(0x0102030405), Id(0x0102030405 + 300), &[]);
    assert_eq!(
        seg.0,
        vec![1, 3, 0, 0, 0, 1, 2, 3, 5, 0x31, 0xac, 0x02, 0]
    );
}

#[test]
fn a_record_is_read_back() {
    let seg = Segment::new(SegmentFlags::empty(), 0, Id(6), Id(10), &[Id(3), Id(5)]);
    let data = seg.data().unwrap();
    assert_eq!(data.flags, SegmentFlags::empty());
    assert_eq!(data.level, 0);
    assert_eq!(data.low, Id(6));
    assert_eq!(data.high, Id(10));
    assert_eq!(data.parents, vec![Id(3), Id(5)]);
    assert_eq!(data.encode(), seg.0);
    assert_eq!(seg.flags(), Ok(SegmentFlags::empty()));
    assert_eq!(seg.has_root(), Ok(false));
    assert_eq!(seg.only_head(), Ok(false));
    assert_eq!(seg.level(), Ok(0));
    assert_eq!(seg.high(), Ok(Id(10)));
    assert_eq!(seg.head(), Ok(Id(10)));
    assert_eq!(seg.span(), Ok(Span { low: Id(6), high: Id(10) }));
    assert_eq!(seg.parents(), Ok(vec![Id(3), Id(5)]));
    assert!(data.is_wf());
}

#[test]
fn records_of_no_segment_are_refused() {
    // Too short to hold the highest id.
    assert!(matches!(decode(&[1, 0, 0, 0, 0]), Err(CorruptSegment)));
    // Ends before the parent count.
    assert!(matches!(decode(&[1, 0, 0, 0, 0, 0, 0, 0, 0, 5, 5]), Err(CorruptSegment)));
    // Ends before the last parent.
    assert!(matches!(
        decode(&[0, 0, 0, 0, 0, 0, 0, 0, 0, 9, 0, 2, 3]),
        Err(CorruptSegment)
    ));
    // Goes on after the last parent.
    assert!(matches!(
        decode(&[0, 0, 0, 0, 0, 0, 0, 0, 0, 9, 0, 1, 3, 7]),
        Err(CorruptSegment)
    ));
    // A flags byte with unknown bits, such as the marker of another kind of record.
    assert!(matches!(
        decode(&[0xf0, 0, 0, 0, 0, 0, 0, 0, 0, 5, 5, 0]),
        Err(CorruptSegment)
    ));
    // The lowest id would lie below 0.
    assert!(matches!(
        decode(&[1, 0, 0, 0, 0, 0, 0, 0, 0, 5, 6, 0]),
        Err(CorruptSegment)
    ));
    // Marked as having a root, with a parent.
    assert!(matches!(
        decode(&[1, 0, 0, 0, 0, 0, 0, 0, 0, 9, 0, 1, 3]),
        Err(CorruptSegment)
    ));
    // Not marked as having a root, without parents.
    assert!(matches!(
        decode(&[0, 0, 0, 0, 0, 0, 0, 0, 0, 9, 0, 0]),
        Err(CorruptSegment)
    ));
    // A flat segment with a parent that does not come before it.
    assert!(matches!(
        decode(&[0, 0, 0, 0, 0, 0, 0, 0, 0, 9, 0, 1, 9]),
        Err(CorruptSegment)
    ));
    // From the master group into the other one.
    assert!(matches!(
        decode(&[1, 0, 1, 0, 0, 0, 0, 0, 0, 0, 1, 0]),
        Err(CorruptSegment)
    ));
    // The level that is reserved for other records.
    assert!(matches!(
        decode(&[1, 0xf0, 0, 0, 0, 0, 0, 0, 0, 9, 0, 0]),
        Err(CorruptSegment)
    ));
    assert!(decode(&[1, 0xef, 0, 0, 0, 0, 0, 0, 0, 9, 0, 0]).is_ok());
    // An id of no group.
    assert!(matches!(
        decode(&[1, 0, 2, 0, 0, 0, 0, 0, 0, 0, 0, 0]),
        Err(CorruptSegment)
    ));
    assert!(matches!(Segment(vec![1, 2, 3]).level(), Err(CorruptSegment)));
}

#[test]
fn a_parent_after_the_ids_is_fine_above_level_zero() {
    let bytes = [0u8, 1, 0, 0, 0, 0, 0, 0, 0, 9, 0, 1, 9];
    let data = decode(&bytes).unwrap();
    assert_eq!(data.level, 1);
    assert_eq!(data.parents, vec![Id(9)]);
}

#[test]
fn segments_are_shown_in_short() {
    let text = |seg: Segment| seg.data().unwrap().to_text();
    assert_eq!(text(Segment::new(SegmentFlags::root(), 0, Id(0), Id(5), &[])), "R0-5[]");
    assert_eq!(text(Segment::new(SegmentFlags::head(), 0, Id(6), Id(20), &[Id(3)])), "H6-20[3]");
    assert_eq!(text(Segment::new(SegmentFlags::empty(), 0, Id(6), Id(10), &[Id(3)])), "6-10[3]");
    assert_eq!(
        text(Segment::new(SegmentFlags::empty(), 0, Id(12), Id(12), &[Id(1), Id(2), Id(11)])),
        "12-12[1, 2, 11]"
    );
    assert_eq!(
        text(Segment::new(
            SegmentFlags::empty(),
            0,
            Id(N0),
            Id(N0 + 12),
            &[Id(1234567890)]
        )),
        "N0-N12[1234567890]"
    );
    let data = SegmentData {
        flags: SegmentFlags { has_root: true, only_head: true },
        level: 0,
        low: Id(0),
        high: Id(3),
        parents: vec![],
    };
    assert_eq!(data.to_text(), "RH0-3[]");
}

#[test]
fn a_record_is_described_field_by_field() {
    let seg = Segment::new(SegmentFlags::empty(), 0, Id(6), Id(10), &[Id(3), Id(300)]);
    // The record is not well-formed (a parent after the ids), which a
    // description does not mind.
    assert_eq!(
        describe_segment_bytes(&seg.0),
        "# 00: Flags = (empty)\n\
         # 00: Level = 0\n\
         # 00 00 00 00 00 00 00 0a: High = 10\n\
         # 04: Delta = 4 (Low = 6)\n\
         # 02: Parent count = 2\n\
         # 03: Parents[0] = 3\n\
         # ac 02: Parents[1] = 300\n"
    );
    let seg = Segment::new(
        SegmentFlags { has_root: true, only_head: true },
        2,
        Id(N0 + 1),
        Id(N0 + 2),
        &[],
    );
    assert_eq!(
        describe_segment_bytes(&seg.0),
        "# 03: Flags = HAS_ROOT | ONLY_HEAD\n\
         # 02: Level = 2\n\
         # 01 00 00 00 00 00 00 02: High = N2\n\
         # 01: Delta = 1 (Low = N1)\n\
         # 00: Parent count = 0\n"
    );
}

#[test]
fn a_description_stops_where_the_bytes_end() {
    assert_eq!(describe_segment_bytes(&[]), "");
    assert_eq!(describe_segment_bytes(&[2]), "# 02: Flags = ONLY_HEAD\n");
    assert_eq!(
        describe_segment_bytes(&[1, 7, 0, 0]),
        "# 01: Flags = HAS_ROOT\n# 07: Level = 7\n"
    );
    assert_eq!(
        describe_segment_bytes(&[1, 0, 0, 0, 0, 0, 0, 0, 0, 5, 9]),
        "# 01: Flags = HAS_ROOT\n\
         # 00: Level = 0\n\
         # 00 00 00 00 00 00 00 05: High = 5\n\
         # 09: Delta = 9\n"
    );
    assert_eq!(
        describe_segment_bytes(&[1, 0, 0, 0, 0, 0, 0, 0, 0, 5, 1, 2, 3]),
        "# 01: Flags = HAS_ROOT\n\
         # 00: Level = 0\n\
         # 00 00 00 00 00 00 00 05: High = 5\n\
         # 01: Delta = 1 (Low = 4)\n\
         # 02: Parent count = 2\n\
         # 03: Parents[0] = 3\n"
    );
}
