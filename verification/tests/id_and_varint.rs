use segmented_changelog::id::Group;
use segmented_changelog::id::Id;
use segmented_changelog::id::GROUP_SPAN;
use segmented_changelog::varint;

#[test]
fn groups_have_tags_and_bounds() {
    assert_eq!(Group::Master.tag(), 0);
    assert_eq!(Group::NonMaster.tag(), 1);
    assert_eq!(Group::Master.min_id(), Id(0));
    assert_eq!(Group::Master.max_id(), Id(0x00ff_ffff_ffff_ffff));
    assert_eq!(Group::NonMaster.min_id(), Id(0x0100_0000_0000_0000));
    assert_eq!(Group::NonMaster.max_id(), Id(0x01ff_ffff_ffff_ffff));
    assert_eq!(GROUP_SPAN, 1u64 << 56);
    assert_eq!(Group::from_tag(0), Some(Group::Master));
    assert_eq!(Group::from_tag(1), Some(Group::NonMaster));
    assert_eq!(Group::from_tag(2), None);
    assert_eq!(Group::from_tag(255), None);
}

#[test]
fn ids_know_their_group() {
    assert_eq!(Id(0).group(), Some(Group::Master));
    assert_eq!(Id((1 << 56) - 1).group(), Some(Group::Master));
    assert_eq!(Id(1 << 56).group(), Some(Group::NonMaster));
    assert_eq!(Id((2 << 56) - 1).group(), Some(Group::NonMaster));
    assert_eq!(Id(2 << 56).group(), None);
    assert_eq!(Id(u64::MAX).group(), None);
    assert!(Group::Master.contains(Id(7)));
    assert!(!Group::Master.contains(Id(1 << 56)));
    assert!(Group::NonMaster.contains(Id((1 << 56) + 7)));
    assert!(!Group::NonMaster.contains(Id(7)));
    assert!(!Group::NonMaster.contains(Id(u64::MAX)));
}

#[test]
fn every_master_id_is_below_every_non_master_id() {
    assert!(Group::Master.max_id() < Group::NonMaster.min_id());
    assert!(Id(0) < Id(1 << 56));
}

#[test]
fn checked_next_stops_at_the_largest_number() {
    assert_eq!(Id(41).checked_next(), Some(Id(42)));
    assert_eq!(Id(u64::MAX).checked_next(), None);
}

fn encoded(value: u64) -> Vec<u8> {
    let mut out = Vec::new();
    varint::write(&mut out, value);
    out
}

#[test]
fn varint_writes_seven_bits_per_byte_low_group_first() {
    assert_eq!(encoded(0), vec![0]);
    assert_eq!(encoded(10), vec![10]);
    assert_eq!(encoded(120), vec![120]);
    assert_eq!(encoded(127), vec![127]);
    assert_eq!(encoded(128), vec![0x80, 0x01]);
    assert_eq!(encoded(300), vec![0xac, 0x02]);
    assert_eq!(encoded(22742734291), vec![211, 171, 202, 220, 84]);
    assert_eq!(
        encoded(u64::MAX),
        vec![0xff, 0xff, 0xff, 0xff, 0xff, 0xff, 0xff, 0xff, 0xff, 0x01]
    );
}

#[test]
fn varint_write_appends() {
    let mut out = vec![9u8, 9];
    varint::write(&mut out, 128);
    assert_eq!(out, vec![9, 9, 0x80, 0x01]);
}

#[test]
fn varint_reads_back_what_was_written() {
    for value in [0u64, 1, 127, 128, 255, 16383, 16384, 1 << 56, u64::MAX - 1, u64::MAX] {
        let mut bytes = encoded(value);
        let len = bytes.len();
        bytes.push(0xaa);
        assert_eq!(varint::read(&bytes, 0), Some((value, len)));
    }
}

#[test]
fn varint_reads_at_an_offset() {
    let bytes = [120u8, 211, 171, 202, 220, 84, 255];
    assert_eq!(varint::read(&bytes, 0), Some((120, 1)));
    assert_eq!(varint::read(&bytes, 1), Some((22742734291, 5)));
    assert_eq!(varint::read(&bytes, 6), None);
    assert_eq!(varint::read(&bytes, 7), None);
    assert_eq!(varint::read(&bytes, 8), None);
}

#[test]
fn varint_rejects_numbers_that_do_not_fit() {
    // 2^64: ten bytes, the last one 2.
    let too_big = [0x80u8, 0x80, 0x80, 0x80, 0x80, 0x80, 0x80, 0x80, 0x80, 0x02];
    assert_eq!(varint::read(&too_big, 0), None);
    // Eleven bytes are never read, whatever they spell.
    let too_long = [0x80u8, 0x80, 0x80, 0x80, 0x80, 0x80, 0x80, 0x80, 0x80, 0x80, 0x00];
    assert_eq!(varint::read(&too_long, 0), None);
    // Zeros in the high groups are accepted up to ten bytes.
    let padded = [0x81u8, 0x80, 0x00];
    assert_eq!(varint::read(&padded, 0), Some((1, 3)));
    assert_eq!(varint::read(&[], 0), None);
}
