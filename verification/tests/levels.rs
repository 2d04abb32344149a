use segmented_changelog::id::Group;
use segmented_changelog::id::Id;
use segmented_changelog::iddag::FlatSegment;
use segmented_changelog::iddag::IdDag;
use segmented_changelog::levels::build_level;
use segmented_changelog::segment::SegmentData;
use segmented_changelog::segment::SegmentFlags;

const N0: u64 = 1 << 56;

fn flat(low: u64, high: u64, parents: &[u64]) -> FlatSegment {
    FlatSegment {
        low: Id(low),
        high: Id(high),
        parents: parents.iter().map(|p| Id(*p)).collect(),
    }
}

fn lower(level: u8, low: u64, high: u64, parents: &[u64]) -> SegmentData {
    SegmentData {
        flags: SegmentFlags { has_root: parents.is_empty(), only_head: false },
        level,
        low: Id(low),
        high: Id(high),
        parents: parents.iter().map(|p| Id(*p)).collect(),
    }
}

fn shape(row: &[SegmentData]) -> Vec<(u8, u64, u64, Vec<u64>, bool, bool)> {
    row.iter()
        .map(|d| {
            (
                d.level,
                d.low.0,
                d.high.0,
                d.parents.iter().map(|p| p.0).collect(),
                d.flags.has_root,
                d.flags.only_head,
            )
        })
        .collect()
}

/// 0-3, 4-6 on 1, 7-9 on 3 and 6, 10 on 3; two non-master segments on 9 and on 5.
fn graph() -> IdDag {
    IdDag::from_flat_segments(&vec![
        flat(0, 3, &[]),
        flat(4, 6, &[1]),
        flat(7, 9, &[3, 6]),
        flat(10, 10, &[3]),
        flat(N0, N0 + 2, &[9]),
        flat(N0 + 3, N0 + 3, &[5, N0 + 1]),
    ])
    .unwrap()
}

#[test]
fn a_run_with_one_head_becomes_one_segment() {
    let row = vec![lower(0, 0, 3, &[]), lower(0, 4, 6, &[1]), lower(0, 7, 9, &[3, 6])];
    let built = build_level(&row, 1, 16);
    assert_eq!(shape(&built), vec![(1, 0, 9, vec![], true, false)]);
}

#[test]
fn a_run_stops_before_a_second_head() {
    let row = vec![
        lower(0, 0, 3, &[]),
        lower(0, 4, 6, &[1]),
        lower(0, 7, 9, &[3, 6]),
        lower(0, 10, 10, &[3]),
    ];
    let built = build_level(&row, 1, 16);
    assert_eq!(
        shape(&built),
        vec![(1, 0, 9, vec![], true, false), (1, 10, 10, vec![3], false, false)]
    );
}

#[test]
fn a_run_has_no_more_segments_than_the_size() {
    let row = vec![
        lower(0, 0, 1, &[]),
        lower(0, 2, 2, &[1]),
        lower(0, 3, 5, &[2]),
        lower(0, 6, 6, &[5]),
        lower(0, 7, 9, &[6, 0]),
    ];
    assert_eq!(shape(&build_level(&row, 1, 16)), vec![(1, 0, 9, vec![], true, false)]);
    assert_eq!(
        shape(&build_level(&row, 1, 2)),
        vec![
            (1, 0, 2, vec![], true, false),
            (1, 3, 6, vec![2], false, false),
            (1, 7, 9, vec![6, 0], false, false),
        ]
    );
    assert_eq!(
        shape(&build_level(&row, 3, 1)),
        vec![
            (3, 0, 1, vec![], true, false),
            (3, 2, 2, vec![1], false, false),
            (3, 3, 5, vec![2], false, false),
            (3, 6, 6, vec![5], false, false),
            (3, 7, 9, vec![6, 0], false, false),
        ]
    );
    assert!(build_level(&row, 1, 0).is_empty());
}

#[test]
fn a_gap_ends_a_run() {
    let row = vec![lower(0, 0, 3, &[]), lower(0, 5, 6, &[3]), lower(0, 7, 7, &[6])];
    let built = build_level(&row, 1, 16);
    assert_eq!(
        shape(&built),
        vec![(1, 0, 3, vec![], true, false), (1, 5, 7, vec![3], false, false)]
    );
}

#[test]
fn parents_among_the_ids_of_a_run_are_left_out() {
    let row = vec![lower(0, 10, 12, &[4, 7]), lower(0, 13, 13, &[12, 11, 4]), lower(0, 14, 15, &[13, 9])];
    let built = build_level(&row, 2, 16);
    assert_eq!(shape(&built), vec![(2, 10, 15, vec![4, 7, 4, 9], false, false)]);
}

#[test]
fn nothing_is_built_from_nothing() {
    assert!(build_level(&Vec::new(), 1, 16).is_empty());
}

#[test]
fn the_levels_of_a_graph_are_built_from_its_flat_segments() {
    let dag = graph();
    assert_eq!(
        shape(&dag.flat_level(Group::Master)),
        vec![
            (0, 0, 3, vec![], true, false),
            (0, 4, 6, vec![1], false, false),
            (0, 7, 9, vec![3, 6], false, false),
            (0, 10, 10, vec![3], false, false),
        ]
    );
    assert_eq!(shape(&dag.level_segments(Group::Master, 0, 16)), shape(&dag.flat_level(Group::Master)));
    let first = dag.level_segments(Group::Master, 1, 16);
    assert_eq!(
        shape(&first),
        vec![(1, 0, 9, vec![], true, false), (1, 10, 10, vec![3], false, false)]
    );
    let second = dag.level_segments(Group::Master, 2, 16);
    assert_eq!(
        shape(&second),
        vec![(2, 0, 9, vec![], true, false), (2, 10, 10, vec![3], false, false)]
    );
    let other = dag.level_segments(Group::NonMaster, 1, 16);
    assert_eq!(
        shape(&other),
        vec![
            (1, N0, N0 + 2, vec![9], false, false),
            (1, N0 + 3, N0 + 3, vec![5, N0 + 1], false, false),
        ]
    );
}

#[test]
fn every_level_holds_the_ids_of_the_graph() {
    let dag = graph();
    for level in 0..4u8 {
        for size in 1..5usize {
            let row = dag.level_segments(Group::Master, level, size);
            let mut next = 0u64;
            for seg in &row {
                assert_eq!(seg.level, level);
                assert_eq!(seg.low.0, next);
                assert!(seg.low <= seg.high);
                assert!(seg.is_wf());
                for id in seg.low.0..=seg.high.0 {
                    assert!(dag.is_ancestor(Id(id), seg.high));
                }
                for p in &seg.parents {
                    assert!(p.0 < seg.low.0);
                }
                next = seg.high.0 + 1;
            }
            assert_eq!(Id(next), dag.next_free_id(0, Group::Master));
        }
    }
}

#[test]
fn a_linear_graph_is_one_segment_at_every_level() {
    let mut dag = IdDag::new();
    dag.add_vertex(Id(0), &vec![]).unwrap();
    dag.add_vertex(Id(1), &vec![Id(0)]).unwrap();
    dag.add_vertex(Id(2), &vec![Id(1)]).unwrap();
    dag.add_vertex(Id(3), &vec![Id(2)]).unwrap();
    assert_eq!(shape(&dag.flat_level(Group::Master)), vec![(0, 0, 3, vec![], true, true)]);
    assert_eq!(
        shape(&dag.level_segments(Group::Master, 1, 8)),
        vec![(1, 0, 3, vec![], true, false)]
    );
    assert!(dag.level_segments(Group::NonMaster, 1, 8).is_empty());
}
