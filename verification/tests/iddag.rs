use segmented_changelog::id::Group;
use segmented_changelog::id::Id;
use segmented_changelog::iddag::holds;
use segmented_changelog::iddag::insert_ascending;
use segmented_changelog::iddag::parents_head_and_roots;
use segmented_changelog::iddag::DagError;
use segmented_changelog::iddag::FlatSegment;
use segmented_changelog::iddag::IdDag;
use segmented_changelog::segment::SegmentFlags;

const N0: u64 = 1 << 56;

fn flat(low: u64, high: u64, parents: &[u64]) -> FlatSegment {
    FlatSegment {
        low: Id(low),
        high: Id(high),
        parents: parents.iter().map(|p| Id(*p)).collect(),
    }
}

fn ids(numbers: &[u64]) -> Vec<Id> {
    numbers.iter().map(|n| Id(*n)).collect()
}

/// 0-3, 4-6 on 1, 7-9 on 3 and 6, 10 on 3; two non-master segments on 9 and on 5.
fn graph() -> IdDag {
    IdDag::from_flat_segments(&vec![
        flat(0, 3, &[]),
        flat(4, 6, &[1]),
        flat(7, 9, &[3, 6]),
        flat(10, 10, &[3]),
        flat(N0, N0 + 2, &[9]),
        flat(N0 + 3, N0 + 3, &[5, N0 + 1]),
    ])
    .unwrap()
}

#[test]
fn the_flat_segments_of_a_group_leave_no_gap() {
    let dag = graph();
    assert_eq!(dag.segment_count(), 6);
    assert_eq!(dag.next_free_id(0, Group::Master), Id(11));
    assert_eq!(dag.next_free_id(0, Group::NonMaster), Id(N0 + 4));
    assert_eq!(dag.next_free_id(1, Group::Master), Id(0));
    assert_eq!(dag.next_free_id(1, Group::NonMaster), Id(N0));
    for group in [Group::Master, Group::NonMaster] {
        let segments = dag.flat_segments(group);
        let mut next = group.min_id().0;
        for seg in &segments {
            assert_eq!(seg.low.0, next);
            assert!(seg.low <= seg.high);
            next = seg.high.0 + 1;
        }
        assert_eq!(Id(next), dag.next_free_id(0, group));
        for id in group.min_id().0..next {
            assert!(dag.contains_id(Id(id)));
            assert_eq!(
                segments.iter().filter(|s| s.low.0 <= id && id <= s.high.0).count(),
                1
            );
        }
        assert!(!dag.contains_id(Id(next)));
    }
    assert_eq!(
        dag.flat_segments(Group::Master),
        vec![flat(0, 3, &[]), flat(4, 6, &[1]), flat(7, 9, &[3, 6]), flat(10, 10, &[3])]
    );
    let empty = IdDag::new();
    assert_eq!(empty.next_free_id(0, Group::Master), Id(0));
    assert_eq!(empty.next_free_id(0, Group::NonMaster), Id(N0));
    assert!(!empty.contains_id(Id(0)));
    assert_eq!(empty.flat_segments(Group::Master), vec![]);
}

#[test]
fn parents_come_before_their_children() {
    let dag = graph();
    for group in [Group::Master, Group::NonMaster] {
        for seg in dag.flat_segments(group) {
            for p in &seg.parents {
                assert!(*p < seg.low);
                assert!(p.group() == seg.low.group() || p.group() == Some(Group::Master));
            }
        }
    }
    assert_eq!(dag.parent_ids(Id(0)), Some(vec![]));
    assert_eq!(dag.parent_ids(Id(2)), Some(ids(&[1])));
    assert_eq!(dag.parent_ids(Id(4)), Some(ids(&[1])));
    assert_eq!(dag.parent_ids(Id(7)), Some(ids(&[3, 6])));
    assert_eq!(dag.parent_ids(Id(9)), Some(ids(&[8])));
    assert_eq!(dag.parent_ids(Id(N0)), Some(ids(&[9])));
    assert_eq!(dag.parent_ids(Id(N0 + 3)), Some(ids(&[5, N0 + 1])));
    assert_eq!(dag.parent_ids(Id(11)), None);
    assert_eq!(dag.parent_ids(Id(N0 + 4)), None);
}

#[test]
fn steps_to_the_first_parent_jump_over_segments() {
    let dag = graph();
    assert_eq!(dag.first_ancestor_nth(Id(9), 0), Some(Id(9)));
    assert_eq!(dag.first_ancestor_nth(Id(9), 2), Some(Id(7)));
    assert_eq!(dag.first_ancestor_nth(Id(9), 3), Some(Id(3)));
    assert_eq!(dag.first_ancestor_nth(Id(9), 6), Some(Id(0)));
    assert_eq!(dag.first_ancestor_nth(Id(9), 7), None);
    assert_eq!(dag.first_ancestor_nth(Id(9), u64::MAX), None);
    assert_eq!(dag.first_ancestor_nth(Id(6), 3), Some(Id(1)));
    assert_eq!(dag.first_ancestor_nth(Id(N0 + 3), 1), Some(Id(5)));
    assert_eq!(dag.first_ancestor_nth(Id(N0 + 3), 4), Some(Id(0)));
    assert_eq!(dag.first_ancestor_nth(Id(N0 + 2), 3), Some(Id(9)));
    assert_eq!(dag.first_ancestor_nth(Id(11), 0), None);
    assert_eq!(dag.first_ancestor_nth(Id(0), 1), None);

    assert_eq!(dag.distance_from(Id(9), Id(9)), Some(0));
    assert_eq!(dag.distance_from(Id(9), Id(3)), Some(3));
    assert_eq!(dag.distance_from(Id(9), Id(0)), Some(6));
    // 4, 5 and 6 are reached from 9 over the second parent of 7 only.
    assert_eq!(dag.distance_from(Id(9), Id(5)), None);
    assert_eq!(dag.distance_from(Id(3), Id(9)), None);
    assert_eq!(dag.distance_from(Id(11), Id(3)), None);
    for head in [9u64, 6, 10, N0 + 3, N0 + 2] {
        for n in 0..12u64 {
            if let Some(a) = dag.first_ancestor_nth(Id(head), n) {
                assert_eq!(dag.distance_from(Id(head), a), Some(n));
                assert_eq!(dag.to_first_ancestor_nth(a, &[Id(head)]), Some((Id(head), n)));
            }
        }
    }
}

#[test]
fn the_nearest_head_gives_the_place_of_a_vertex() {
    let dag = graph();
    assert_eq!(dag.to_first_ancestor_nth(Id(2), &[Id(9), Id(10)]), Some((Id(10), 2)));
    assert_eq!(dag.to_first_ancestor_nth(Id(2), &[Id(10), Id(9)]), Some((Id(10), 2)));
    assert_eq!(dag.to_first_ancestor_nth(Id(8), &[Id(10), Id(9)]), Some((Id(9), 1)));
    assert_eq!(dag.to_first_ancestor_nth(Id(5), &[Id(10), Id(9)]), None);
    assert_eq!(dag.to_first_ancestor_nth(Id(5), &[Id(10), Id(9), Id(6)]), Some((Id(6), 1)));
    assert_eq!(dag.to_first_ancestor_nth(Id(5), &[]), None);
    assert_eq!(dag.to_first_ancestor_nth(Id(5), &[Id(77)]), None);
    // Of two heads as near, the first one is taken.
    let two = IdDag::from_flat_segments(&vec![
        flat(0, 1, &[]),
        flat(2, 2, &[1]),
        flat(3, 3, &[1]),
    ])
    .unwrap();
    assert_eq!(two.to_first_ancestor_nth(Id(1), &[Id(3), Id(2)]), Some((Id(3), 1)));
    assert_eq!(two.to_first_ancestor_nth(Id(1), &[Id(2), Id(3)]), Some((Id(2), 1)));
    assert_eq!(two.to_first_ancestor_nth(Id(1), &[Id(2), Id(1)]), Some((Id(1), 0)));
}

#[test]
fn ancestry_follows_all_parents() {
    let dag = graph();
    let all: Vec<u64> = (0..11).chain(N0..N0 + 4).collect();
    for a in &all {
        // Every vertex is its own ancestor.
        assert!(dag.is_ancestor(Id(*a), Id(*a)));
        for b in &all {
            // No two vertexes are ancestors of each other.
            if dag.is_ancestor(Id(*a), Id(*b)) && dag.is_ancestor(Id(*b), Id(*a)) {
                assert_eq!(a, b);
            }
            if dag.is_ancestor(Id(*a), Id(*b)) {
                assert!(a <= b);
            }
        }
    }
    let ancestors = |d: u64| -> Vec<u64> {
        all.iter().copied().filter(|a| dag.is_ancestor(Id(*a), Id(d))).collect()
    };
    assert_eq!(ancestors(0), vec![0]);
    assert_eq!(ancestors(6), vec![0, 1, 4, 5, 6]);
    assert_eq!(ancestors(9), vec![0, 1, 2, 3, 4, 5, 6, 7, 8, 9]);
    assert_eq!(ancestors(10), vec![0, 1, 2, 3, 10]);
    assert_eq!(ancestors(N0 + 1), vec![0, 1, 2, 3, 4, 5, 6, 7, 8, 9, N0, N0 + 1]);
    assert_eq!(
        ancestors(N0 + 3),
        vec![0, 1, 2, 3, 4, 5, 6, 7, 8, 9, N0, N0 + 1, N0 + 3]
    );
    assert!(!dag.is_ancestor(Id(3), Id(11)));
    assert!(!dag.is_ancestor(Id(11), Id(11)));
    assert!(!dag.is_ancestor(Id(11), Id(3)));

    assert_eq!(
        dag.reach_from(&[Id(6), Id(10)]),
        vec![Some(Id(3)), Some(Id(6)), None, Some(Id(10)), None, None]
    );
    assert_eq!(
        dag.reach_from(&[Id(8)]),
        vec![Some(Id(3)), Some(Id(6)), Some(Id(8)), None, None, None]
    );
    assert_eq!(dag.reach_from(&[]), vec![None, None, None, None, None, None]);
    assert_eq!(dag.reach_from(&[Id(50)]), vec![None, None, None, None, None, None]);
}

#[test]
fn what_a_head_has_gained_is_cut_along_the_segments() {
    let dag = graph();
    assert_eq!(
        dag.segments_between(Id(5), Id(9)),
        vec![flat(2, 3, &[1]), flat(6, 6, &[5]), flat(7, 9, &[3, 6])]
    );
    assert_eq!(dag.segments_between(Id(9), Id(9)), vec![]);
    assert_eq!(dag.segments_between(Id(9), Id(5)), vec![]);
    assert_eq!(dag.segments_between(Id(3), Id(10)), vec![flat(10, 10, &[3])]);
    assert_eq!(
        dag.segments_between(Id(50), Id(5)),
        vec![flat(0, 1, &[]), flat(4, 5, &[1])]
    );
    assert_eq!(dag.segments_between(Id(5), Id(50)), vec![]);
    // A vertex that is no ancestor of the new head takes away what they share.
    assert_eq!(
        dag.segments_between(Id(10), Id(6)),
        vec![flat(4, 6, &[1])]
    );
}

#[test]
fn the_anchors_of_segments_are_their_parents_heads_and_roots() {
    assert_eq!(
        parents_head_and_roots(&vec![flat(0, 3, &[]), flat(4, 6, &[1]), flat(7, 9, &[3, 6])]),
        ids(&[0, 1, 3, 6, 9])
    );
    assert_eq!(parents_head_and_roots(&vec![flat(6, 6, &[5])]), ids(&[5, 6]));
    assert_eq!(parents_head_and_roots(&vec![flat(5, 5, &[])]), ids(&[5]));
    assert_eq!(parents_head_and_roots(&vec![]), ids(&[]));
    let mut sorted = ids(&[2, 5, 9]);
    insert_ascending(&mut sorted, Id(5));
    insert_ascending(&mut sorted, Id(0));
    insert_ascending(&mut sorted, Id(7));
    insert_ascending(&mut sorted, Id(10));
    assert_eq!(sorted, ids(&[0, 2, 5, 7, 9, 10]));
    assert!(holds(&sorted, Id(7)));
    assert!(!holds(&sorted, Id(8)));
}

#[test]
fn a_segment_joins_at_the_id_that_is_free_next() {
    let mut dag = IdDag::new();
    assert_eq!(dag.insert_flat_segment(flat(1, 3, &[])), Err(DagError::NotNextFree));
    assert_eq!(dag.insert_flat_segment(flat(0, 3, &[])), Ok(()));
    assert_eq!(dag.insert_flat_segment(flat(5, 6, &[1])), Err(DagError::NotNextFree));
    assert_eq!(dag.insert_flat_segment(flat(3, 6, &[1])), Err(DagError::NotNextFree));
    assert_eq!(dag.insert_flat_segment(flat(4, 6, &[4])), Err(DagError::BadSegment));
    assert_eq!(dag.insert_flat_segment(flat(4, 6, &[7])), Err(DagError::BadSegment));
    assert_eq!(dag.insert_flat_segment(flat(6, 4, &[1])), Err(DagError::BadSegment));
    assert_eq!(dag.insert_flat_segment(flat(4, N0, &[1])), Err(DagError::BadSegment));
    assert_eq!(
        dag.insert_flat_segment(flat(2 * N0, 2 * N0, &[1])),
        Err(DagError::BadSegment)
    );
    assert_eq!(dag.insert_flat_segment(flat(N0, N0 + 1, &[4])), Err(DagError::ParentNotFound));
    assert_eq!(dag.check_join(&flat(N0, N0 + 1, &[3])), Ok(()));
    assert_eq!(dag.insert_flat_segment(flat(N0, N0 + 1, &[3])), Ok(()));
    // The master group grows while the other group exists.
    assert_eq!(dag.insert_flat_segment(flat(4, 6, &[N0])), Err(DagError::BadSegment));
    assert_eq!(dag.insert_flat_segment(flat(4, 6, &[1])), Ok(()));
    assert_eq!(dag.append_flat_segment(flat(7, 7, &[6])), Err(DagError::BadSegment));
    assert_eq!(dag.append_flat_segment(flat(N0 + 2, N0 + 2, &[5])), Ok(()));
    assert_eq!(
        dag.flat_segments(Group::Master),
        vec![flat(0, 3, &[]), flat(4, 6, &[1])]
    );
    assert_eq!(
        dag.flat_segments(Group::NonMaster),
        vec![flat(N0, N0 + 1, &[3]), flat(N0 + 2, N0 + 2, &[5])]
    );
    assert!(dag.is_ancestor(Id(4), Id(N0 + 2)));
    assert!(!dag.is_ancestor(Id(2), Id(N0 + 2)));
    assert!(dag.contains_all(&ids(&[0, 6, N0 + 2])));
    assert!(!dag.contains_all(&ids(&[0, 7])));
    let copy = dag.duplicate();
    assert_eq!(copy.flat_segments(Group::Master), dag.flat_segments(Group::Master));
    assert_eq!(copy.flat_segments(Group::NonMaster), dag.flat_segments(Group::NonMaster));
}

#[test]
fn vertexes_in_a_line_make_one_segment() {
    let mut dag = IdDag::new();
    assert_eq!(dag.add_vertex(Id(0), &vec![]), Ok(()));
    assert_eq!(dag.add_vertex(Id(1), &ids(&[0])), Ok(()));
    assert_eq!(dag.add_vertex(Id(2), &ids(&[1])), Ok(()));
    assert_eq!(dag.add_vertex(Id(3), &ids(&[2])), Ok(()));
    assert_eq!(dag.flat_segments(Group::Master), vec![flat(0, 3, &[])]);
    // A second child of 2, and a merge.
    assert_eq!(dag.add_vertex(Id(4), &ids(&[2])), Ok(()));
    assert_eq!(dag.add_vertex(Id(5), &ids(&[4])), Ok(()));
    assert_eq!(dag.add_vertex(Id(6), &ids(&[5, 3])), Ok(()));
    assert_eq!(dag.add_vertex(Id(7), &ids(&[6])), Ok(()));
    assert_eq!(dag.add_vertex(Id(N0), &ids(&[7])), Ok(()));
    assert_eq!(dag.add_vertex(Id(N0 + 1), &ids(&[N0])), Ok(()));
    assert_eq!(dag.add_vertex(Id(8), &ids(&[7])), Ok(()));
    assert_eq!(
        dag.flat_segments(Group::Master),
        vec![flat(0, 3, &[]), flat(4, 5, &[2]), flat(6, 8, &[5, 3])]
    );
    assert_eq!(dag.flat_segments(Group::NonMaster), vec![flat(N0, N0 + 1, &[7])]);
    assert_eq!(dag.add_vertex(Id(10), &ids(&[8])), Err(DagError::NotNextFree));
    assert_eq!(dag.add_vertex(Id(9), &ids(&[9])), Err(DagError::BadSegment));
    assert_eq!(dag.add_vertex(Id(N0 + 2), &ids(&[9])), Err(DagError::ParentNotFound));
    assert_eq!(dag.add_vertex(Id(3 * N0), &ids(&[])), Err(DagError::BadSegment));
    assert_eq!(dag.segment_count(), 4);
}

#[test]
fn a_list_of_segments_that_is_no_graph_is_refused() {
    assert!(IdDag::from_flat_segments(&vec![flat(1, 3, &[])]).is_err());
    assert!(IdDag::from_flat_segments(&vec![flat(0, 3, &[]), flat(5, 6, &[1])]).is_err());
    assert!(IdDag::from_flat_segments(&vec![flat(0, 3, &[]), flat(4, 6, &[9])]).is_err());
    assert!(IdDag::from_flat_segments(&vec![flat(N0, N0, &[]), flat(0, 3, &[])]).is_err());
    assert!(IdDag::from_flat_segments(&vec![flat(0, 3, &[]), flat(N0 + 1, N0 + 1, &[])]).is_err());
    let dag = IdDag::from_flat_segments(&vec![flat(N0, N0 + 1, &[])]).unwrap();
    assert_eq!(dag.next_free_id(0, Group::NonMaster), Id(N0 + 2));
    assert_eq!(dag.next_free_id(0, Group::Master), Id(0));
}

#[test]
fn flags_tell_roots_and_the_only_head() {
    let dag = graph();
    let flags = |dag: &IdDag, i: usize| dag.segment_flags(i);
    assert_eq!(flags(&dag, 0), SegmentFlags::root());
    assert_eq!(flags(&dag, 1), SegmentFlags::empty());
    assert_eq!(flags(&dag, 2), SegmentFlags::empty());
    // 9 is a head of the master group beside 10.
    assert_eq!(flags(&dag, 3), SegmentFlags::empty());
    // N0 + 2 is a head of the other group beside N0 + 3.
    assert_eq!(flags(&dag, 5), SegmentFlags::empty());
    let line = IdDag::from_flat_segments(&vec![flat(0, 3, &[])]).unwrap();
    assert_eq!(flags(&line, 0), SegmentFlags { has_root: true, only_head: true });
    assert_eq!(line.segment(0).data().unwrap().to_text(), "RH0-3[]");
    let merged = IdDag::from_flat_segments(&vec![
        flat(0, 3, &[]),
        flat(4, 6, &[1]),
        flat(7, 9, &[3, 6]),
        flat(N0, N0, &[9]),
    ])
    .unwrap();
    assert_eq!(flags(&merged, 0), SegmentFlags::root());
    assert_eq!(flags(&merged, 1), SegmentFlags::empty());
    assert_eq!(flags(&merged, 2), SegmentFlags::head());
    assert_eq!(flags(&merged, 3), SegmentFlags::head());
    assert_eq!(merged.segment(2).data().unwrap().to_text(), "H7-9[3, 6]");
    assert_eq!(merged.segment(3).data().unwrap().to_text(), "HN0-N0[9]");
    // Where a segment has the only head, no id of it is a parent outside it.
    for i in 0..merged.segment_count() {
        if flags(&merged, i).only_head {
            let group = merged.segment(i).span().unwrap().low.group().unwrap();
            let span = merged.segment(i).span().unwrap();
            for seg in merged.flat_segments(group) {
                if seg.low != span.low {
                    assert!(seg.parents.iter().all(|p| !span.contains(*p)));
                }
            }
        }
    }
}

#[test]
fn the_non_master_group_is_removed_from_the_graph() {
    let mut dag = graph();
    dag.remove_non_master();
    assert_eq!(dag.segment_count(), 4);
    assert_eq!(dag.next_free_id(0, Group::NonMaster), Id(N0));
    assert_eq!(dag.next_free_id(0, Group::Master), Id(11));
    assert!(!dag.contains_id(Id(N0)));
    assert!(dag.is_ancestor(Id(5), Id(9)));
    assert_eq!(dag.add_vertex(Id(N0), &ids(&[10])), Ok(()));
    dag.remove_non_master();
    dag.remove_non_master();
    assert_eq!(dag.flat_segments(Group::NonMaster), vec![]);
}
