use segmented_changelog::id::Group;
use segmented_changelog::id::Id;
use segmented_changelog::iddag::FlatSegment;
use segmented_changelog::iddag::IdDag;
use segmented_changelog::iddag::Location;
use segmented_changelog::idmap::mem_idmap::MemIdMap;
use segmented_changelog::idmap::mem_idmap::VertexName;
use segmented_changelog::read_only::ChangelogError;
use segmented_changelog::read_only::ReadOnlySegmentedChangelog;
use segmented_changelog::read_only::IDMAP_CHUNK_SIZE;
use segmented_changelog::update::OwnedSegmentedChangelog;
use segmented_changelog::update::UpdateError;

const N0: u64 = 1 << 56;

fn v(name: &str) -> VertexName {
    VertexName::copy_from(name.as_bytes())
}

fn vs(names: &[&str]) -> Vec<VertexName> {
    names.iter().map(|n| v(n)).collect()
}

fn flat(low: u64, high: u64, parents: &[u64]) -> FlatSegment {
    FlatSegment {
        low: Id(low),
        high: Id(high),
        parents: parents.iter().map(|p| Id(*p)).collect(),
    }
}

fn at(name: &str, distance: u64) -> Location<VertexName> {
    Location { descendant: v(name), distance }
}

fn add(log: &mut OwnedSegmentedChangelog, name: &str, parents: &[&str]) -> Id {
    log.add_vertex(&v(name), &vs(parents), Group::Master).unwrap()
}

fn line() -> OwnedSegmentedChangelog {
    let mut log = OwnedSegmentedChangelog::new(0);
    add(&mut log, "A", &[]);
    add(&mut log, "B", &["A"]);
    add(&mut log, "C", &["B"]);
    add(&mut log, "D", &["C"]);
    log
}

fn fork() -> OwnedSegmentedChangelog {
    let mut log = OwnedSegmentedChangelog::new(0);
    add(&mut log, "A", &[]);
    add(&mut log, "B", &["A"]);
    add(&mut log, "C", &["A"]);
    add(&mut log, "M", &["B", "C"]);
    log
}

fn places(
    found: Vec<(VertexName, Result<Location<VertexName>, ChangelogError>)>,
) -> Vec<String> {
    found
        .into_iter()
        .map(|(name, place)| {
            let name = String::from_utf8(name.0).unwrap();
            match place {
                Ok(l) => format!("{}={}~{}", name, String::from_utf8(l.descendant.0).unwrap(), l.distance),
                Err(e) => format!("{}:{:?}", name, e),
            }
        })
        .collect()
}

#[test]
fn a_line_of_vertexes_is_one_segment() {
    let log = line();
    let read = log.read_only();
    let data = read.clone_data().unwrap();
    assert_eq!(data.flat_segments, vec![flat(0, 3, &[])]);
    assert_eq!(data.flat_segments.len(), 1);
    assert_eq!(data.idmap, vec![(Id(0), v("A")), (Id(3), v("D"))]);
    assert_eq!(read.iddag.segment(0).data().unwrap().to_text(), "RH0-3[]");
    assert_eq!(read.is_ancestor(&v("A"), &v("D")), Some(true));
    assert_eq!(read.is_ancestor(&v("D"), &v("A")), Some(false));
    assert_eq!(read.is_ancestor(&v("A"), &v("Z")), None);
    assert_eq!(read.is_ancestor(&v("Z"), &v("A")), None);
    assert_eq!(
        read.location_to_many_changeset_ids(&at("D", 0), 4),
        Ok(vs(&["D", "C", "B", "A"]))
    );
    assert_eq!(
        read.location_to_many_changeset_ids(&at("D", 1), 2),
        Ok(vs(&["C", "B"]))
    );
    assert_eq!(read.location_to_many_changeset_ids(&at("D", 3), 1), Ok(vs(&["A"])));
}

#[test]
fn a_count_of_nothing_gives_no_vertexes() {
    let log = fork();
    let read = log.read_only();
    assert_eq!(read.location_to_many_changeset_ids(&at("M", 0), 0), Ok(vec![]));
    assert_eq!(read.location_to_many_changeset_ids(&at("M", 99), 0), Ok(vec![]));
    assert_eq!(
        read.known_location_to_many_changeset_ids(
            &Location { descendant: Id(500), distance: 0 },
            0
        ),
        Ok(vec![])
    );
    assert_eq!(
        read.location_to_many_changeset_ids(&at("Z", 0), 0),
        Err(ChangelogError::VertexNotFound)
    );
}

#[test]
fn vertexes_asked_for_across_a_merge_are_ambiguous() {
    let log = fork();
    let read = log.read_only();
    assert_eq!(read.location_to_many_changeset_ids(&at("M", 0), 1), Ok(vs(&["M"])));
    assert_eq!(
        read.location_to_many_changeset_ids(&at("M", 0), 2),
        Err(ChangelogError::Ambiguous)
    );
    assert_eq!(read.location_to_many_changeset_ids(&at("M", 1), 2), Ok(vs(&["B", "A"])));
    // A root has no parent to go on with.
    assert_eq!(
        read.location_to_many_changeset_ids(&at("M", 1), 3),
        Err(ChangelogError::Ambiguous)
    );
    assert_eq!(
        read.location_to_many_changeset_ids(&at("M", 3), 1),
        Err(ChangelogError::NoSuchAncestor)
    );
    assert_eq!(
        read.location_to_many_changeset_ids(&at("Z", 0), 1),
        Err(ChangelogError::VertexNotFound)
    );
    assert_eq!(
        read.known_location_to_many_changeset_ids(
            &Location { descendant: Id(77), distance: 0 },
            1
        ),
        Err(ChangelogError::NoSuchAncestor)
    );
    assert_eq!(
        read.known_location_to_many_ids(&Location { descendant: Id(3), distance: 1 }, 2),
        Ok(vec![Id(1), Id(0)])
    );
}

#[test]
fn a_fork_and_a_merge_make_three_segments() {
    let log = fork();
    let read = log.read_only();
    assert_eq!(
        read.clone_data().unwrap().flat_segments,
        vec![flat(0, 1, &[]), flat(2, 2, &[0]), flat(3, 3, &[1, 2])]
    );
    assert_eq!(
        places(
            read.many_changeset_ids_to_locations(&vs(&["M"]), &vs(&["A", "B", "C", "M"]))
                .unwrap()
        ),
        vec!["A=M~2", "B=M~1", "C=C~0", "M=M~0"]
    );
    assert_eq!(
        places(
            read.many_changeset_ids_to_locations(&vs(&["C", "M"]), &vs(&["A", "C", "Z", "B"]))
                .unwrap()
        ),
        vec!["A=C~1", "C=C~0", "B=M~1"]
    );
    // Heads without an id are passed over, as long as one has an id.
    assert_eq!(
        places(
            read.many_changeset_ids_to_locations(&vs(&["Y", "B", "Z"]), &vs(&["A", "M"]))
                .unwrap()
        ),
        vec!["A=B~1", "M:Unreachable"]
    );
    assert_eq!(
        read.many_changeset_ids_to_locations(&vs(&["Y", "Z"]), &vs(&["A"])).err(),
        Some(ChangelogError::NoHeads)
    );
    assert_eq!(
        read.many_changeset_ids_to_locations(&[], &vs(&["A"])).err(),
        Some(ChangelogError::NoHeads)
    );
    assert_eq!(read.resolve(&vs(&["Y", "B", "Z", "A"])), vec![Id(1), Id(0)]);
}

#[test]
fn a_place_leads_back_to_the_vertex() {
    let mut log = fork();
    add(&mut log, "N", &["M"]);
    add(&mut log, "O", &["N"]);
    add(&mut log, "P", &["C"]);
    let read = log.read_only();
    for head in ["A", "B", "C", "M", "N", "O", "P"] {
        for n in 0..6u64 {
            let reached = read.location_to_many_changeset_ids(&at(head, n), 1);
            if let Ok(names) = reached {
                let a = names[0].duplicate();
                let found = read
                    .many_changeset_ids_to_locations(&[v(head)], &[a.duplicate()])
                    .unwrap();
                assert_eq!(found.len(), 1);
                assert_eq!(found[0].0, a);
                let place = found[0].1.as_ref().unwrap();
                assert_eq!(place.descendant, v(head));
                assert_eq!(place.distance, n);
            }
        }
    }
}

#[test]
fn the_master_moves_forward() {
    let mut log = OwnedSegmentedChangelog::new(0);
    add(&mut log, "A", &[]);
    add(&mut log, "B", &["A"]);
    add(&mut log, "C", &["B"]);
    let read = log.read_only();
    let data = read.pull_fast_forward_master(&v("A"), &v("C")).unwrap();
    assert_eq!(data.flat_segments, vec![flat(1, 2, &[0])]);
    assert_eq!(data.idmap, vec![(Id(0), v("A")), (Id(2), v("C"))]);
    let nothing = read.pull_fast_forward_master(&v("C"), &v("C")).unwrap();
    assert_eq!(nothing.flat_segments, vec![]);
    assert_eq!(nothing.idmap, vec![]);
    assert_eq!(
        read.pull_fast_forward_master(&v("C"), &v("A")).err(),
        Some(ChangelogError::NotAncestor)
    );
    assert_eq!(
        read.pull_fast_forward_master(&v("Z"), &v("C")).err(),
        Some(ChangelogError::VertexNotFound)
    );
    assert_eq!(
        read.pull_fast_forward_master(&v("A"), &v("Z")).err(),
        Some(ChangelogError::VertexNotFound)
    );

    let mut log = fork();
    add(&mut log, "N", &["M"]);
    log.add_vertex(&v("X"), &vs(&["N"]), Group::NonMaster).unwrap();
    let read = log.read_only();
    let data = read.pull_fast_forward_master(&v("B"), &v("N")).unwrap();
    assert_eq!(data.flat_segments, vec![flat(2, 2, &[0]), flat(3, 4, &[1, 2])]);
    assert_eq!(
        data.idmap,
        vec![(Id(0), v("A")), (Id(1), v("B")), (Id(2), v("C")), (Id(4), v("N"))]
    );
    assert_eq!(
        read.pull_fast_forward_master(&v("B"), &v("C")).err(),
        Some(ChangelogError::NotAncestor)
    );
    assert_eq!(
        read.pull_fast_forward_master(&v("N"), &v("X")).err(),
        Some(ChangelogError::NotInMaster)
    );
    assert_eq!(
        read.pull_fast_forward_master(&v("X"), &v("N")).err(),
        Some(ChangelogError::NotInMaster)
    );
}

#[test]
fn a_clone_answers_as_its_source() {
    let mut log = fork();
    add(&mut log, "N", &["M"]);
    add(&mut log, "O", &["B"]);
    add(&mut log, "P", &["O", "N"]);
    log.add_vertex(&v("X"), &vs(&["P"]), Group::NonMaster).unwrap();
    let read = log.read_only();
    let data = read.clone_data().unwrap();
    let copy = IdDag::from_flat_segments(&data.flat_segments).unwrap();
    assert_eq!(copy.flat_segments(Group::Master), read.iddag.flat_segments(Group::Master));
    assert_eq!(copy.flat_segments(Group::NonMaster), vec![]);
    let end = read.iddag.next_free_id(0, Group::Master).0;
    assert_eq!(end, 7);
    for a in 0..end + 1 {
        for d in 0..end + 1 {
            assert_eq!(
                copy.is_ancestor(Id(a), Id(d)),
                read.iddag.is_ancestor(Id(a), Id(d))
            );
        }
        assert_eq!(copy.parent_ids(Id(a)), read.iddag.parent_ids(Id(a)));
        for n in 0..end {
            assert_eq!(
                copy.first_ancestor_nth(Id(a), n),
                read.iddag.first_ancestor_nth(Id(a), n)
            );
        }
    }
    // The names that travel with the segments are those of their anchors.
    let mut map = MemIdMap::new(0);
    for (id, name) in &data.idmap {
        map.insert(*id, &name.0).unwrap();
    }
    assert_eq!(
        data.idmap.iter().map(|(id, _)| id.0).collect::<Vec<u64>>(),
        vec![0, 1, 2, 4, 5, 6]
    );
    let clone = ReadOnlySegmentedChangelog::new(&copy, &map);
    assert_eq!(clone.is_ancestor(&v("A"), &v("P")), Some(true));
    assert_eq!(clone.is_ancestor(&v("N"), &v("O")), Some(false));
}

#[test]
fn the_whole_map_comes_in_chunks() {
    let mut log = OwnedSegmentedChangelog::new(0);
    let total = 2 * IDMAP_CHUNK_SIZE + 3;
    let name = |i: usize| VertexName::copy_from(format!("v{}", i).as_bytes());
    log.add_vertex(&name(0), &[], Group::Master).unwrap();
    for i in 1..total {
        log.add_vertex(&name(i), &[name(i - 1)], Group::Master).unwrap();
    }
    log.add_vertex(&v("other"), &[name(5)], Group::NonMaster).unwrap();
    let read = log.read_only();
    let data = read.full_idmap_clone_data().unwrap();
    assert_eq!(data.flat_segments, vec![flat(0, total as u64 - 1, &[])]);
    assert_eq!(IDMAP_CHUNK_SIZE, 1000);
    assert_eq!(
        data.idmap_chunks.iter().map(|c| c.len()).collect::<Vec<usize>>(),
        vec![1000, 1000, 3]
    );
    let all: Vec<(Id, VertexName)> = data.idmap_chunks.into_iter().flatten().collect();
    assert_eq!(all.len(), total);
    for (i, (id, n)) in all.iter().enumerate() {
        assert_eq!(*id, Id(i as u64));
        assert_eq!(*n, name(i));
    }
    let empty = OwnedSegmentedChangelog::new(0);
    let data = empty.read_only().full_idmap_clone_data().unwrap();
    assert_eq!(data.idmap_chunks.len(), 0);
    assert_eq!(data.flat_segments.len(), 0);
    let one = line();
    let data = one.read_only().full_idmap_clone_data().unwrap();
    assert_eq!(data.idmap_chunks.len(), 1);
    assert_eq!(data.idmap_chunks[0].len(), 4);
}

#[test]
fn a_vertex_joins_with_its_parents() {
    let mut log = line();
    assert_eq!(
        log.add_vertex(&v("B"), &vs(&["A"]), Group::Master),
        Err(UpdateError::AlreadyAssigned)
    );
    assert_eq!(
        log.add_vertex(&v("E"), &vs(&["D", "Z"]), Group::Master),
        Err(UpdateError::ParentNotFound)
    );
    assert_eq!(log.add_vertex(&v("X"), &vs(&["D"]), Group::NonMaster), Ok(Id(N0)));
    assert_eq!(
        log.add_vertex(&v("E"), &vs(&["D", "X"]), Group::Master),
        Err(UpdateError::GroupViolation)
    );
    assert_eq!(log.add_vertex(&v("Y"), &vs(&["X", "B"]), Group::NonMaster), Ok(Id(N0 + 1)));
    assert_eq!(log.add_vertex(&v("E"), &vs(&["D"]), Group::Master), Ok(Id(4)));
    let read = log.read_only();
    // Every id that has a name lies in one flat segment, and the other way round.
    for id in [0u64, 1, 2, 3, 4, N0, N0 + 1] {
        assert!(read.idmap.vertex_name(Id(id)).is_ok());
        assert!(read.iddag.contains_id(Id(id)));
    }
    for id in [5u64, N0 + 2] {
        assert!(read.idmap.vertex_name(Id(id)).is_err());
        assert!(!read.iddag.contains_id(Id(id)));
    }
    assert_eq!(read.iddag.flat_segments(Group::Master), vec![flat(0, 4, &[])]);
    assert_eq!(
        read.iddag.flat_segments(Group::NonMaster),
        vec![flat(N0, N0, &[3]), flat(N0 + 1, N0 + 1, &[N0, 1])]
    );
    assert_eq!(read.is_ancestor(&v("X"), &v("Y")), Some(true));
    assert_eq!(read.is_ancestor(&v("E"), &v("Y")), Some(false));
}

#[test]
fn wiping_the_non_master_group_leaves_the_master_answers() {
    let mut log = line();
    log.add_vertex(&v("X"), &vs(&["D"]), Group::NonMaster).unwrap();
    log.add_vertex(&v("Y"), &vs(&["X"]), Group::NonMaster).unwrap();
    assert_eq!(log.read_only().is_ancestor(&v("A"), &v("Y")), Some(true));
    log.remove_non_master().unwrap();
    let read = log.read_only();
    assert_eq!(read.idmap.vertex_id(&v("X")).ok(), None);
    assert_eq!(read.idmap.vertex_id(&v("Y")).ok(), None);
    assert_eq!(read.idmap.vertex_name(Id(N0)).ok(), None);
    assert_eq!(read.idmap.next_free_id(Group::NonMaster), Id(N0));
    assert_eq!(read.iddag.next_free_id(0, Group::NonMaster), Id(N0));
    assert_eq!(read.iddag.flat_segments(Group::NonMaster), vec![]);
    assert_eq!(read.is_ancestor(&v("A"), &v("D")), Some(true));
    assert_eq!(read.is_ancestor(&v("A"), &v("Y")), None);
    assert_eq!(
        read.location_to_many_changeset_ids(&at("D", 0), 4),
        Ok(vs(&["D", "C", "B", "A"]))
    );
    assert_eq!(read.clone_data().unwrap().flat_segments, vec![flat(0, 3, &[])]);
    assert_eq!(log.add_vertex(&v("Y"), &vs(&["B"]), Group::NonMaster), Ok(Id(N0)));
}

#[test]
fn an_id_without_a_name_is_reported() {
    let log = line();
    let ro = log.read_only();
    assert_eq!(ro.names(&vec![Id(0), Id(3)]), Ok(vs(&["A", "D"])));
    assert_eq!(ro.names(&vec![Id(0), Id(4)]), Err(ChangelogError::MissingName));
    assert_eq!(ro.pairs(&vec![Id(2)]), Ok(vec![(Id(2), v("C"))]));
    assert_eq!(ro.pairs(&vec![Id(N0)]), Err(ChangelogError::MissingName));
    assert_eq!(ro.names(&Vec::new()), Ok(Vec::new()));
}

/// A, B, C in a line; D, E, F in a line on A; M on C and F; N on B.
fn two_lines() -> OwnedSegmentedChangelog {
    let mut log = OwnedSegmentedChangelog::new(0);
    add(&mut log, "A", &[]);
    add(&mut log, "B", &["A"]);
    add(&mut log, "C", &["B"]);
    add(&mut log, "D", &["A"]);
    add(&mut log, "E", &["D"]);
    add(&mut log, "F", &["E"]);
    add(&mut log, "M", &["C", "F"]);
    add(&mut log, "N", &["B"]);
    log
}

#[test]
fn an_ancestor_through_a_second_parent_is_placed_at_the_nearest_anchor() {
    let log = two_lines();
    let read = log.read_only();
    assert_eq!(
        read.clone_data().unwrap().flat_segments,
        vec![flat(0, 2, &[]), flat(3, 5, &[0]), flat(6, 6, &[2, 5]), flat(7, 7, &[1])]
    );
    // From M the first parents lead to C, B and A. D, E and F are
    // ancestors through the second parent: F is a parent of a segment.
    assert_eq!(
        places(
            read.many_changeset_ids_to_locations(
                &vs(&["M"]),
                &vs(&["A", "B", "C", "D", "E", "F", "M", "N"])
            )
            .unwrap()
        ),
        vec!["A=M~3", "B=M~2", "C=M~1", "D=F~2", "E=F~1", "F=F~0", "M=M~0", "N:Unreachable"]
            .iter()
            .map(|s| s.to_string())
            .collect::<Vec<String>>()
    );
}

#[test]
fn the_nearest_anchor_may_lie_inside_a_segment() {
    let log = two_lines();
    let dag = log.read_only().iddag;
    // B is a parent of the segment of N, A a root and a parent.
    assert_eq!(dag.nearest_anchor_of(Id(0)), Some((Id(0), 0)));
    assert_eq!(dag.nearest_anchor_of(Id(1)), Some((Id(1), 0)));
    assert_eq!(dag.nearest_anchor_of(Id(2)), Some((Id(2), 0)));
    assert_eq!(dag.nearest_anchor_of(Id(3)), Some((Id(5), 2)));
    assert_eq!(dag.nearest_anchor_of(Id(4)), Some((Id(5), 1)));
    assert_eq!(dag.nearest_anchor_of(Id(7)), Some((Id(7), 0)));
    assert_eq!(dag.nearest_anchor_of(Id(8)), None);
    // Relative to N, whose first parents lead to B and A only.
    assert_eq!(dag.place_from(Id(1), &[Id(7)]), Some((Id(7), 1)));
    assert_eq!(dag.place_from(Id(2), &[Id(7)]), None);
    assert_eq!(dag.place_from(Id(4), &[Id(6)]), Some((Id(5), 1)));
    assert_eq!(dag.place_from(Id(4), &[Id(6), Id(4)]), Some((Id(4), 0)));
    assert_eq!(dag.place_from(Id(4), &[]), None);
    // The steps from the place lead to the id.
    for id in 0..8u64 {
        match dag.place_from(Id(id), &[Id(6), Id(7)]) {
            Some((from, n)) => assert_eq!(dag.first_ancestor_nth(from, n), Some(Id(id))),
            None => panic!("an ancestor of a head has no place"),
        }
    }
}
