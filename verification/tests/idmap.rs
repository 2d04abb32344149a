use segmented_changelog::id::Group;
use segmented_changelog::id::Id;
use segmented_changelog::idmap::mem_idmap::starts_with;
use segmented_changelog::idmap::mem_idmap::CoreMemIdMap;
use segmented_changelog::idmap::mem_idmap::IdMapError;
use segmented_changelog::idmap::mem_idmap::MemIdMap;
use segmented_changelog::idmap::mem_idmap::VerLink;
use segmented_changelog::idmap::mem_idmap::VertexName;
use segmented_changelog::lex::bytes_eq;
use segmented_changelog::lex::bytes_le;

const N0: u64 = 1 << 56;

fn name(bytes: &[u8]) -> VertexName {
    VertexName::copy_from(bytes)
}

#[test]
fn names_are_written_in_hexadecimal() {
    assert_eq!(name(&[]).to_hex(), b"".to_vec());
    assert_eq!(name(&[0x00, 0x0f, 0xa9, 0xff]).to_hex(), b"000fa9ff".to_vec());
    assert_eq!(VertexName::from_hex(b"000fa9ff").unwrap(), name(&[0x00, 0x0f, 0xa9, 0xff]));
    assert_eq!(VertexName::from_hex(b"").unwrap(), name(&[]));
    // A digit left over is the high half of a last byte.
    assert_eq!(VertexName::from_hex(b"abc").unwrap(), name(&[0xab, 0xc0]));
    assert_eq!(VertexName::from_hex(b"7").unwrap(), name(&[0x70]));
    assert_eq!(VertexName::from_hex(b"0g"), Err(IdMapError::InvalidHex));
    assert_eq!(VertexName::from_hex(b"AB"), Err(IdMapError::InvalidHex));
    assert_eq!(VertexName::from_hex(b"12 "), Err(IdMapError::InvalidHex));
    assert_eq!(VertexName::from_hex(b"1/"), Err(IdMapError::InvalidHex));
    assert_eq!(VertexName::from_hex(b"1:"), Err(IdMapError::InvalidHex));
    assert_eq!(VertexName::from_hex(b"1`"), Err(IdMapError::InvalidHex));
}

#[test]
fn byte_strings_are_ordered_by_their_first_difference() {
    assert!(bytes_le(b"", b""));
    assert!(bytes_le(b"", b"a"));
    assert!(!bytes_le(b"a", b""));
    assert!(bytes_le(b"a", b"a"));
    assert!(bytes_le(b"a", b"ab"));
    assert!(!bytes_le(b"ab", b"a"));
    assert!(bytes_le(b"ab", b"b"));
    assert!(!bytes_le(b"b", b"ab"));
    assert!(bytes_le(&[1, 255], &[2, 0]));
    assert!(bytes_eq(b"abc", b"abc"));
    assert!(!bytes_eq(b"abc", b"abd"));
    assert!(!bytes_eq(b"abc", b"ab"));
    assert!(starts_with(b"abc", b"ab"));
    assert!(starts_with(b"abc", b""));
    assert!(starts_with(b"abc", b"abc"));
    assert!(!starts_with(b"abc", b"abcd"));
    assert!(!starts_with(b"abc", b"b"));
}

#[test]
fn the_two_tables_are_written_together() {
    let mut core = CoreMemIdMap::new();
    assert_eq!(core.lookup_vertex_id(&name(b"a")), None);
    assert_eq!(core.lookup_vertex_name(Id(1)), None);
    assert!(!core.has_vertex_name(&name(b"a")));
    assert!(!core.has_vertex_id(Id(1)));
    core.insert_vertex_id_name(Id(1), name(b"b"));
    core.insert_vertex_id_name(Id(0), name(b"c"));
    core.insert_vertex_id_name(Id(2), name(b"a"));
    assert_eq!(core.lookup_vertex_id(&name(b"a")), Some(Id(2)));
    assert_eq!(core.lookup_vertex_id(&name(b"b")), Some(Id(1)));
    assert_eq!(core.lookup_vertex_id(&name(b"c")), Some(Id(0)));
    assert_eq!(core.lookup_vertex_name(Id(0)), Some(name(b"c")));
    assert_eq!(core.lookup_vertex_name(Id(1)), Some(name(b"b")));
    assert_eq!(core.lookup_vertex_name(Id(2)), Some(name(b"a")));
    assert!(core.has_vertex_name(&name(b"b")));
    assert!(core.has_vertex_id(Id(2)));
    assert!(!core.has_vertex_id(Id(3)));
    // Both tables are overwritten without a question.
    core.insert_vertex_id_name(Id(1), name(b"z"));
    assert_eq!(core.lookup_vertex_name(Id(1)), Some(name(b"z")));
    assert_eq!(core.lookup_vertex_id(&name(b"z")), Some(Id(1)));
    assert_eq!(core.lookup_vertex_id(&name(b"b")), Some(Id(1)));
    core.insert_vertex_id_name(Id(9), name(b"a"));
    assert_eq!(core.lookup_vertex_id(&name(b"a")), Some(Id(9)));
    assert_eq!(core.lookup_vertex_name(Id(2)), Some(name(b"a")));
    let copy = core.duplicate();
    assert_eq!(copy.lookup_vertex_id(&name(b"a")), Some(Id(9)));
    let rest = core.without_group(Group::Master);
    assert_eq!(rest.lookup_vertex_id(&name(b"a")), None);
    assert_eq!(rest.lookup_vertex_name(Id(9)), None);
}

#[test]
fn names_are_found_by_a_prefix_in_their_order() {
    let mut core = CoreMemIdMap::new();
    for (id, bytes) in [
        (0u64, [0xab, 0x02]),
        (1, [0xab, 0x01]),
        (2, [0xac, 0x00]),
        (3, [0xa0, 0xff]),
        (4, [0xab, 0xf3]),
        (5, [0x0a, 0xb0]),
    ] {
        core.insert_vertex_id_name(Id(id), name(&bytes));
    }
    let found = |prefix: &[u8], limit: usize| -> Vec<Vec<u8>> {
        core.lookup_vertexes_by_hex_prefix(prefix, limit)
            .unwrap()
            .into_iter()
            .map(|n| n.0)
            .collect()
    };
    assert_eq!(
        found(b"ab", 10),
        vec![vec![0xab, 0x01], vec![0xab, 0x02], vec![0xab, 0xf3]]
    );
    assert_eq!(found(b"ab", 2), vec![vec![0xab, 0x01], vec![0xab, 0x02]]);
    assert_eq!(found(b"ab", 1), vec![vec![0xab, 0x01]]);
    // A limit of nothing hands out nothing.
    assert_eq!(found(b"ab", 0), Vec::<Vec<u8>>::new());
    assert_eq!(found(b"", 0), Vec::<Vec<u8>>::new());
    assert_eq!(found(b"abf", 10), vec![vec![0xab, 0xf3]]);
    assert_eq!(found(b"abf3", 10), vec![vec![0xab, 0xf3]]);
    assert_eq!(found(b"abf30", 10), Vec::<Vec<u8>>::new());
    assert_eq!(found(b"a", 10).len(), 5);
    assert_eq!(found(b"", 10).len(), 6);
    assert_eq!(found(b"", 10)[0], vec![0x0a, 0xb0]);
    assert_eq!(found(b"b", 10), Vec::<Vec<u8>>::new());
    assert_eq!(found(b"b", 0), Vec::<Vec<u8>>::new());
    assert_eq!(
        core.lookup_vertexes_by_hex_prefix(b"xy", 10),
        Err(IdMapError::InvalidHex)
    );
}

#[test]
fn the_name_of_the_id_of_a_name_is_that_name() {
    let mut map = MemIdMap::new(0);
    let names: Vec<Vec<u8>> = (0u8..40).map(|i| vec![i.wrapping_mul(37), i, 7]).collect();
    for (i, n) in names.iter().enumerate() {
        map.insert(Id(i as u64), n).unwrap();
    }
    for (i, n) in names.iter().enumerate() {
        let id = map.vertex_id(&name(n)).unwrap();
        assert_eq!(id, Id(i as u64));
        assert_eq!(map.vertex_name(id).unwrap(), name(n));
    }
    assert_eq!(map.vertex_id(&name(b"missing")), Err(IdMapError::VertexNotFound));
    assert_eq!(map.vertex_name(Id(40)), Err(IdMapError::IdNotFound));
    assert!(map.contains_vertex_name(&name(&names[3])));
    assert!(!map.contains_vertex_name(&name(b"missing")));
}

#[test]
fn an_id_keeps_its_name_and_a_name_its_id() {
    let mut map = MemIdMap::new(0);
    map.insert(Id(0), b"a").unwrap();
    map.insert(Id(1), b"b").unwrap();
    map.insert(Id(N0), b"x").unwrap();
    let version = map.map_version();
    // The same id for another name.
    assert_eq!(map.insert(Id(0), b"c"), Err(IdMapError::Conflict));
    // The same name for another id of the same group.
    assert_eq!(map.insert(Id(2), b"a"), Err(IdMapError::Conflict));
    assert_eq!(map.insert(Id(N0 + 1), b"x"), Err(IdMapError::Conflict));
    // A name of the master group does not move to the other group.
    assert_eq!(map.insert(Id(N0 + 1), b"a"), Err(IdMapError::GroupViolation));
    // An id of no group.
    assert_eq!(map.insert(Id(2 * N0), b"q"), Err(IdMapError::GroupViolation));
    assert_eq!(map.insert(Id(u64::MAX), b"q"), Err(IdMapError::GroupViolation));
    // Nothing has changed.
    assert_eq!(map.map_version(), version);
    assert_eq!(map.vertex_id(&VertexName::copy_from(b"a")), Ok(Id(0)));
    assert_eq!(map.vertex_name(Id(0)), Ok(VertexName::copy_from(b"a")));
    assert_eq!(map.vertex_name(Id(2)), Err(IdMapError::IdNotFound));
    assert_eq!(map.next_free_id(Group::Master), Id(2));
    assert_eq!(map.next_free_id(Group::NonMaster), Id(N0 + 1));
    // Writing the same pair again is fine.
    assert_eq!(map.insert(Id(1), b"b"), Ok(()));
    // A name of the non-master group may get an id of the master group.
    assert_eq!(map.insert(Id(2), b"x"), Ok(()));
    assert_eq!(map.vertex_id(&VertexName::copy_from(b"x")), Ok(Id(2)));
    assert_eq!(map.vertex_name(Id(2)), Ok(VertexName::copy_from(b"x")));
    assert_eq!(map.vertex_name(Id(N0)), Ok(VertexName::copy_from(b"x")));
    // Its old id is not given to it again.
    assert_eq!(map.insert(Id(N0), b"x"), Err(IdMapError::GroupViolation));
}

#[test]
fn the_version_moves_on_with_every_change() {
    let mut map = MemIdMap::new(0);
    assert_eq!(map.map_version(), VerLink { epoch: 0, generation: 0 });
    map.insert(Id(0), b"a").unwrap();
    assert_eq!(map.map_version(), VerLink { epoch: 0, generation: 1 });
    let first = map.map_version();
    map.insert(Id(N0), b"x").unwrap();
    assert_eq!(map.map_version(), VerLink { epoch: 0, generation: 2 });
    assert!(first.le(map.map_version()));
    assert!(!map.map_version().le(first));
    let grown = map.map_version();
    map.remove_non_master().unwrap();
    assert_eq!(map.map_version(), VerLink { epoch: 1, generation: 0 });
    assert!(!grown.le(map.map_version()));
    assert!(!map.map_version().le(grown));
    assert_eq!(VerLink::new(), VerLink { epoch: 0, generation: 0 });
    assert_eq!(
        VerLink { epoch: 3, generation: 8 }.bumped(),
        Some(VerLink { epoch: 3, generation: 9 })
    );
    assert_eq!(VerLink { epoch: 3, generation: u64::MAX }.bumped(), None);
    assert_eq!(
        VerLink { epoch: 3, generation: 8 }.next_epoch(),
        Some(VerLink { epoch: 4, generation: 0 })
    );
    assert_eq!(VerLink { epoch: u64::MAX, generation: 8 }.next_epoch(), None);
}

#[test]
fn removing_the_non_master_group_leaves_the_master_group() {
    let mut map = MemIdMap::new(0);
    map.insert(Id(0), b"a").unwrap();
    map.insert(Id(1), b"b").unwrap();
    map.insert(Id(N0), b"x").unwrap();
    map.insert(Id(N0 + 1), b"y").unwrap();
    map.insert(Id(2), b"y").unwrap();
    assert_eq!(map.next_free_id(Group::NonMaster), Id(N0 + 2));
    map.remove_non_master().unwrap();
    assert_eq!(map.vertex_id(&name(b"x")), Err(IdMapError::VertexNotFound));
    assert_eq!(map.vertex_name(Id(N0)), Err(IdMapError::IdNotFound));
    assert_eq!(map.vertex_name(Id(N0 + 1)), Err(IdMapError::IdNotFound));
    assert_eq!(map.vertex_id(&name(b"a")), Ok(Id(0)));
    assert_eq!(map.vertex_id(&name(b"b")), Ok(Id(1)));
    assert_eq!(map.vertex_id(&name(b"y")), Ok(Id(2)));
    assert_eq!(map.vertex_name(Id(2)), Ok(name(b"y")));
    assert_eq!(map.next_free_id(Group::NonMaster), Id(N0));
    assert_eq!(map.next_free_id(Group::Master), Id(3));
    assert_eq!(
        map.contains_vertex_id_locally(&[Id(0), Id(N0), Id(2), Id(N0 + 1), Id(3)]),
        vec![true, false, true, false, false]
    );
    // The ids of the group are given out again.
    map.insert(Id(N0), b"z").unwrap();
    assert_eq!(map.vertex_id(&name(b"z")), Ok(Id(N0)));
    assert!(!map.need_rebuild_non_master());
}

#[test]
fn ids_and_names_are_looked_up_in_batches() {
    let mut map = MemIdMap::new(7);
    assert_eq!(map.map_id(), "mem:7");
    assert_eq!(MemIdMap::new(0).map_id(), "mem:0");
    assert_ne!(MemIdMap::new(1).map_id(), MemIdMap::new(2).map_id());
    assert_eq!(MemIdMap::new(1234567890123).map_id(), "mem:1234567890123");
    assert_eq!(map.next_free_id(Group::Master), Id(0));
    assert_eq!(map.next_free_id(Group::NonMaster), Id(N0));
    map.insert(Id(5), b"five").unwrap();
    map.insert(Id(N0 + 3), b"other").unwrap();
    assert_eq!(map.next_free_id(Group::Master), Id(6));
    assert_eq!(map.next_free_id(Group::NonMaster), Id(N0 + 4));
    map.insert(Id(2), b"two").unwrap();
    assert_eq!(map.next_free_id(Group::Master), Id(6));
    assert_eq!(
        map.find_many_dag_ids(&[name(b"two"), name(b"none"), name(b"other")]),
        vec![Some(Id(2)), None, Some(Id(N0 + 3))]
    );
    assert_eq!(
        map.find_many_vertex_names(&[Id(5), Id(6), Id(N0 + 3)]),
        vec![Some(name(b"five")), None, Some(name(b"other"))]
    );
    assert_eq!(
        map.contains_vertex_name_locally(&[name(b"two"), name(b"none")]),
        vec![true, false]
    );
    assert_eq!(map.vertex_id_with_max_group(&name(b"two"), Group::Master), Some(Id(2)));
    assert_eq!(map.vertex_id_with_max_group(&name(b"two"), Group::NonMaster), Some(Id(2)));
    assert_eq!(map.vertex_id_with_max_group(&name(b"other"), Group::Master), None);
    assert_eq!(
        map.vertex_id_with_max_group(&name(b"other"), Group::NonMaster),
        Some(Id(N0 + 3))
    );
    assert_eq!(map.vertex_id_with_max_group(&name(b"none"), Group::NonMaster), None);
    let copy = map.duplicate();
    assert_eq!(copy.map_id(), "mem:7");
    assert_eq!(copy.map_version(), map.map_version());
    assert_eq!(copy.vertex_id(&name(b"five")), Ok(Id(5)));
    assert_eq!(
        map.vertexes_by_hex_prefix(b"74", 5).unwrap(),
        vec![name(b"two")]
    );
    assert_eq!(map.vertexes_by_hex_prefix(b"7z", 5), Err(IdMapError::InvalidHex));
}
