use segmented_changelog::id::Group;
use segmented_changelog::id::Id;
use segmented_changelog::iddag::Location;
use segmented_changelog::idmap::mem_idmap::VertexName;
use segmented_changelog::on_demand::are_heads_assigned;
use segmented_changelog::on_demand::build_up_to_bookmark;
use segmented_changelog::on_demand::build_up_to_cs;
use segmented_changelog::on_demand::build_up_to_heads;
use segmented_changelog::on_demand::delay_with_jitter;
use segmented_changelog::on_demand::initial_delay;
use segmented_changelog::on_demand::is_cs_assigned;
use segmented_changelog::on_demand::periodic_initial_delay;
use segmented_changelog::on_demand::unassigned_heads;
use segmented_changelog::on_demand::BuildAction;
use segmented_changelog::on_demand::BuildEvent;
use segmented_changelog::on_demand::HeadsAction;
use segmented_changelog::on_demand::OnDemandError;
use segmented_changelog::on_demand::OnDemandUpdateSegmentedChangelog;
use segmented_changelog::on_demand::OngoingUpdate;
use segmented_changelog::on_demand::PeriodicUpdateSegmentedChangelog;
use segmented_changelog::on_demand::UpdateRole;
use segmented_changelog::read_only::ChangelogError;
use segmented_changelog::update::GraphNode;
use segmented_changelog::update::OwnedSegmentedChangelog;
use segmented_changelog::update::UpdateError;

fn v(name: &str) -> VertexName {
    VertexName::copy_from(name.as_bytes())
}

fn vs(names: &[&str]) -> Vec<VertexName> {
    names.iter().map(|n| v(n)).collect()
}

fn batch(vertexes: &[(&str, &[&str])]) -> Vec<GraphNode> {
    vertexes
        .iter()
        .map(|(n, ps)| GraphNode { vertex: v(n), parents: vs(ps) })
        .collect()
}

#[test]
fn one_caller_updates_and_the_others_wait() {
    let mut slot = OngoingUpdate::new();
    assert_eq!(slot.try_update(), UpdateRole::Updater(0));
    assert_eq!(slot.try_update(), UpdateRole::Waiter(0));
    assert_eq!(slot.try_update(), UpdateRole::Waiter(0));
    // Another ticket ends nothing.
    assert_eq!(slot.finish(7), false);
    assert_eq!(slot.try_update(), UpdateRole::Waiter(0));
    assert_eq!(slot.finish(0), true);
    assert_eq!(slot.finish(0), false);
    assert_eq!(slot.try_update(), UpdateRole::Updater(1));
    assert_eq!(slot.try_update(), UpdateRole::Waiter(1));
    assert_eq!(slot.finish(1), true);
    let mut last = OngoingUpdate { current: None, next_ticket: u64::MAX };
    assert_eq!(last.try_update(), UpdateRole::Updater(u64::MAX));
    assert_eq!(last.next_ticket, 0);
}

#[test]
fn building_up_to_a_vertex_counts_its_tries() {
    let m = Group::Master;
    // The caller that performs the update is done after one try.
    assert_eq!(build_up_to_cs(m, 0, BuildEvent::Start), (BuildAction::TryUpdate, 1));
    assert_eq!(
        build_up_to_cs(m, 1, BuildEvent::Updated { performed: true }),
        (BuildAction::Done { tries: 1 }, 1)
    );
    // The caller that waited looks whether the vertex has an id by now.
    assert_eq!(
        build_up_to_cs(m, 1, BuildEvent::Updated { performed: false }),
        (BuildAction::CheckAssigned, 1)
    );
    assert_eq!(
        build_up_to_cs(m, 1, BuildEvent::Assigned { assigned: true }),
        (BuildAction::Done { tries: 1 }, 1)
    );
    assert_eq!(
        build_up_to_cs(m, 1, BuildEvent::Assigned { assigned: false }),
        (BuildAction::TryUpdate, 2)
    );
    assert_eq!(
        build_up_to_cs(m, 2, BuildEvent::Updated { performed: true }),
        (BuildAction::Done { tries: 2 }, 2)
    );
    assert_eq!(
        build_up_to_cs(m, u64::MAX, BuildEvent::Assigned { assigned: false }),
        (BuildAction::TryUpdate, u64::MAX)
    );
    // Only the master group is built.
    for event in [
        BuildEvent::Start,
        BuildEvent::Updated { performed: true },
        BuildEvent::Assigned { assigned: true },
    ] {
        assert_eq!(
            build_up_to_cs(Group::NonMaster, 5, event),
            (BuildAction::NotImplemented, 5)
        );
    }
}

#[test]
fn two_questions_share_one_update() {
    // Two callers need the master head; the first to come performs the
    // update, the second waits, finds the head built, and is done after
    // one try as well.
    let mut log = OnDemandUpdateSegmentedChangelog::new(OwnedSegmentedChangelog::new(0));
    let first = log.try_update();
    let second = log.try_update();
    assert_eq!(first, UpdateRole::Updater(0));
    assert_eq!(second, UpdateRole::Waiter(0));
    let added = log
        .the_actual_update(0, &batch(&[("A", &[]), ("B", &["A"]), ("C", &["B"])]))
        .unwrap();
    assert_eq!(added, 3);
    let (action, tries) = build_up_to_cs(Group::Master,
        1, BuildEvent::Updated { performed: false });
    assert_eq!(action, BuildAction::CheckAssigned);
    assert_eq!(
        build_up_to_cs(Group::Master, tries, BuildEvent::Assigned { assigned: true }),
        (BuildAction::Done { tries: 1 }, 1)
    );
    // The slot is free again, and both get the same answer.
    assert_eq!(log.try_update(), UpdateRole::Updater(1));
    let place = Location { descendant: v("C"), distance: 0 };
    let one = log.location_to_many_changeset_ids(&place, 3).unwrap();
    let two = log.location_to_many_changeset_ids(&place, 3).unwrap();
    assert_eq!(one, vs(&["C", "B", "A"]));
    assert_eq!(one, two);
}

#[test]
fn an_update_adds_what_is_new() {
    let mut log = OnDemandUpdateSegmentedChangelog::new(OwnedSegmentedChangelog::new(0));
    assert_eq!(log.the_actual_update(0, &batch(&[])), Ok(0));
    assert_eq!(
        log.the_actual_update(0, &batch(&[("A", &[]), ("B", &["A"])])),
        Ok(2)
    );
    // Vertexes that have an id are passed over.
    assert_eq!(
        log.the_actual_update(1, &batch(&[("A", &[]), ("B", &["A"]), ("C", &["B", "A"])])),
        Ok(1)
    );
    assert_eq!(
        log.the_actual_update(2, &batch(&[("D", &["C"]), ("E", &["Z"]), ("F", &["D"])])),
        Err(OnDemandError::Update(1, UpdateError::ParentNotFound))
    );
    assert_eq!(log.is_ancestor(&v("A"), &v("D")), Some(true));
    assert_eq!(log.is_ancestor(&v("A"), &v("F")), None);
    assert_eq!(log.clone_data().unwrap().flat_segments.len(), 2);
    assert_eq!(log.full_idmap_clone_data().unwrap().idmap_chunks[0].len(), 4);
}

#[test]
fn heads_without_an_id_fail_the_question_after_the_master_was_built() {
    let mut owned = OwnedSegmentedChangelog::new(0);
    owned.add_vertex(&v("A"), &[], Group::Master).unwrap();
    owned.add_vertex(&v("B"), &vs(&["A"]), Group::Master).unwrap();
    let read = owned.read_only();
    assert!(is_cs_assigned(read.iddag, read.idmap, &v("A")));
    assert!(!is_cs_assigned(read.iddag, read.idmap, &v("Z")));
    assert!(are_heads_assigned(read.iddag, read.idmap, &vs(&["A", "B", "A"])));
    assert!(are_heads_assigned(read.iddag, read.idmap, &[]));
    assert!(!are_heads_assigned(read.iddag, read.idmap, &vs(&["A", "Z"])));
    assert_eq!(
        unassigned_heads(read.iddag, read.idmap, &vs(&["Y", "A", "Z", "B"])),
        vs(&["Y", "Z"])
    );
    assert_eq!(
        build_up_to_heads(read.iddag, read.idmap, &vs(&["A", "B"]), false),
        HeadsAction::Answer
    );
    assert_eq!(
        build_up_to_heads(read.iddag, read.idmap, &vs(&["A", "B"]), true),
        HeadsAction::Answer
    );
    assert_eq!(
        build_up_to_heads(read.iddag, read.idmap, &vs(&["A", "Z"]), false),
        HeadsAction::BuildBookmark
    );
    assert_eq!(
        build_up_to_heads(read.iddag, read.idmap, &vs(&["Y", "A", "Z"]), true),
        HeadsAction::Fail(OnDemandError::MismatchedHeads(vs(&["Y", "Z"])))
    );

    let log = OnDemandUpdateSegmentedChangelog::new(owned);
    assert_eq!(
        log.location_to_many_changeset_ids(&Location { descendant: v("Z"), distance: 0 }, 1),
        Err(OnDemandError::MismatchedHeads(vs(&["Z"])))
    );
    assert_eq!(
        log.location_to_many_changeset_ids(&Location { descendant: v("B"), distance: 5 }, 1),
        Err(OnDemandError::Changelog(ChangelogError::NoSuchAncestor))
    );
    assert_eq!(
        log.many_changeset_ids_to_locations(&vs(&["B", "Z"]), &vs(&["A"])).err(),
        Some(OnDemandError::MismatchedHeads(vs(&["Z"])))
    );
    let found = log.many_changeset_ids_to_locations(&vs(&["B"]), &vs(&["A"])).unwrap();
    assert_eq!(found[0].1.as_ref().unwrap().distance, 1);
    assert_eq!(
        log.pull_fast_forward_master(&v("Z"), &v("B")).err(),
        Some(OnDemandError::MismatchedHeads(vs(&["Z"])))
    );
    assert_eq!(
        log.pull_fast_forward_master(&v("Y"), &v("Z")).err(),
        Some(OnDemandError::MismatchedHeads(vs(&["Y", "Z"])))
    );
    assert_eq!(
        log.pull_fast_forward_master(&v("B"), &v("A")).err(),
        Some(OnDemandError::Changelog(ChangelogError::NotAncestor))
    );
    assert_eq!(
        log.pull_fast_forward_master(&v("A"), &v("B")).unwrap().flat_segments[0].low,
        Id(1)
    );
}

#[test]
fn a_missing_bookmark_is_an_error() {
    assert_eq!(build_up_to_bookmark(Some(v("tip"))), Ok(v("tip")));
    assert_eq!(build_up_to_bookmark(None), Err(OnDemandError::BookmarkNotFound));
}

#[test]
fn the_first_periodic_update_waits_between_one_and_two_periods() {
    let mut seen = std::collections::BTreeSet::new();
    for _ in 0..500 {
        let delay = initial_delay(1000);
        assert!(1000 <= delay && delay < 2000);
        seen.insert(delay);
    }
    // The delay is drawn at random, not fixed.
    assert!(seen.len() > 50);
    for _ in 0..50 {
        assert_eq!(initial_delay(1), 1);
    }
    assert_eq!(periodic_initial_delay(0), None);
    assert_eq!(periodic_initial_delay(u64::MAX), None);
    assert_eq!(periodic_initial_delay(u64::MAX / 2 + 1), None);
    let longest = periodic_initial_delay(u64::MAX / 2).unwrap();
    assert!(longest >= u64::MAX / 2);
    assert_eq!(PeriodicUpdateSegmentedChangelog::new(0), None);
    let plan = PeriodicUpdateSegmentedChangelog::new(60).unwrap();
    assert_eq!(plan.period, 60);
    assert!(60 <= plan.first_delay && plan.first_delay < 120);
    assert_eq!(plan.delay_before(0), plan.first_delay);
    assert_eq!(plan.delay_before(1), 60);
    assert_eq!(plan.delay_before(9), 60);
}

#[test]
fn the_first_delay_is_the_period_and_the_sample() {
    assert_eq!(delay_with_jitter(1000, 0), 1000);
    assert_eq!(delay_with_jitter(1000, 999), 1999);
    assert_eq!(delay_with_jitter(1, 0), 1);
    assert_eq!(delay_with_jitter(u64::MAX / 2, u64::MAX / 2 - 1), u64::MAX - 2);
}

#[test]
fn a_batch_joins_a_changelog_just_made() {
    let mut log = OwnedSegmentedChangelog::new(3);
    let batch = vec![
        GraphNode { vertex: v("A"), parents: vec![] },
        GraphNode { vertex: v("B"), parents: vec![v("A")] },
        GraphNode { vertex: v("C"), parents: vec![v("B")] },
        GraphNode { vertex: v("D"), parents: vec![v("C")] },
    ];
    assert_eq!(log.add_batch(&batch), Ok(4));
    let read = log.read_only();
    assert_eq!(read.idmap.map_id(), "mem:3");
    assert_eq!(read.idmap.vertex_id(&v("D")), Ok(Id(3)));
    assert_eq!(read.idmap.next_free_id(Group::Master), Id(4));
    assert_eq!(read.iddag.next_free_id(0, Group::Master), Id(4));
    assert_eq!(read.iddag.segment_count(), 1);
    let flags = read.iddag.segment_flags(0);
    assert!(flags.has_root && flags.only_head);
    // A vertex that is met again is passed over; one without its parent stops the batch.
    let more = vec![
        GraphNode { vertex: v("B"), parents: vec![v("A")] },
        GraphNode { vertex: v("E"), parents: vec![v("D")] },
        GraphNode { vertex: v("G"), parents: vec![v("F")] },
        GraphNode { vertex: v("H"), parents: vec![v("E")] },
    ];
    assert_eq!(log.add_batch(&more), Err((2, UpdateError::ParentNotFound)));
    assert_eq!(log.read_only().idmap.next_free_id(Group::Master), Id(5));
}

#[test]
fn the_version_of_the_map_is_newer_after_every_change() {
    let mut log = OwnedSegmentedChangelog::new(9);
    let made = log.read_only().idmap.map_version();
    assert_eq!((made.epoch, made.generation), (0, 0));
    log.add_vertex(&v("A"), &[], Group::Master).unwrap();
    let grown = log.read_only().idmap.map_version();
    assert_eq!((grown.epoch, grown.generation), (0, 1));
    assert!(made.le(grown) && !grown.le(made));
    log.add_vertex(&v("X"), &[v("A")], Group::NonMaster).unwrap();
    log.remove_non_master().unwrap();
    let cleared = log.read_only().idmap.map_version();
    assert_eq!((cleared.epoch, cleared.generation), (1, 0));
    assert!(!grown.le(cleared));
    let read = log.read_only();
    assert_eq!(read.idmap.vertex_id(&v("A")), Ok(Id(0)));
    assert!(!read.idmap.contains_vertex_name(&v("X")));
    assert_eq!(read.idmap.next_free_id(Group::NonMaster), read.iddag.next_free_id(0, Group::NonMaster));
    assert_eq!(read.idmap.next_free_id(Group::Master), Id(1));
    assert_eq!(read.idmap.map_id(), "mem:9");
}
