//! Growing the changelog on demand: who performs an update and who
//! waits for one, when a question has to wait for the master to be
//! built, and when the periodic update starts.
//!
//! Fetching the master bookmark, walking the parents of vertexes and
//! waiting are left to the caller. This file holds what is decided in
//! between, as functions from what the caller has learned to what it is
//! to do next.

use crate::id::Group;
use crate::id::Id;
use crate::iddag::covered;
use crate::iddag::IdDag;
use crate::iddag::Location;
use crate::idmap::mem_idmap::MemIdMap;
use crate::idmap::mem_idmap::VertexName;
use crate::idmap::mem_idmap::names_view;
use crate::iddag::is_gain;
use crate::iddag::next_free;
use crate::iddag::of_group;
use crate::iddag::reaches;
use crate::read_only::ids_at;
use crate::read_only::is_anchor_map;
use crate::read_only::is_chunked;
use crate::read_only::located_all_view;
use crate::read_only::locations;
use crate::read_only::names_of;
use crate::read_only::pairs_view;
use crate::read_only::pull_error_of;
use crate::read_only::resolved;
use crate::read_only::ChangelogError;
use crate::read_only::CloneData;
use crate::read_only::StreamCloneData;
use crate::update::after_batch;
use crate::update::batch_view;
use crate::update::GraphNode;
use crate::update::OwnedSegmentedChangelog;
use crate::update::UpdateError;
use rand::Rng;
use vstd::prelude::*;

verus! {

/// What a caller of `try_update` is to do.
#[derive(Clone, Copy, Debug, PartialEq, Eq, Structural)]
pub enum UpdateRole {
    /// No update was going on: the caller performs the update with this
    /// ticket, and hands the ticket back when it is done.
    Updater(u64),
    /// The update with this ticket is going on: the caller waits for it.
    Waiter(u64),
}

/// The slot for the one update that may go on at a time.
#[derive(Clone, Copy, Debug, PartialEq, Eq, Structural)]
pub struct OngoingUpdate {
    pub current: Option<u64>,
    pub next_ticket: u64,
}

impl OngoingUpdate {
    pub fn new() -> (slot: OngoingUpdate)
        ensures
            slot.current.is_none(),
            slot.next_ticket == 0,
    {
        OngoingUpdate { current: None, next_ticket: 0 }
    }

    /// Joins the update that is going on, or starts one where none is.
    ///
    /// While an update is going on, every caller is a waiter of that
    /// update: one caller at most performs an update at any time.
    pub fn try_update(&mut self) -> (role: UpdateRole)
        ensures
            match old(self).current {
                Some(ticket) => role == UpdateRole::Waiter(ticket) && *final(self) == *old(self),
                None => role == UpdateRole::Updater(old(self).next_ticket) && final(self).current
                    == Some(old(self).next_ticket)
                        && final(self).next_ticket == (if old(self).next_ticket == u64::MAX {
                    0
                } else {
                    (old(self).next_ticket + 1) as u64
                }),
            },
    {
        match self.current {
            Some(ticket) => UpdateRole::Waiter(ticket),
            None => {
                let ticket = self.next_ticket;
                self.current = Some(ticket);
                self.next_ticket = if ticket == u64::MAX {
                    0
                } else {
                    ticket + 1
                };
                UpdateRole::Updater(ticket)
            },
        }
    }

    /// Ends the update with the ticket `ticket`. Tells whether that
    /// update was the one going on.
    pub fn finish(&mut self, ticket: u64) -> (ended: bool)
        ensures
            ended == (old(self).current == Some(ticket)),
            final(self).next_ticket == old(self).next_ticket,
            final(self).current == (if ended {
                None
            } else {
                old(self).current
            }),
    {
        let ended = match self.current {
            Some(t) => t == ticket,
            None => false,
        };
        if ended {
            self.current = None;
        }
        ended
    }
}

/// What the caller has learned since the last step of building up to a
/// vertex.
#[derive(Clone, Copy, Debug, PartialEq, Eq, Structural)]
pub enum BuildEvent {
    /// Nothing yet: the build starts.
    Start,
    /// `try_update` has ended; `performed` tells whether this caller
    /// performed the update.
    Updated { performed: bool },
    /// Whether the vertex has an id in the graph by now.
    Assigned { assigned: bool },
}

/// What the caller is to do next in building up to a vertex.
#[derive(Clone, Copy, Debug, PartialEq, Eq, Structural)]
pub enum BuildAction {
    /// Call `try_update`, and come back with `Updated`.
    TryUpdate,
    /// Look whether the vertex has an id, and come back with `Assigned`.
    CheckAssigned,
    /// The vertex is built: stop, and report the number of tries.
    Done { tries: u64 },
    /// Building this group is not supported: fail.
    NotImplemented,
}

/// The step of building up to a vertex of `group` that follows `event`,
/// after `tries` tries: the action, and the tries after it.
///
/// Only the master group is built. A try is one call of `try_update`.
/// The build is done as soon as this caller has performed an update, or
/// the vertex is found to have an id after waiting for another's update.
pub open spec fn spec_build_step(group: Group,
    tries: u64, event: BuildEvent) -> (BuildAction, u64) {
    if group != Group::Master {
        (BuildAction::NotImplemented, tries)
    } else {
        match event {
            BuildEvent::Start => (BuildAction::TryUpdate, 1u64),
            BuildEvent::Updated { performed } => if performed {
                (BuildAction::Done { tries }, tries)
            } else {
                (BuildAction::CheckAssigned, tries)
            },
            BuildEvent::Assigned { assigned } => if assigned {
                (BuildAction::Done { tries }, tries)
            } else if tries == u64::MAX {
                (BuildAction::TryUpdate, tries)
            } else {
                (BuildAction::TryUpdate, (tries + 1) as u64)
            },
        }
    }
}

/// Decides the next step of building up to a vertex: see `spec_build_step`.
pub fn build_up_to_cs(group: Group, tries: u64, event: BuildEvent) -> (r: (BuildAction, u64))
    ensures
        r == spec_build_step(group, tries, event),
{
    match group {
        Group::NonMaster => (BuildAction::NotImplemented, tries),
        Group::Master => match event {
            BuildEvent::Start => (BuildAction::TryUpdate, 1),
            BuildEvent::Updated { performed } => if performed {
                (BuildAction::Done { tries }, tries)
            } else {
                (BuildAction::CheckAssigned, tries)
            },
            BuildEvent::Assigned { assigned } => if assigned {
                (BuildAction::Done { tries }, tries)
            } else if tries == u64::MAX {
                (BuildAction::TryUpdate, tries)
            } else {
                (BuildAction::TryUpdate, tries + 1)
            },
        },
    }
}

/// Why a question was not answered by the changelog that grows on demand.
#[derive(Debug, PartialEq, Eq)]
pub enum OnDemandError {
    /// The master bookmark names no vertex.
    BookmarkNotFound,
    /// After the master was built, these heads still have no id.
    MismatchedHeads(Vec<VertexName>),
    /// The question itself failed.
    Changelog(ChangelogError),
    /// The update failed at the vertex with this number in the batch.
    Update(usize, UpdateError),
}

/// The vertex to build up to, of what the bookmark store holds for the
/// master bookmark.
pub fn build_up_to_bookmark(bookmark: Option<VertexName>) -> (r: Result<VertexName, OnDemandError>)
    ensures
        match bookmark {
            Some(v) => r == Ok::<VertexName, OnDemandError>(v),
            None => r == Err::<VertexName, OnDemandError>(OnDemandError::BookmarkNotFound),
        },
{
    match bookmark {
        Some(v) => Ok(v),
        None => Err(OnDemandError::BookmarkNotFound),
    }
}

/// Whether the vertex `name` has an id that is an id of the graph.
pub open spec fn assigned(dag: IdDag, idmap: MemIdMap, name: Seq<u8>) -> bool {
    idmap.name2id().dom().contains(name) && covered(dag@, idmap.name2id()[name])
}

/// Those of `names` that are not assigned, in the order of `names`.
pub open spec fn unassigned(dag: IdDag, idmap: MemIdMap, names: Seq<Seq<u8>>) -> Seq<Seq<u8>>
    decreases names.len(),
{
    if names.len() == 0 {
        Seq::empty()
    } else if assigned(dag, idmap, names.last()) {
        unassigned(dag, idmap, names.drop_last())
    } else {
        unassigned(dag, idmap, names.drop_last()).push(names.last())
    }
}

/// Whether the vertex `cs_id` has an id that is an id of the graph.
pub fn is_cs_assigned(iddag: &IdDag, idmap: &MemIdMap, cs_id: &VertexName) -> (b: bool)
    requires
        iddag.wf(),
        idmap.wf(),
    ensures
        b == assigned(*iddag, *idmap, cs_id@),
{
    match idmap.vertex_id(cs_id) {
        Ok(id) => iddag.contains_id(id),
        Err(_) => false,
    }
}

/// Those of `heads` that have no id in the graph.
pub fn unassigned_heads(iddag: &IdDag, idmap: &MemIdMap,
    heads: &[VertexName]) -> (r: Vec<VertexName>)
    requires
        iddag.wf(),
        idmap.wf(),
    ensures
        names_view(r@) == unassigned(*iddag, *idmap, names_view(heads@)),
{
    let ghost all = names_view(heads@);
    let mut r: Vec<VertexName> = Vec::new();
    let mut i: usize = 0;
    proof {
        assert(all.take(0) =~= Seq::<Seq<u8>>::empty());
        assert(names_view(r@) =~= Seq::<Seq<u8>>::empty());
    }
    while i < heads.len()
        invariant
            iddag.wf(),
            idmap.wf(),
            all == names_view(heads@),
            i <= heads@.len(),
            names_view(r@) == unassigned(*iddag, *idmap, all.take(i as int)),
        decreases heads@.len() - i,
    {
        proof {
            assert(all.take(i + 1).drop_last() =~= all.take(i as int));
            assert(all.take(i + 1).last() == heads@[i as int]@);
        }
        if !is_cs_assigned(iddag, idmap, &heads[i]) {
            let ghost before = r@;
            r.push(heads[i].duplicate());
            proof {
                assert(names_view(r@) =~= names_view(before).push(heads@[i as int]@));
            }
        }
        i = i + 1;
    }
    proof {
        assert(all.take(i as int) =~= all);
    }
    r
}

/// Whether each of `heads` has an id that is an id of the graph.
pub fn are_heads_assigned(iddag: &IdDag, idmap: &MemIdMap, heads: &[VertexName]) -> (b: bool)
    requires
        iddag.wf(),
        idmap.wf(),
    ensures
        b == (unassigned(*iddag, *idmap, names_view(heads@)).len() == 0),
{
    let missing = unassigned_heads(iddag, idmap, heads);
    proof {
        assert(names_view(missing@).len() == missing@.len());
    }
    missing.len() == 0
}

/// What the caller is to do about the heads of a question.
#[derive(Debug, PartialEq, Eq)]
pub enum HeadsAction {
    /// Every head has an id: answer the question.
    Answer,
    /// Build up to the master bookmark, and decide again.
    BuildBookmark,
    /// The master was built and heads still have no id: fail.
    Fail(OnDemandError),
}

/// Decides what to do about the heads `heads` of a question, before
/// the master was built for it (`built` is false) or after.
///
/// Heads that all have an id need nothing. Else the master is built
/// once; heads that have no id after that make the question fail with
/// `MismatchedHeads`, which lists them.
pub fn build_up_to_heads(iddag: &IdDag, idmap: &MemIdMap, heads: &[VertexName], built: bool) -> (r:
    HeadsAction)
    requires
        iddag.wf(),
        idmap.wf(),
    ensures
        match r {
            HeadsAction::Answer => unassigned(*iddag, *idmap, names_view(heads@)).len() == 0,
            HeadsAction::BuildBookmark => !built && unassigned(
                *iddag,
                *idmap,
                names_view(heads@),
            ).len() > 0,
            HeadsAction::Fail(OnDemandError::MismatchedHeads(missing)) => built && names_view(
                missing@,
            ) == unassigned(*iddag, *idmap, names_view(heads@)) && missing@.len() > 0,
            HeadsAction::Fail(_) => false,
        },
{
    let missing = unassigned_heads(iddag, idmap, heads);
    proof {
        assert(names_view(missing@).len() == missing@.len());
    }
    if missing.len() == 0 {
        HeadsAction::Answer
    } else if !built {
        HeadsAction::BuildBookmark
    } else {
        HeadsAction::Fail(OnDemandError::MismatchedHeads(missing))
    }
}

/// `rand::Rng::gen_range` on the thread's generator: a number from 0
/// up to `bound`, which is left out. It panics where `bound` is 0.
#[verifier::external_body]
fn random_below(bound: u64) -> (r: u64)
    requires
        bound > 0,
    ensures
        r < bound,
{
    rand::thread_rng().gen_range(0, bound)
}

/// The delay before the first run that the sample `jitter` gives for
/// the period `period`: the period and the sample.
pub fn delay_with_jitter(period: u64, jitter: u64) -> (delay: u64)
    requires
        period + jitter <= u64::MAX,
    ensures
        delay == period + jitter,
{
    period + jitter
}

/// How long the periodic update waits before its first run, for the
/// period `period` between runs: the period and a random part of it, so
/// that processes that start together do not update together. The
/// random part is a sample below the period; `delay_with_jitter` says
/// what is made of it.
pub fn initial_delay(period: u64) -> (delay: u64)
    requires
        0 < period <= u64::MAX / 2,
    ensures
        period <= delay < 2 * period,
{
    let jitter = random_below(period);
    delay_with_jitter(period, jitter)
}

/// The delay before the first periodic update, or `None` where the
/// period is 0 or too long for twice the period to be counted.
pub fn periodic_initial_delay(period: u64) -> (r: Option<u64>)
    ensures
        match r {
            Some(delay) => 0 < period <= u64::MAX / 2 && period <= delay < 2 * period,
            None => period == 0 || period > u64::MAX / 2,
        },
{
    if period == 0 || period > u64::MAX / 2 {
        None
    } else {
        Some(initial_delay(period))
    }
}

/// A changelog that grows when a question needs it to.
pub struct OnDemandUpdateSegmentedChangelog {
    changelog: OwnedSegmentedChangelog,
    ongoing_update: OngoingUpdate,
}

impl OnDemandUpdateSegmentedChangelog {
    /// The graph and the map.
    pub closed spec fn changelog(&self) -> OwnedSegmentedChangelog {
        self.changelog
    }

    /// The slot of the update that is going on.
    pub closed spec fn ongoing(&self) -> OngoingUpdate {
        self.ongoing_update
    }

    pub open spec fn wf(&self) -> bool {
        self.changelog().wf()
    }

    pub fn new(changelog: OwnedSegmentedChangelog) -> (r: OnDemandUpdateSegmentedChangelog)
        requires
            changelog.wf(),
        ensures
            r.wf(),
            r.changelog() == changelog,
            r.ongoing().current.is_none(),
    {
        OnDemandUpdateSegmentedChangelog { changelog, ongoing_update: OngoingUpdate::new() }
    }

    /// Joins the update that is going on, or starts one.
    pub fn try_update(&mut self) -> (role: UpdateRole)
        requires
            old(self).wf(),
        ensures
            final(self).wf(),
            final(self).changelog() == old(self).changelog(),
            match old(self).ongoing().current {
                Some(ticket) => role == UpdateRole::Waiter(ticket)
                    && final(self).ongoing() == old(self).ongoing(),
                None => role == UpdateRole::Updater(old(self).ongoing().next_ticket)
                    && final(self).ongoing().current == Some(old(self).ongoing().next_ticket),
            },
    {
        self.ongoing_update.try_update()
    }

    /// Performs the update with the ticket `ticket`: adds the vertexes
    /// of `batch` to the master group in their order, each with its
    /// parents, and ends the update. Vertexes that have an id already
    /// are passed over. Tells how many vertexes were added.
    ///
    /// The update stops at the first vertex that cannot be added; the
    /// vertexes before it stay. See `after_batch`.
    pub fn the_actual_update(
        &mut self,
        ticket: u64,
        batch: &Vec<GraphNode>,
    ) -> (r: Result<usize, OnDemandError>)
        requires
            old(self).wf(),
        ensures
            final(self).wf(),
            final(self).ongoing().next_ticket == old(self).ongoing().next_ticket,
            final(self).ongoing().current == (if old(self).ongoing().current == Some(ticket) {
                None
            } else {
                old(self).ongoing().current
            }),
            final(self).changelog()@ == after_batch(old(self).changelog()@, batch_view(batch@)).0,
            match r {
                Ok(added) => after_batch(old(self).changelog()@, batch_view(batch@)).2.is_none()
                    && added == after_batch(old(self).changelog()@, batch_view(batch@)).1,
                Err(OnDemandError::Update(at, e)) => after_batch(
                    old(self).changelog()@,
                    batch_view(batch@),
                ).2 == Some((at as nat, e)),
                Err(_) => false,
            },
    {
        let r = self.changelog.add_batch(batch);
        let _ = self.ongoing_update.finish(ticket);
        match r {
            Ok(added) => Ok(added),
            Err((at, e)) => Err(OnDemandError::Update(at, e)),
        }
    }

    /// Answers `location_to_many_changeset_ids` where the vertex of the
    /// location has an id, and fails with `MismatchedHeads` where it has none.
    pub fn location_to_many_changeset_ids(&self, location: &Location<VertexName>, count: u64) -> (r:
        Result<Vec<VertexName>, OnDemandError>)
        requires
            self.wf(),
        ensures
            match r {
                Ok(names) => assigned(
                    self.changelog().dag(),
                    self.changelog().map(),
                    location.descendant@,
                ) && (ids_at(
                    self.changelog().dag()@,
                    self.changelog().map().name2id()[location.descendant@],
                    location.distance as nat,
                    count as nat,
                ) matches Ok(ids) && names_view(names@) == names_of(
                    self.changelog().map().id2name(),
                    ids,
                )),
                Err(OnDemandError::MismatchedHeads(missing)) => !assigned(
                    self.changelog().dag(),
                    self.changelog().map(),
                    location.descendant@,
                ) && names_view(missing@) == seq![location.descendant@],
                Err(OnDemandError::Changelog(e)) => assigned(
                    self.changelog().dag(),
                    self.changelog().map(),
                    location.descendant@,
                ) && ids_at(
                    self.changelog().dag()@,
                    self.changelog().map().name2id()[location.descendant@],
                    location.distance as nat,
                    count as nat,
                ) == Err::<Seq<Id>, ChangelogError>(e),
                Err(_) => false,
            },
    {
        let read = self.changelog.read_only();
        if !is_cs_assigned(read.iddag, read.idmap, &location.descendant) {
            let mut missing: Vec<VertexName> = Vec::new();
            missing.push(location.descendant.duplicate());
            proof {
                assert(names_view(missing@) =~= seq![location.descendant@]);
            }
            return Err(OnDemandError::MismatchedHeads(missing));
        }
        match read.location_to_many_changeset_ids(location, count) {
            Ok(names) => Ok(names),
            Err(e) => Err(OnDemandError::Changelog(e)),
        }
    }

    /// Answers `many_changeset_ids_to_locations` where every head has
    /// an id, and fails with `MismatchedHeads` where one has none.
    pub fn many_changeset_ids_to_locations(
        &self,
        master_heads: &[VertexName],
        cs_ids: &[VertexName],
    ) -> (r: Result<
        Vec<(VertexName, Result<Location<VertexName>, ChangelogError>)>,
        OnDemandError,
    >)
        requires
            self.wf(),
        ensures
            match r {
                Ok(found) => unassigned(
                    self.changelog().dag(),
                    self.changelog().map(),
                    names_view(master_heads@),
                ).len() == 0 && located_all_view(found@) == locations(
                    self.changelog().dag()@,
                    self.changelog().map().id2name(),
                    self.changelog().map().name2id(),
                    resolved(self.changelog().map().name2id(), names_view(master_heads@)),
                    names_view(cs_ids@),
                ),
                Err(OnDemandError::MismatchedHeads(missing)) => names_view(missing@) == unassigned(
                    self.changelog().dag(),
                    self.changelog().map(),
                    names_view(master_heads@),
                ) && missing@.len() > 0,
                Err(OnDemandError::Changelog(e)) => e == ChangelogError::NoHeads
                    && master_heads@.len() == 0,
                Err(_) => false,
            },
    {
        let read = self.changelog.read_only();
        let missing = unassigned_heads(read.iddag, read.idmap, master_heads);
        proof {
            assert(names_view(missing@).len() == missing@.len());
        }
        if missing.len() > 0 {
            return Err(OnDemandError::MismatchedHeads(missing));
        }
        match read.many_changeset_ids_to_locations(master_heads, cs_ids) {
            Ok(found) => Ok(found),
            Err(e) => {
                proof {
                    lemma_all_assigned_resolve(
                        self.changelog().dag(),
                        self.changelog().map(),
                        names_view(master_heads@),
                    );
                    assert(names_view(master_heads@).len() == master_heads@.len());
                }
                Err(OnDemandError::Changelog(e))
            },
        }
    }

    /// Answers `clone_data`.
    pub fn clone_data(&self) -> (r: Result<CloneData, OnDemandError>)
        requires
            self.wf(),
        ensures
            r matches Ok(data) && data.flat_segments.deep_view() == of_group(
                self.changelog().dag()@,
                Group::Master,
            ) && is_anchor_map(
                self.changelog().map().id2name(),
                of_group(self.changelog().dag()@, Group::Master),
                pairs_view(data.idmap@),
            ),
    {
        let read = self.changelog.read_only();
        match read.clone_data() {
            Ok(data) => Ok(data),
            Err(e) => Err(OnDemandError::Changelog(e)),
        }
    }

    /// Answers `full_idmap_clone_data`.
    pub fn full_idmap_clone_data(&self) -> (r: Result<StreamCloneData, OnDemandError>)
        requires
            self.wf(),
        ensures
            r matches Ok(data) && data.flat_segments.deep_view() == of_group(
                self.changelog().dag()@,
                Group::Master,
            ) && is_chunked(
                self.changelog().map().id2name(),
                next_free(self.changelog().dag()@, Group::Master) as nat,
                data.idmap_chunks@,
            ),
    {
        let read = self.changelog.read_only();
        match read.full_idmap_clone_data() {
            Ok(data) => Ok(data),
            Err(e) => Err(OnDemandError::Changelog(e)),
        }
    }

    /// Answers `pull_fast_forward_master` where both vertexes have an
    /// id, and fails with `MismatchedHeads` where one has none. Where
    /// both have one, the answer and the error are those of the
    /// changelog as it stands: see `pull_error_of`.
    pub fn pull_fast_forward_master(&self, old_master: &VertexName, new_master: &VertexName) -> (r:
        Result<CloneData, OnDemandError>)
        requires
            self.wf(),
        ensures
            match r {
                Ok(data) => pull_error_of(
                    self.changelog().dag()@,
                    self.changelog().map().name2id(),
                    old_master@,
                    new_master@,
                ).is_none() && self.changelog().map().name2id().dom().contains(old_master@)
                    && self.changelog().map().name2id().dom().contains(new_master@) && is_gain(
                    self.changelog().dag()@,
                    self.changelog().map().name2id()[old_master@],
                    self.changelog().map().name2id()[new_master@],
                    data.flat_segments.deep_view(),
                ) && is_anchor_map(
                    self.changelog().map().id2name(),
                    data.flat_segments.deep_view(),
                    pairs_view(data.idmap@),
                ),
                Err(OnDemandError::MismatchedHeads(missing)) => names_view(missing@) == unassigned(
                    self.changelog().dag(),
                    self.changelog().map(),
                    seq![old_master@, new_master@],
                ) && missing@.len() > 0,
                Err(OnDemandError::Changelog(e)) => unassigned(
                    self.changelog().dag(),
                    self.changelog().map(),
                    seq![old_master@, new_master@],
                ).len() == 0 && (e == ChangelogError::NotInMaster || e
                    == ChangelogError::NotAncestor) && pull_error_of(
                    self.changelog().dag()@,
                    self.changelog().map().name2id(),
                    old_master@,
                    new_master@,
                ) == Some(e),
                Err(_) => false,
            },
    {
        let read = self.changelog.read_only();
        let mut heads: Vec<VertexName> = Vec::new();
        heads.push(old_master.duplicate());
        heads.push(new_master.duplicate());
        proof {
            assert(names_view(heads@) =~= seq![old_master@, new_master@]);
        }
        let missing = unassigned_heads(read.iddag, read.idmap, heads.as_slice());
        proof {
            assert(names_view(missing@).len() == missing@.len());
        }
        if missing.len() > 0 {
            return Err(OnDemandError::MismatchedHeads(missing));
        }
        proof {
            let both = seq![old_master@, new_master@];
            lemma_all_assigned(self.changelog().dag(), self.changelog().map(), both, 0);
            lemma_all_assigned(self.changelog().dag(), self.changelog().map(), both, 1);
        }
        match read.pull_fast_forward_master(old_master, new_master) {
            Ok(data) => Ok(data),
            Err(e) => Err(OnDemandError::Changelog(e)),
        }
    }

    /// Answers `is_ancestor`.
    pub fn is_ancestor(&self, ancestor: &VertexName, descendant: &VertexName) -> (r: Option<bool>)
        requires
            self.wf(),
        ensures
            r == (if self.changelog().map().name2id().dom().contains(ancestor@)
                && self.changelog().map().name2id().dom().contains(descendant@) {
                Some(
                    reaches(
                        self.changelog().dag()@,
                        self.changelog().map().name2id()[ancestor@],
                        self.changelog().map().name2id()[descendant@],
                    ),
                )
            } else {
                None
            }),
    {
        let read = self.changelog.read_only();
        read.is_ancestor(ancestor, descendant)
    }
}

/// After a vertex of a batch could not join, the rest of the batch
/// changes nothing.
pub proof fn lemma_after_failure(
    c: crate::update::ChangelogView,
    batch: Seq<(Seq<u8>, Seq<Seq<u8>>)>,
    n: int,
)
    requires
        0 <= n <= batch.len(),
        after_batch(c, batch.take(n)).2.is_some(),
    ensures
        after_batch(c, batch) == after_batch(c, batch.take(n)),
    decreases batch.len() - n,
{
    if n < batch.len() {
        assert(batch.drop_last().take(n) =~= batch.take(n));
        lemma_after_failure(c, batch.drop_last(), n);
    } else {
        assert(batch.take(n) =~= batch);
    }
}

/// Where none of `names` is unassigned, each of them is assigned.
pub proof fn lemma_all_assigned(dag: IdDag, idmap: MemIdMap, names: Seq<Seq<u8>>, i: int)
    requires
        unassigned(dag, idmap, names).len() == 0,
        0 <= i < names.len(),
    ensures
        assigned(dag, idmap, names[i]),
    decreases names.len(),
{
    if i < names.len() - 1 {
        lemma_all_assigned(dag, idmap, names.drop_last(), i);
    }
}

/// Where none of `names` is unassigned, each of them has an id.
pub proof fn lemma_all_assigned_resolve(dag: IdDag, idmap: MemIdMap, names: Seq<Seq<u8>>)
    requires
        unassigned(dag, idmap, names).len() == 0,
    ensures
        resolved(idmap.name2id(), names).len() == names.len(),
    decreases names.len(),
{
    if names.len() > 0 {
        lemma_all_assigned_resolve(dag, idmap, names.drop_last());
    }
}

/// The plan of the periodic update: how long to wait before each run.
#[derive(Clone, Copy, Debug, PartialEq, Eq, Structural)]
pub struct PeriodicUpdateSegmentedChangelog {
    pub period: u64,
    pub first_delay: u64,
}

impl PeriodicUpdateSegmentedChangelog {
    /// What every plan satisfies: the first run comes after one period
    /// at least and before two periods have passed.
    pub open spec fn wf(&self) -> bool {
        0 < self.period && self.period <= self.first_delay < 2 * self.period
    }

    /// The plan for the period `period`, with a first delay chosen at
    /// random; `None` where the period is 0 or too long.
    pub fn new(period: u64) -> (r: Option<PeriodicUpdateSegmentedChangelog>)
        ensures
            match r {
                Some(plan) => plan.wf() && plan.period == period,
                None => period == 0 || period > u64::MAX / 2,
            },
    {
        match periodic_initial_delay(period) {
            Some(first_delay) => Some(PeriodicUpdateSegmentedChangelog { period, first_delay }),
            None => None,
        }
    }

    /// How long to wait before the run numbered `run`, counted from
    /// the start for the first run and from the run before for the others.
    pub fn delay_before(&self, run: u64) -> (delay: u64)
        ensures
            delay == (if run == 0 {
                self.first_delay
            } else {
                self.period
            }),
    {
        if run == 0 {
            self.first_delay
        } else {
            self.period
        }
    }
}

} // verus!
