//! A graph of ids together with the map between its ids and their
//! names, and the steps by which the two grow.

use crate::id::Group;
use crate::id::Id;
use crate::iddag::covered;
use crate::iddag::dag_wf;
use crate::iddag::lemma_one_segment;
use crate::iddag::lemma_next_free;
use crate::iddag::next_free;
use crate::iddag::of_group;
use crate::iddag::vertex_error;
use crate::iddag::with_vertex;
use crate::iddag::IdDag;
use crate::idmap::mem_idmap::MemIdMap;
use crate::idmap::mem_idmap::VertexName;
use crate::idmap::mem_idmap::names_view;
use crate::read_only::ReadOnlySegmentedChangelog;
use vstd::prelude::*;

verus! {

/// Why a vertex cannot join the graph.
#[derive(Clone, Copy, Debug, PartialEq, Eq, Structural)]
pub enum UpdateError {
    /// The vertex has an id already.
    AlreadyAssigned,
    /// A parent of the vertex has no id.
    ParentNotFound,
    /// The vertex is to join the master group, and a parent of it is
    /// of the other group.
    GroupViolation,
    /// Every id of the group is taken.
    GroupFull,
    /// The version of the map cannot be counted any further.
    VersionExhausted,
}

/// A graph of ids and the map between its ids and their names, which
/// grow together.
pub struct OwnedSegmentedChangelog {
    iddag: IdDag,
    idmap: MemIdMap,
}

/// A changelog as a mathematical value: the list of its flat segments,
/// the two tables of its map, the identifier of the map, and the epoch
/// and the generation of the version of the map. The ids that are free
/// next in the map are those of the graph: see `wf`.
pub struct ChangelogView {
    pub dag: crate::iddag::Flat,
    pub id2name: Map<Id, Seq<u8>>,
    pub name2id: Map<Seq<u8>, Id>,
    pub map_id: Seq<char>,
    pub epoch: u64,
    pub generation: u64,
}

/// The changelog without vertexes whose map has the number `number`.
pub open spec fn empty_changelog(number: u64) -> ChangelogView {
    ChangelogView {
        dag: Seq::empty(),
        id2name: Map::empty(),
        name2id: Map::empty(),
        map_id: MemIdMap::id_of_number(number),
        epoch: 0,
        generation: 0,
    }
}

/// The changelog `c` without its non-master group: the segments and the
/// names of the master group stay as they are, the others go, and a new
/// epoch of the version of the map starts.
pub open spec fn without_non_master(c: ChangelogView) -> ChangelogView {
    ChangelogView {
        dag: of_group(c.dag, Group::Master),
        id2name: c.id2name.remove_keys(
            Set::new(|id: Id| id.spec_group() == Some(Group::NonMaster)),
        ),
        name2id: c.name2id.remove_keys(
            Set::new(
                |n: Seq<u8>|
                    c.name2id.dom().contains(n) && c.name2id[n].spec_group() == Some(
                        Group::NonMaster,
                    ),
            ),
        ),
        map_id: c.map_id,
        epoch: (c.epoch + 1) as u64,
        generation: 0,
    }
}

/// The ids of `names`, where each of them has one.
pub open spec fn ids_of(name2id: Map<Seq<u8>, Id>, names: Seq<Seq<u8>>) -> Seq<Id> {
    names.map_values(|n: Seq<u8>| name2id[n])
}

/// Why the vertex `name` with the parents `parents` cannot join
/// `group`, if it cannot.
pub open spec fn add_error(c: ChangelogView, name: Seq<u8>,
    parents: Seq<Seq<u8>>, group: Group) -> Option<
    UpdateError,
> {
    if c.name2id.dom().contains(name) {
        Some(UpdateError::AlreadyAssigned)
    } else if exists|i: int| 0 <= i < parents.len()
        && !c.name2id.dom().contains(#[trigger] parents[i]) {
        Some(UpdateError::ParentNotFound)
    } else if group == Group::Master && exists|i: int|
        0 <= i < parents.len() && c.name2id[#[trigger] parents[i]].spec_group() != Some(
            Group::Master,
        ) {
        Some(UpdateError::GroupViolation)
    } else if next_free(c.dag, group) > group.spec_max() {
        Some(UpdateError::GroupFull)
    } else if c.generation == u64::MAX {
        Some(UpdateError::VersionExhausted)
    } else {
        None
    }
}

/// The changelog after the vertex `name` with the parents `parents`
/// joined `group`: the vertex has the id that was free next in the
/// group, and the graph holds it with the ids of its parents.
pub open spec fn with_added(c: ChangelogView, name: Seq<u8>,
    parents: Seq<Seq<u8>>, group: Group) -> ChangelogView {
    let id = Id(next_free(c.dag, group) as u64);
    ChangelogView {
        dag: with_vertex(c.dag, id, ids_of(c.name2id, parents)),
        id2name: c.id2name.insert(id, name),
        name2id: c.name2id.insert(name, id),
        map_id: c.map_id,
        epoch: c.epoch,
        generation: (c.generation + 1) as u64,
    }
}

/// What a batch of vertexes, each with its parents, leaves of a
/// changelog when they join the master group in their order: the
/// changelog after it, the number of vertexes that joined, and the
/// place and the reason of the first vertex that could not, where there
/// is one. Vertexes that have an id already are passed over; after a
/// vertex that cannot join, nothing is added.
pub open spec fn after_batch(c: ChangelogView, batch: Seq<(Seq<u8>, Seq<Seq<u8>>)>) -> (
    ChangelogView,
    nat,
    Option<(nat, UpdateError)>,
)
    decreases batch.len(),
{
    if batch.len() == 0 {
        (c, 0nat, None)
    } else {
        let before = after_batch(c, batch.drop_last());
        if before.2.is_some() {
            before
        } else {
            match add_error(before.0, batch.last().0, batch.last().1, Group::Master) {
                None => (
                    with_added(before.0, batch.last().0, batch.last().1, Group::Master),
                    before.1 + 1,
                    None,
                ),
                Some(UpdateError::AlreadyAssigned) => before,
                Some(e) => (before.0, before.1, Some(((batch.len() - 1) as nat, e))),
            }
        }
    }
}

/// A vertex with its parents, as a graph is told of it.
#[derive(Debug, PartialEq, Eq)]
pub struct GraphNode {
    pub vertex: VertexName,
    pub parents: Vec<VertexName>,
}

/// A batch of vertexes as a mathematical value.
pub open spec fn batch_view(batch: Seq<GraphNode>) -> Seq<(Seq<u8>, Seq<Seq<u8>>)> {
    batch.map_values(|e: GraphNode| (e.vertex@, names_view(e.parents@)))
}

/// Where a graph has gained the one id that was free next in its
/// group, the id after it is free next in that group, and the id that
/// is free next in the other group is as it was.
pub proof fn lemma_next_free_after(s: crate::iddag::Flat, t: crate::iddag::Flat, id: Id, g: Group)
    requires
        dag_wf(s),
        dag_wf(t),
        id.wf(),
        id.0 == next_free(s, id.spec_group().unwrap()),
        forall|x: Id| #[trigger] covered(t, x) <==> covered(s, x) || x == id,
    ensures
        next_free(t, g) == (if Some(g) == id.spec_group() {
            next_free(s, g) + 1
        } else {
            next_free(s, g)
        }),
{
    let a = next_free(s, g);
    let b = next_free(t, g);
    let min = Id(g.spec_min() as u64);
    lemma_next_free(s, g, min);
    lemma_next_free(t, g, min);
    if Some(g) == id.spec_group() {
        lemma_next_free(s, g, id);
        lemma_next_free(t, g, id);
        if b > a + 1 {
            let x = Id((a + 1) as u64);
            lemma_next_free(s, g, x);
            lemma_next_free(t, g, x);
        }
    } else {
        if b > a {
            let x = Id(a as u64);
            lemma_next_free(s, g, x);
            lemma_next_free(t, g, x);
        }
        if b < a {
            let x = Id(b as u64);
            lemma_next_free(s, g, x);
            lemma_next_free(t, g, x);
        }
    }
}

impl View for OwnedSegmentedChangelog {
    type V = ChangelogView;

    open spec fn view(&self) -> ChangelogView {
        ChangelogView {
            dag: self.dag()@,
            id2name: self.map().id2name(),
            name2id: self.map().name2id(),
            map_id: self.map().spec_map_id(),
            epoch: self.map().spec_version().epoch,
            generation: self.map().spec_version().generation,
        }
    }
}

impl OwnedSegmentedChangelog {
    /// The graph.
    pub closed spec fn dag(&self) -> IdDag {
        self.iddag
    }

    /// The map between ids and names.
    pub closed spec fn map(&self) -> MemIdMap {
        self.idmap
    }

    /// What every changelog satisfies: its graph and its map are
    /// well-formed, and the ids of the graph are the ids that have a
    /// name: every id that has a name lies in one flat segment, and
    /// every id of a flat segment has a name. The id that is free next
    /// in a group is the same in the map and in the graph.
    pub open spec fn wf(&self) -> bool {
        &&& self.dag().wf()
        &&& self.map().wf()
        &&& forall|id: Id|
            #[trigger] covered(self.dag()@, id) <==> self.map().id2name().dom().contains(id)
        &&& self.map().spec_next_free_id(Group::Master).0 == next_free(self.dag()@, Group::Master)
        &&& self.map().spec_next_free_id(Group::NonMaster).0 == next_free(
            self.dag()@,
            Group::NonMaster,
        )
    }

    /// In a well-formed changelog, an id has a name exactly where a flat
    /// segment holds it, and no id lies in two flat segments.
    pub proof fn lemma_ids_have_segments(&self, id: Id)
        requires
            self.wf(),
        ensures
            self.map().id2name().dom().contains(id) <==> exists|i: int|
                0 <= i < self.dag()@.len() && (#[trigger] self.dag()@[i]).contains(id),
            forall|i: int, j: int|
                0 <= i < self.dag()@.len() && 0 <= j < self.dag()@.len() && (
                #[trigger] self.dag()@[i]).contains(id) && (#[trigger] self.dag()@[j]).contains(id)
                    ==> i == j,
    {
        let s = self.dag()@;
        if covered(s, id) {
            let i = choose|i: int| 0 <= i < s.len() && i < s.len() && (#[trigger] s[i]).contains(id);
            assert(0 <= i < s.len() && s[i].contains(id));
        }
        if exists|i: int| 0 <= i < s.len() && (#[trigger] s[i]).contains(id) {
            let i = choose|i: int| 0 <= i < s.len() && (#[trigger] s[i]).contains(id);
            assert(0 <= i < s.len() && i < s.len() && s[i].contains(id));
            assert(covered(s, id));
        }
        assert forall|i: int, j: int|
            0 <= i < s.len() && 0 <= j < s.len() && (#[trigger] s[i]).contains(id) && (
            #[trigger] s[j]).contains(id) implies i == j by {
            lemma_one_segment(s, i, j, id);
        }
    }

    /// A changelog without vertexes, whose map has the number `number`
    /// in its identifier. The version of the map starts at 0.
    pub fn new(number: u64) -> (r: OwnedSegmentedChangelog)
        ensures
            r.wf(),
            r@ == empty_changelog(number),
    {
        let r = OwnedSegmentedChangelog { iddag: IdDag::new(), idmap: MemIdMap::new(number) };
        proof {
            assert(r.dag()@ =~= Seq::<crate::iddag::FlatView>::empty());
            assert(next_free(r.dag()@, Group::Master) == Group::Master.spec_min());
            assert(next_free(r.dag()@, Group::NonMaster) == Group::NonMaster.spec_min());
        }
        r
    }

    /// The changelog as the questions of clients see it.
    pub fn read_only(&self) -> (r: ReadOnlySegmentedChangelog<'_>)
        requires
            self.wf(),
        ensures
            r.wf(),
            *r.iddag == self.dag(),
            *r.idmap == self.map(),
    {
        ReadOnlySegmentedChangelog::new(&self.iddag, &self.idmap)
    }

    /// The ids of `parents`; the number of the first of them that has
    /// no id, or is of the wrong group, where there is one.
    fn parent_ids(&self, parents: &[VertexName], group: Group) -> (r: Result<Vec<Id>, UpdateError>)
        requires
            self.wf(),
        ensures
            match r {
                Ok(ids) => ids@ == ids_of(self.map().name2id(), names_view(parents@)) && (forall|
                    i: int,
                |
                    0 <= i < parents@.len() ==> self.map().name2id().dom().contains(
                        (#[trigger] parents@[i])@,
                    )) && (group == Group::Master ==> forall|i: int|
                    0 <= i < ids@.len() ==> (#[trigger] ids@[i]).spec_group() == Some(
                        Group::Master,
                    )),
                Err(e) => if exists|i: int|
                    0 <= i < parents@.len() && !self.map().name2id().dom().contains(
                        (#[trigger] parents@[i])@,
                    ) {
                    e == UpdateError::ParentNotFound
                } else {
                    e == UpdateError::GroupViolation && group == Group::Master && exists|i: int|
                        0 <= i < parents@.len() && self.map().name2id()[(
                        #[trigger] parents@[i])@].spec_group() != Some(Group::Master)
                },
            },
    {
        let ghost name2id = self.map().name2id();
        let ghost names = names_view(parents@);
        let mut ids: Vec<Id> = Vec::new();
        let mut i: usize = 0;
        while i < parents.len()
            invariant
                self.wf(),
                name2id == self.map().name2id(),
                names == names_view(parents@),
                i <= parents@.len(),
                ids@ == ids_of(name2id, names.take(i as int)),
                forall|j: int| 0 <= j < i ==> name2id.dom().contains((#[trigger] parents@[j])@),
            decreases parents@.len() - i,
        {
            match self.idmap.vertex_id(&parents[i]) {
                Ok(id) => {
                    ids.push(id);
                    proof {
                        assert(names.take(i + 1) =~= names.take(i as int).push(parents@[i as int]@));
                        assert(ids@ =~= ids_of(name2id, names.take(i + 1)));
                    }
                },
                Err(_) => {
                    return Err(UpdateError::ParentNotFound);
                },
            }
            i = i + 1;
        }
        proof {
            assert(names.take(i as int) =~= names);
        }
        match group {
            Group::NonMaster => {},
            Group::Master => {
                let mut k: usize = 0;
                while k < ids.len()
                    invariant
                        self.wf(),
                        name2id == self.map().name2id(),
                        names == names_view(parents@),
                        group == Group::Master,
                        ids@ == ids_of(name2id, names),
                        forall|j: int|
                            0 <= j < parents@.len() ==> name2id.dom().contains(
                                (#[trigger] parents@[j])@,
                            ),
                        k <= ids@.len(),
                        forall|j: int|
                            0 <= j < k ==> (#[trigger] ids@[j]).spec_group() == Some(Group::Master),
                    decreases ids@.len() - k,
                {
                    if !Group::Master.contains(ids[k]) {
                        proof {
                            assert(names[k as int] == parents@[k as int]@);
                            assert(ids@[k as int] == name2id[parents@[k as int]@]);
                        }
                        return Err(UpdateError::GroupViolation);
                    }
                    k = k + 1;
                }
            },
        }
        Ok(ids)
    }

    /// Gives the vertex `name` with the parents `parents` the id that
    /// is free next in `group`, and adds it to the graph, unless
    /// `add_error` says why not.
    pub fn add_vertex(&mut self, name: &VertexName, parents: &[VertexName], group: Group) -> (r:
        Result<Id, UpdateError>)
        requires
            old(self).wf(),
        ensures
            final(self).wf(),
            match r {
                Ok(id) => add_error(old(self)@, name@, names_view(parents@), group).is_none()
                    && id.0
                    == next_free(old(self)@.dag, group) && final(self)@ == with_added(
                    old(self)@,
                    name@,
                    names_view(parents@),
                    group,
                ) && old(self).map().spec_version().older_than(final(self).map().spec_version())
                    && final(self).map().spec_next_free_id(group).0 == id.0 + 1,
                Err(e) => add_error(old(self)@, name@, names_view(parents@), group) == Some(e)
                    && final(self)@ == old(self)@,
            },
    {
        let ghost s = self.iddag@;
        let ghost name2id = self.idmap.name2id();
        let ghost id2name = self.idmap.id2name();
        if self.idmap.contains_vertex_name(name) {
            return Err(UpdateError::AlreadyAssigned);
        }
        let parent_ids = match self.parent_ids(parents, group) {
            Ok(ids) => ids,
            Err(e) => {
                proof {
                    let names = names_view(parents@);
                    assert forall|i: int| 0 <= i < parents@.len() implies names[i]
                        == (#[trigger] parents@[i])@ by {}
                    if exists|i: int|
                        0 <= i < parents@.len()
                            && !name2id.dom().contains((#[trigger] parents@[i])@) {
                        let i = choose|i: int|
                            0 <= i < parents@.len() && !name2id.dom().contains(
                                (#[trigger] parents@[i])@,
                            );
                        assert(!name2id.dom().contains(names[i]));
                    } else {
                        let i = choose|i: int|
                            0 <= i < parents@.len() && name2id[(
                            #[trigger] parents@[i])@].spec_group() != Some(Group::Master);
                        assert(name2id[names[i]].spec_group() != Some(Group::Master));
                        assert forall|j: int| 0 <= j < names.len() implies name2id.dom().contains(
                            #[trigger] names[j],
                        ) by {
                            assert(name2id.dom().contains(parents@[j]@));
                        }
                    }
                }
                return Err(e);
            },
        };
        proof {
            let names = names_view(parents@);
            assert forall|i: int| 0 <= i < names.len() implies name2id.dom().contains(
                #[trigger] names[i],
            ) by {
                assert(name2id.dom().contains(parents@[i]@));
            }
            if group == Group::Master {
                assert forall|i: int| 0 <= i < names.len() implies name2id[#[trigger] names[i]].spec_group()
                    == Some(Group::Master) by {
                    assert(parent_ids@[i] == name2id[names[i]]);
                }
            }
        }
        let id = self.iddag.next_free_id(0, group);
        let min = group.min_id();
        proof {
            lemma_next_free(s, group, min);
        }
        if id.0 > group.max_id().0 {
            return Err(UpdateError::GroupFull);
        }
        if self.idmap.map_version().generation == u64::MAX {
            return Err(UpdateError::VersionExhausted);
        }
        proof {
            self.idmap.lemma_wf();
            lemma_next_free(s, group, id);
            assert(!covered(s, id));
            assert(self.idmap.insert_error(id, name@).is_none());
            assert forall|k: int| 0 <= k < parent_ids@.len() implies covered(
                s,
                #[trigger] parent_ids@[k],
            ) && parent_ids@[k].0 < id.0 by {
                let p = parent_ids@[k];
                let n = names_view(parents@)[k];
                assert(p == name2id[n]);
                assert(name2id.dom().contains(n));
                assert(id2name.dom().contains(p));
                assert(covered(s, p));
                if p.spec_group() == Some(group) {
                    lemma_next_free(s, group, p);
                }
            }
            assert(vertex_error(s, id, parent_ids@).is_none());
        }
        match self.idmap.insert(id, name.0.as_slice()) {
            Ok(()) => {},
            Err(_) => { return Err(UpdateError::VersionExhausted); },
        }
        match self.iddag.add_vertex(id, &parent_ids) {
            Ok(()) => {},
            Err(_) => { return Err(UpdateError::GroupFull); },
        }
        proof {
            lemma_next_free_after(s, self.iddag@, id, Group::Master);
            lemma_next_free_after(s, self.iddag@, id, Group::NonMaster);
        }
        Ok(id)
    }

    /// Adds the vertexes of `batch` to the master group in their order,
    /// each with its parents. Vertexes that have an id already are
    /// passed over. Tells how many vertexes were added.
    ///
    /// Stops at the first vertex that cannot be added, and tells its
    /// place in the batch and why; the vertexes before it stay. See
    /// `after_batch`.
    pub fn add_batch(&mut self, batch: &Vec<GraphNode>) -> (r: Result<
        usize,
        (usize, UpdateError),
    >)
        requires
            old(self).wf(),
        ensures
            final(self).wf(),
            final(self)@ == after_batch(old(self)@, batch_view(batch@)).0,
            match r {
                Ok(added) => after_batch(old(self)@, batch_view(batch@)).2.is_none() && added
                    == after_batch(old(self)@, batch_view(batch@)).1,
                Err((at, e)) => after_batch(old(self)@, batch_view(batch@)).2 == Some(
                    (at as nat, e),
                ),
            },
    {
        let ghost start = self@;
        let ghost all = batch_view(batch@);
        let mut added: usize = 0;
        let mut i: usize = 0;
        let mut failure: Option<(usize, UpdateError)> = None;
        proof {
            assert(all.take(0) =~= Seq::empty());
        }
        while i < batch.len() && failure.is_none()
            invariant
                self.wf(),
                all == batch_view(batch@),
                i <= batch@.len(),
                added <= i,
                match failure {
                    Some((at, e)) => after_batch(start, all.take(i + 1)) == (
                        self@,
                        added as nat,
                        Some((at as nat, e)),
                    ) && i < batch@.len(),
                    None => after_batch(start, all.take(i as int)) == (
                        self@,
                        added as nat,
                        None::<(nat, UpdateError)>,
                    ),
                },
            decreases batch@.len() - i + (if failure.is_none() {
                1int
            } else {
                0int
            }),
        {
            proof {
                assert(all.take(i + 1).drop_last() =~= all.take(i as int));
                assert(all.take(i + 1).last() == (
                    batch@[i as int].vertex@,
                    names_view(batch@[i as int].parents@),
                ));
            }
            match self.add_vertex(&batch[i].vertex, batch[i].parents.as_slice(), Group::Master) {
                Ok(_) => {
                    added = added + 1;
                    i = i + 1;
                },
                Err(UpdateError::AlreadyAssigned) => {
                    i = i + 1;
                },
                Err(e) => {
                    failure = Some((i, e));
                },
            }
        }
        match failure {
            Some((at, e)) => {
                proof {
                    crate::on_demand::lemma_after_failure(start, all, i + 1);
                }
                Err((at, e))
            },
            None => {
                proof {
                    assert(all.take(i as int) =~= all);
                }
                Ok(added)
            },
        }
    }

    /// Removes the non-master group from the graph and from the map.
    /// Fails, and changes nothing, where the epochs of the versions of
    /// the map are used up.
    pub fn remove_non_master(&mut self) -> (r: Result<(), UpdateError>)
        requires
            old(self).wf(),
        ensures
            final(self).wf(),
            match r {
                Ok(()) => final(self).dag()@ == of_group(old(self).dag()@, Group::Master)
                    && (forall|
                    id: Id,
                | #[trigger]
                    final(self).map().id2name().dom().contains(id) ==> id.spec_group() == Some(
                        Group::Master,
                    )) && (forall|n: Seq<u8>| #[trigger]
                    final(self).map().name2id().dom().contains(n)
                        ==> final(self).map().name2id()[n].spec_group() == Some(Group::Master))
                        && (forall|id: Id|
                    id.spec_group() == Some(Group::Master)
                        ==> (#[trigger] final(self).map().id2name().dom().contains(id))
                            == old(self).map().id2name().dom().contains(
                        id,
                    )) && next_free(final(self).dag()@, Group::NonMaster)
                    == Group::NonMaster.spec_min() && final(self).map().spec_next_free_id(
                    Group::NonMaster,
                ).0 == Group::NonMaster.spec_min() && old(self)@.epoch < u64::MAX && final(self)@
                    == without_non_master(old(self)@) && old(self).map().spec_version().older_than(
                    final(self).map().spec_version(),
                ),
                Err(e) => e == UpdateError::VersionExhausted && old(self)@.epoch == u64::MAX
                    && final(self)@ == old(self)@,
            },
    {
        proof {
            self.idmap.lemma_wf();
        }
        match self.idmap.remove_non_master() {
            Ok(()) => {},
            Err(_) => { return Err(UpdateError::VersionExhausted); },
        }
        self.iddag.remove_non_master();
        proof {
            self.idmap.lemma_wf();
        }
        Ok(())
    }
}

} // verus!
