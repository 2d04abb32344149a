//! The questions that clients ask of a segmented changelog, answered
//! from a graph of ids and a map between names and ids that are not
//! changed while they are answered.

use crate::id::Group;
use crate::id::Id;
use crate::iddag::covered;
use crate::iddag::is_anchor;
use crate::iddag::is_gain;
use crate::iddag::lemma_anchor_covered;
use crate::iddag::lemma_gain_anchor_covered;
use crate::iddag::lemma_master_part;
use crate::iddag::lemma_next_free;
use crate::iddag::lemma_prefix_parents;
use crate::iddag::lemma_master_count_bounds;
use crate::iddag::master_count;
use crate::iddag::lemma_nth_le;
use crate::iddag::lemma_parents_of;
use crate::iddag::reached;
use crate::place::place_of;
use crate::iddag::next_free;
use crate::iddag::nth_first_ancestor;
use crate::iddag::of_group;
use crate::iddag::parents_head_and_roots;
use crate::iddag::parents_of;
use crate::iddag::reaches;
use crate::iddag::ascending;
use crate::iddag::Flat;
use crate::iddag::FlatSegment;
use crate::iddag::IdDag;
use crate::iddag::Location;
use crate::idmap::mem_idmap::names_view;
use crate::idmap::mem_idmap::MemIdMap;
use crate::idmap::mem_idmap::VertexName;
use vstd::prelude::*;

verus! {

/// How many ids with their names go into one chunk of the whole map.
pub const IDMAP_CHUNK_SIZE: usize = 1000;

/// Why a question cannot be answered.
#[derive(Clone, Copy, Debug, PartialEq, Eq, Structural)]
pub enum ChangelogError {
    /// A name that the question gives has no id.
    VertexNotFound,
    /// The steps to the first parent that a location asks for end
    /// before they are all taken.
    NoSuchAncestor,
    /// After the start of a location, a vertex has no parent or more
    /// than one: the vertexes asked for are not a line.
    Ambiguous,
    /// None of the heads that the question gives has an id.
    NoHeads,
    /// A vertex is not of the master group.
    NotInMaster,
    /// The old master is no ancestor of the new one.
    NotAncestor,
    /// The vertex is neither a head nor an ancestor of a head.
    Unreachable,
    /// An id of the graph has no name.
    MissingName,
}

/// What a client needs in order to hold a part of the graph: flat
/// segments, and the names of their parents, heads and roots.
pub struct CloneData {
    pub flat_segments: Vec<FlatSegment>,
    pub idmap: Vec<(Id, VertexName)>,
}

/// The flat segments of the master group, and the names of all of
/// its ids in chunks.
pub struct StreamCloneData {
    pub flat_segments: Vec<FlatSegment>,
    pub idmap_chunks: Vec<Vec<(Id, VertexName)>>,
}

/// A graph of ids with the map between its ids and their names.
pub struct ReadOnlySegmentedChangelog<'a> {
    pub iddag: &'a IdDag,
    pub idmap: &'a MemIdMap,
}

/// The `count` ids from `start` on, each the only parent of the one
/// before it; `None` where one of them but the last has no parent or
/// several, or `start` is no id of the graph.
pub open spec fn line_from(s: Flat, start: Id, count: nat) -> Option<Seq<Id>>
    decreases count,
{
    if count == 0 {
        Some(Seq::empty())
    } else if !covered(s, start) {
        None
    } else if count == 1 {
        Some(seq![start])
    } else if parents_of(s, start).len() != 1 {
        None
    } else {
        match line_from(s, parents_of(s, start)[0], (count - 1) as nat) {
            Some(rest) => Some(seq![start] + rest),
            None => None,
        }
    }
}

/// The ids that a location and a count ask for: none for a count of 0,
/// else the line of `count` ids that starts `distance` steps, each to
/// the first parent, from `descendant`.
pub open spec fn ids_at(s: Flat, descendant: Id, distance: nat, count: nat) -> Result<
    Seq<Id>,
    ChangelogError,
> {
    if count == 0 {
        Ok(Seq::empty())
    } else {
        match nth_first_ancestor(s, descendant, distance) {
            None => Err(ChangelogError::NoSuchAncestor),
            Some(origin) => match line_from(s, origin, count) {
                Some(ids) => Ok(ids),
                None => Err(ChangelogError::Ambiguous),
            },
        }
    }
}

/// The names of `ids`.
pub open spec fn names_of(id2name: Map<Id, Seq<u8>>, ids: Seq<Id>) -> Seq<Seq<u8>> {
    ids.map_values(|id: Id| id2name[id])
}

/// Ids with their names as mathematical values.
pub open spec fn pairs_view(pairs: Seq<(Id, VertexName)>) -> Seq<(Id, Seq<u8>)> {
    pairs.map_values(|p: (Id, VertexName)| (p.0, p.1@))
}

/// `ids` with their names.
pub open spec fn pairs_of(id2name: Map<Id, Seq<u8>>, ids: Seq<Id>) -> Seq<(Id, Seq<u8>)> {
    ids.map_values(|id: Id| (id, id2name[id]))
}

/// The ids of those of `names` that have one, in the order of `names`.
pub open spec fn resolved(name2id: Map<Seq<u8>, Id>, names: Seq<Seq<u8>>) -> Seq<Id>
    decreases names.len(),
{
    if names.len() == 0 {
        Seq::empty()
    } else if name2id.dom().contains(names.last()) {
        resolved(name2id, names.drop_last()).push(name2id[names.last()])
    } else {
        resolved(name2id, names.drop_last())
    }
}

/// The place of `id` relative to `heads`, with the head or the anchor
/// by its name: see `place_of`. `Unreachable` where `id` is no ancestor
/// of a head.
pub open spec fn located(s: Flat, id2name: Map<Id, Seq<u8>>, heads: Seq<Id>, id: Id) -> Result<
    (Seq<u8>, nat),
    ChangelogError,
> {
    match place_of(s, heads, id) {
        Some((head, n)) => if id2name.dom().contains(head) {
            Ok((id2name[head], n))
        } else {
            Err(ChangelogError::MissingName)
        },
        None => Err(ChangelogError::Unreachable),
    }
}

/// What is answered for one vertex: its name, and its place or why it
/// has none.
pub type Located = (Seq<u8>, Result<(Seq<u8>, nat), ChangelogError>);

/// For each of the vertexes `cs` that has an id, in the order of `cs`,
/// its place relative to `heads`.
pub open spec fn locations(
    s: Flat,
    id2name: Map<Id, Seq<u8>>,
    name2id: Map<Seq<u8>, Id>,
    heads: Seq<Id>,
    cs: Seq<Seq<u8>>,
) -> Seq<Located>
    decreases cs.len(),
{
    if cs.len() == 0 {
        Seq::empty()
    } else if name2id.dom().contains(cs.last()) {
        locations(s, id2name, name2id, heads, cs.drop_last()).push(
            (cs.last(), located(s, id2name, heads, name2id[cs.last()])),
        )
    } else {
        locations(s, id2name, name2id, heads, cs.drop_last())
    }
}

/// What is answered for one vertex, as a mathematical value.
pub open spec fn located_view(
    e: (VertexName, Result<Location<VertexName>, ChangelogError>),
) -> Located {
    (
        e.0@,
        match e.1 {
            Ok(l) => Ok((l.descendant@, l.distance as nat)),
            Err(err) => Err(err),
        },
    )
}

/// What is answered for several vertexes, as a mathematical value.
pub open spec fn located_all_view(
    all: Seq<(VertexName, Result<Location<VertexName>, ChangelogError>)>,
) -> Seq<Located> {
    all.map_values(|e: (VertexName, Result<Location<VertexName>, ChangelogError>)| located_view(e))
}

/// Whether `pairs` are the parents, the heads and the roots of `segs`,
/// in ascending order and each once, with their names.
pub open spec fn is_anchor_map(
    id2name: Map<Id, Seq<u8>>,
    segs: Flat,
    pairs: Seq<(Id, Seq<u8>)>,
) -> bool {
    &&& forall|i: int, j: int|
        0 <= i < j < pairs.len() ==> (#[trigger] pairs[i]).0.0 < (#[trigger] pairs[j]).0.0
    &&& forall|i: int|
        0 <= i < pairs.len() ==> is_anchor(segs, segs.len() as int, (#[trigger] pairs[i]).0)
            && id2name.dom().contains(pairs[i].0) && pairs[i].1 == id2name[pairs[i].0]
    &&& forall|x: Id|
        is_anchor(segs, segs.len() as int, x) ==> exists|i: int|
            0 <= i < pairs.len() && (#[trigger] pairs[i]).0 == x
}

/// The `n` ids from the number `first` on.
pub open spec fn ids_from(first: u64, n: nat) -> Seq<Id> {
    Seq::new(n, |i: int| Id((first + i) as u64))
}

/// How many ids the chunk numbered `c` holds of `total` ids in all.
pub open spec fn chunk_len(c: int, total: nat) -> nat {
    if (c + 1) * IDMAP_CHUNK_SIZE <= total {
        IDMAP_CHUNK_SIZE as nat
    } else if c * IDMAP_CHUNK_SIZE <= total {
        (total - c * IDMAP_CHUNK_SIZE) as nat
    } else {
        0
    }
}

/// How many chunks hold the first `n` ids.
pub open spec fn chunks_up_to(n: nat) -> nat {
    (n + IDMAP_CHUNK_SIZE - 1) as nat / IDMAP_CHUNK_SIZE as nat
}

/// Whether `chunks` hold the first `total` ids of the master group with
/// their names, in the order of the ids, each chunk but the last being
/// full and none being empty.
pub open spec fn is_chunked(
    id2name: Map<Id, Seq<u8>>,
    total: nat,
    chunks: Seq<Vec<(Id, VertexName)>>,
) -> bool {
    &&& chunks.len() == chunks_up_to(total)
    &&& forall|c: int|
        0 <= c < chunks.len() ==> pairs_view((#[trigger] chunks[c])@) == pairs_of(
            id2name,
            ids_from((c * IDMAP_CHUNK_SIZE) as u64, chunk_len(c, total)),
        )
}

/// Why the step of the master from `old` to `new` cannot be handed
/// out of the graph `dag` with the names `name2id`, if it cannot: one of
/// the two has no id or is not of the master group, or `old` is no
/// ancestor of `new`.
pub open spec fn pull_error_of(
    dag: crate::iddag::Flat,
    name2id: Map<Seq<u8>, Id>,
    old: Seq<u8>,
    new: Seq<u8>,
) -> Option<ChangelogError> {
    if !name2id.dom().contains(old) || !name2id.dom().contains(new) {
        Some(ChangelogError::VertexNotFound)
    } else if name2id[old].spec_group() != Some(Group::Master) || name2id[new].spec_group()
        != Some(Group::Master) {
        Some(ChangelogError::NotInMaster)
    } else if !reaches(dag, name2id[old], name2id[new]) {
        Some(ChangelogError::NotAncestor)
    } else {
        None
    }
}

impl<'a> ReadOnlySegmentedChangelog<'a> {
    /// What every changelog satisfies: its graph and its map are
    /// well-formed, and the ids of the graph are the ids that have a name.
    pub open spec fn wf(&self) -> bool {
        &&& self.iddag.wf()
        &&& self.idmap.wf()
        &&& forall|id: Id|
            #[trigger] covered(self.iddag@, id) <==> self.idmap.id2name().dom().contains(id)
    }

    pub fn new(iddag: &'a IdDag, idmap: &'a MemIdMap) -> (r: ReadOnlySegmentedChangelog<'a>)
        ensures
            r.iddag == iddag,
            r.idmap == idmap,
    {
        ReadOnlySegmentedChangelog { iddag, idmap }
    }

    /// The names of `ids`; `MissingName` where one of them has none.
    pub fn names(&self, ids: &Vec<Id>) -> (r: Result<Vec<VertexName>, ChangelogError>)
        requires
            self.idmap.wf(),
        ensures
            match r {
                Ok(names) => names_view(names@) == names_of(self.idmap.id2name(), ids@) && forall|
                    i: int,
                |
                    0 <= i < ids@.len() ==> self.idmap.id2name().dom().contains(#[trigger] ids@[i]),
                Err(e) => e == ChangelogError::MissingName && exists|i: int|
                    0 <= i < ids@.len() && !self.idmap.id2name().dom().contains(#[trigger] ids@[i]),
            },
    {
        let mut names: Vec<VertexName> = Vec::new();
        let mut i: usize = 0;
        while i < ids.len()
            invariant
                self.idmap.wf(),
                i <= ids@.len(),
                names_view(names@) == names_of(self.idmap.id2name(), ids@.take(i as int)),
                forall|j: int|
                    0 <= j < i ==> self.idmap.id2name().dom().contains(#[trigger] ids@[j]),
            decreases ids@.len() - i,
        {
            match self.idmap.vertex_name(ids[i]) {
                Ok(name) => {
                    let ghost before = names@;
                    names.push(name);
                    proof {
                        assert(names_view(names@) =~= names_view(before).push(name@));
                        assert(names_of(self.idmap.id2name(), ids@.take(i + 1)) =~= names_of(
                            self.idmap.id2name(),
                            ids@.take(i as int),
                        ).push(self.idmap.id2name()[ids@[i as int]]));
                    }
                },
                Err(_) => {
                    return Err(ChangelogError::MissingName);
                },
            }
            i = i + 1;
        }
        proof {
            assert(ids@.take(i as int) =~= ids@);
        }
        Ok(names)
    }

    /// `ids` with their names; `MissingName` where one of them has none.
    pub fn pairs(&self, ids: &Vec<Id>) -> (r: Result<Vec<(Id, VertexName)>, ChangelogError>)
        requires
            self.idmap.wf(),
        ensures
            match r {
                Ok(pairs) => pairs_view(pairs@) == pairs_of(self.idmap.id2name(), ids@) && forall|
                    i: int,
                |
                    0 <= i < ids@.len() ==> self.idmap.id2name().dom().contains(#[trigger] ids@[i]),
                Err(e) => e == ChangelogError::MissingName && exists|i: int|
                    0 <= i < ids@.len() && !self.idmap.id2name().dom().contains(#[trigger] ids@[i]),
            },
    {
        let mut pairs: Vec<(Id, VertexName)> = Vec::new();
        let mut i: usize = 0;
        while i < ids.len()
            invariant
                self.idmap.wf(),
                i <= ids@.len(),
                pairs_view(pairs@) == pairs_of(self.idmap.id2name(), ids@.take(i as int)),
                forall|j: int|
                    0 <= j < i ==> self.idmap.id2name().dom().contains(#[trigger] ids@[j]),
            decreases ids@.len() - i,
        {
            match self.idmap.vertex_name(ids[i]) {
                Ok(name) => {
                    let ghost before = pairs@;
                    pairs.push((ids[i], name));
                    proof {
                        assert(pairs_view(pairs@) =~= pairs_view(before).push((ids@[i as int],
                            name@)));
                        assert(pairs_of(self.idmap.id2name(), ids@.take(i + 1)) =~= pairs_of(
                            self.idmap.id2name(),
                            ids@.take(i as int),
                        ).push((ids@[i as int], self.idmap.id2name()[ids@[i as int]])));
                    }
                },
                Err(_) => {
                    return Err(ChangelogError::MissingName);
                },
            }
            i = i + 1;
        }
        proof {
            assert(ids@.take(i as int) =~= ids@);
        }
        Ok(pairs)
    }

    /// The ids that `location` and `count` ask for: see `ids_at`.
    pub fn known_location_to_many_ids(&self, location: &Location<Id>, count: u64) -> (r: Result<
        Vec<Id>,
        ChangelogError,
    >)
        requires
            self.iddag.wf(),
        ensures
            match r {
                Ok(ids) => ids_at(
                    self.iddag@,
                    location.descendant,
                    location.distance as nat,
                    count as nat,
                ) == Ok::<Seq<Id>, ChangelogError>(ids@) && forall|i: int|
                    0 <= i < ids@.len() ==> covered(self.iddag@, #[trigger] ids@[i]),
                Err(e) => ids_at(
                    self.iddag@,
                    location.descendant,
                    location.distance as nat,
                    count as nat,
                ) == Err::<Seq<Id>, ChangelogError>(e),
            },
    {
        let ghost s = self.iddag@;
        let mut ids: Vec<Id> = Vec::new();
        if count == 0 {
            return Ok(ids);
        }
        let origin = match self.iddag.first_ancestor_nth(location.descendant, location.distance) {
            Some(id) => id,
            None => { return Err(ChangelogError::NoSuchAncestor); },
        };
        proof {
            lemma_nth_le(s, location.descendant, location.distance as nat);
        }
        let mut cur = origin;
        let mut left = count;
        let ghost whole = line_from(s, origin, count as nat);
        proof {
            assert(Seq::<Id>::empty() + line_from(s, cur, left as nat).unwrap() =~= line_from(
                s,
                cur,
                left as nat,
            ).unwrap());
        }
        loop
            invariant_except_break
                s == self.iddag@,
                self.iddag.wf(),
                1 <= left <= count,
                covered(s, cur),
                whole == line_from(s, origin, count as nat),
                ids_at(s, location.descendant, location.distance as nat, count as nat) == (
                match whole {
                    Some(all) => Ok::<Seq<Id>, ChangelogError>(all),
                    None => Err::<Seq<Id>, ChangelogError>(ChangelogError::Ambiguous),
                }),
                forall|i: int| 0 <= i < ids@.len() ==> covered(s, #[trigger] ids@[i]),
                whole == match line_from(s, cur, left as nat) {
                    Some(rest) => Some(ids@ + rest),
                    None => None,
                },
            ensures
                whole == Some(ids@),
                ids_at(s, location.descendant, location.distance as nat, count as nat) == Ok::<
                    Seq<Id>,
                    ChangelogError,
                >(ids@),
                forall|i: int| 0 <= i < ids@.len() ==> covered(s, #[trigger] ids@[i]),
            decreases left,
        {
            let ghost before = ids@;
            if left == 1 {
                ids.push(cur);
                proof {
                    assert(line_from(s, cur, 1) == Some(seq![cur]));
                    assert(before + seq![cur] =~= ids@);
                }
                break ;
            }
            let parents = match self.iddag.parent_ids(cur) {
                Some(p) => p,
                None => { return Err(ChangelogError::Ambiguous); },
            };
            if parents.len() != 1 {
                proof {
                    assert(line_from(s, cur, left as nat).is_none());
                }
                return Err(ChangelogError::Ambiguous);
            }
            ids.push(cur);
            proof {
                lemma_parents_of(s, cur);
                let rest = line_from(s, parents@[0], (left - 1) as nat);
                assert(line_from(s, cur, left as nat) == match rest {
                    Some(r) => Some(seq![cur] + r),
                    None => None,
                });
                if rest.is_some() {
                    assert(before + (seq![cur] + rest.unwrap()) =~= ids@ + rest.unwrap());
                }
            }
            cur = parents[0];
            left = left - 1;
        }
        Ok(ids)
    }

    /// The names of the vertexes that `location` and `count` ask for.
    pub fn known_location_to_many_changeset_ids(
        &self,
        location: &Location<Id>,
        count: u64,
    ) -> (r: Result<Vec<VertexName>, ChangelogError>)
        requires
            self.wf(),
        ensures
            match r {
                Ok(names) => ids_at(
                    self.iddag@,
                    location.descendant,
                    location.distance as nat,
                    count as nat,
                ) matches Ok(ids) && names_view(names@) == names_of(self.idmap.id2name(), ids),
                Err(e) => ids_at(
                    self.iddag@,
                    location.descendant,
                    location.distance as nat,
                    count as nat,
                ) == Err::<Seq<Id>, ChangelogError>(e),
            },
    {
        let ids = match self.known_location_to_many_ids(location, count) {
            Ok(ids) => ids,
            Err(e) => { return Err(e); },
        };
        match self.names(&ids) {
            Ok(names) => Ok(names),
            Err(e) => {
                proof {
                    let i = choose|i: int|
                        0 <= i < ids@.len() && !self.idmap.id2name().dom().contains(
                            #[trigger] ids@[i],
                        );
                    assert(covered(self.iddag@, ids@[i]));
                }
                Err(e)
            },
        }
    }

    /// The names of the `count` vertexes of which the first lies
    /// `location.distance` steps, each to the first parent, from the
    /// vertex `location.descendant`, and each other is the only parent
    /// of the one before it. For a count of 0 there are none.
    pub fn location_to_many_changeset_ids(
        &self,
        location: &Location<VertexName>,
        count: u64,
    ) -> (r: Result<Vec<VertexName>, ChangelogError>)
        requires
            self.wf(),
        ensures
            match r {
                Ok(names) => self.idmap.name2id().dom().contains(location.descendant@) && (ids_at(
                    self.iddag@,
                    self.idmap.name2id()[location.descendant@],
                    location.distance as nat,
                    count as nat,
                ) matches Ok(ids) && names_view(names@) == names_of(self.idmap.id2name(), ids)),
                Err(e) => if self.idmap.name2id().dom().contains(location.descendant@) {
                    ids_at(
                        self.iddag@,
                        self.idmap.name2id()[location.descendant@],
                        location.distance as nat,
                        count as nat,
                    ) == Err::<Seq<Id>, ChangelogError>(e)
                } else {
                    e == ChangelogError::VertexNotFound
                },
            },
    {
        let id = match self.idmap.vertex_id(&location.descendant) {
            Ok(id) => id,
            Err(_) => { return Err(ChangelogError::VertexNotFound); },
        };
        let known = Location { descendant: id, distance: location.distance };
        self.known_location_to_many_changeset_ids(&known, count)
    }

    /// The ids of those of `names` that have one.
    pub fn resolve(&self, names: &[VertexName]) -> (ids: Vec<Id>)
        requires
            self.idmap.wf(),
        ensures
            ids@ == resolved(self.idmap.name2id(), names_view(names@)),
    {
        let ghost all = names_view(names@);
        let mut ids: Vec<Id> = Vec::new();
        let mut i: usize = 0;
        proof {
            assert(all.take(0) =~= Seq::<Seq<u8>>::empty());
        }
        while i < names.len()
            invariant
                self.idmap.wf(),
                all == names_view(names@),
                i <= names@.len(),
                ids@ == resolved(self.idmap.name2id(), all.take(i as int)),
            decreases names@.len() - i,
        {
            proof {
                assert(all.take(i + 1).drop_last() =~= all.take(i as int));
                assert(all.take(i + 1).last() == names@[i as int]@);
            }
            match self.idmap.vertex_id(&names[i]) {
                Ok(id) => {
                    ids.push(id);
                },
                Err(_) => {},
            }
            i = i + 1;
        }
        proof {
            assert(all.take(i as int) =~= all);
        }
        ids
    }

    /// For each of the vertexes `cs_ids` that has an id, its place
    /// relative to those of `master_heads` that have an id. That is the
    /// head from which the fewest steps, each to the first parent, lead
    /// to the vertex, with their number. For an ancestor of a head that
    /// no such steps lead to, it is the nearest parent, head or root of
    /// a flat segment at or after the vertex, with the steps from there.
    /// A vertex that is no ancestor of a head is `Unreachable`.
    ///
    /// Fails with `NoHeads` exactly where no head has an id.
    pub fn many_changeset_ids_to_locations(
        &self,
        master_heads: &[VertexName],
        cs_ids: &[VertexName],
    ) -> (r: Result<
        Vec<(VertexName, Result<Location<VertexName>, ChangelogError>)>,
        ChangelogError,
    >)
        requires
            self.wf(),
        ensures
            match r {
                Ok(found) => resolved(self.idmap.name2id(), names_view(master_heads@)).len() > 0
                    && located_all_view(found@) == locations(
                    self.iddag@,
                    self.idmap.id2name(),
                    self.idmap.name2id(),
                    resolved(self.idmap.name2id(), names_view(master_heads@)),
                    names_view(cs_ids@),
                ),
                Err(e) => e == ChangelogError::NoHeads && resolved(
                    self.idmap.name2id(),
                    names_view(master_heads@),
                ).len() == 0,
            },
    {
        let heads = self.resolve(master_heads);
        if heads.len() == 0 {
            return Err(ChangelogError::NoHeads);
        }
        let ghost s = self.iddag@;
        let ghost id2name = self.idmap.id2name();
        let ghost name2id = self.idmap.name2id();
        let ghost cs = names_view(cs_ids@);
        let mut found: Vec<(VertexName, Result<Location<VertexName>, ChangelogError>)> = Vec::new();
        let mut i: usize = 0;
        proof {
            assert(cs.take(0) =~= Seq::<Seq<u8>>::empty());
            assert(located_all_view(found@) =~= Seq::<Located>::empty());
        }
        while i < cs_ids.len()
            invariant
                self.wf(),
                s == self.iddag@,
                id2name == self.idmap.id2name(),
                name2id == self.idmap.name2id(),
                cs == names_view(cs_ids@),
                i <= cs_ids@.len(),
                located_all_view(found@)
                    == locations(s, id2name, name2id, heads@, cs.take(i as int)),
            decreases cs_ids@.len() - i,
        {
            proof {
                assert(cs.take(i + 1).drop_last() =~= cs.take(i as int));
                assert(cs.take(i + 1).last() == cs_ids@[i as int]@);
            }
            match self.idmap.vertex_id(&cs_ids[i]) {
                Err(_) => {},
                Ok(id) => {
                    let place = match self.iddag.place_from(id, heads.as_slice()) {
                        None => Err(ChangelogError::Unreachable),
                        Some((head, distance)) => match self.idmap.vertex_name(head) {
                            Ok(name) => Ok(Location { descendant: name, distance }),
                            Err(_) => Err(ChangelogError::MissingName),
                        },
                    };
                    let ghost before = found@;
                    let entry = (cs_ids[i].duplicate(), place);
                    proof {
                        assert(located_view(entry) == (
                            cs_ids@[i as int]@,
                            located(s, id2name, heads@, id),
                        ));
                    }
                    found.push(entry);
                    proof {
                        assert(located_all_view(found@) =~= located_all_view(before).push(
                            located_view(entry),
                        ));
                    }
                },
            }
            i = i + 1;
        }
        proof {
            assert(cs.take(i as int) =~= cs);
        }
        Ok(found)
    }

    /// Whether the vertex `ancestor` is the vertex `descendant` or an
    /// ancestor of it; `None` where one of the two has no id.
    pub fn is_ancestor(&self, ancestor: &VertexName, descendant: &VertexName) -> (r: Option<bool>)
        requires
            self.wf(),
        ensures
            r == (if self.idmap.name2id().dom().contains(ancestor@)
                && self.idmap.name2id().dom().contains(descendant@) {
                Some(
                    reaches(
                        self.iddag@,
                        self.idmap.name2id()[ancestor@],
                        self.idmap.name2id()[descendant@],
                    ),
                )
            } else {
                None
            }),
    {
        let a = match self.idmap.vertex_id(ancestor) {
            Ok(id) => id,
            Err(_) => { return None; },
        };
        let d = match self.idmap.vertex_id(descendant) {
            Ok(id) => id,
            Err(_) => { return None; },
        };
        Some(self.iddag.is_ancestor(a, d))
    }

    /// Ids with their names for the parents, the heads and the roots of
    /// `segs`, in the order of the ids.
    fn anchors(&self, segs: &Vec<FlatSegment>) -> (r: Result<Vec<(Id, VertexName)>, ChangelogError>)
        requires
            self.idmap.wf(),
        ensures
            match r {
                Ok(pairs) => is_anchor_map(self.idmap.id2name(),
                    segs.deep_view(), pairs_view(pairs@)),
                Err(e) => e == ChangelogError::MissingName && exists|x: Id|
                    is_anchor(segs.deep_view(), segs@.len() as int, x)
                        && !#[trigger] self.idmap.id2name().dom().contains(x),
            },
    {
        let ids = parents_head_and_roots(segs);
        proof {
            assert(segs.deep_view().len() == segs@.len());
        }
        match self.pairs(&ids) {
            Ok(pairs) => {
                proof {
                    let view = pairs_view(pairs@);
                    assert(view.len() == ids@.len());
                    assert forall|i: int| 0 <= i < view.len() implies (#[trigger] view[i]).0
                        == ids@[i] by {}
                    assert forall|x: Id| is_anchor(
                        segs.deep_view(),
                        segs.deep_view().len() as int,
                        x,
                    ) implies exists|i: int| 0 <= i < view.len() && (#[trigger] view[i]).0 == x by {
                        assert(ids@.contains(x));
                        let i = choose|i: int| 0 <= i < ids@.len() && ids@[i] == x;
                        assert(view[i].0 == x);
                    }
                    assert forall|i: int| 0 <= i < view.len() implies is_anchor(
                        segs.deep_view(),
                        segs.deep_view().len() as int,
                        (#[trigger] view[i]).0,
                    ) by {
                        assert(ids@.contains(ids@[i]));
                    }
                }
                Ok(pairs)
            },
            Err(e) => {
                proof {
                    let i = choose|i: int|
                        0 <= i < ids@.len() && !self.idmap.id2name().dom().contains(
                            #[trigger] ids@[i],
                        );
                    assert(ids@.contains(ids@[i]));
                }
                Err(e)
            },
        }
    }

    /// What a client needs in order to hold the master group: its flat
    /// segments, and the names of their parents, heads and roots.
    pub fn clone_data(&self) -> (r: Result<CloneData, ChangelogError>)
        requires
            self.wf(),
        ensures
            r matches Ok(data) && data.flat_segments.deep_view() == of_group(
                self.iddag@,
                Group::Master,
            ) && is_anchor_map(
                self.idmap.id2name(),
                of_group(self.iddag@, Group::Master),
                pairs_view(data.idmap@),
            ),
    {
        let flat_segments = self.iddag.flat_segments(Group::Master);
        let ghost s = self.iddag@;
        let ghost m = of_group(s, Group::Master);
        match self.anchors(&flat_segments) {
            Ok(idmap) => Ok(CloneData { flat_segments, idmap }),
            Err(e) => {
                proof {
                    let x = choose|x: Id|
                        is_anchor(m, flat_segments@.len() as int, x)
                            && !#[trigger] self.idmap.id2name().dom().contains(x);
                    lemma_master_part(s);
                    lemma_master_count_bounds(s);
                    lemma_anchor_covered(m, flat_segments@.len() as int, x);
                    lemma_prefix_parents(s, master_count(s), x);
                }
                Err(e)
            },
        }
    }

    /// Why the step of the master from `old` to `new` cannot be
    /// handed out, if it cannot: see `pull_error_of`.
    pub open spec fn pull_error(&self, old: Seq<u8>, new: Seq<u8>) -> Option<ChangelogError> {
        pull_error_of(self.iddag@, self.idmap.name2id(), old, new)
    }

    /// What a client that holds the master group up to `old_master`
    /// needs in order to hold it up to `new_master`: the vertexes that
    /// the new master has gained as flat segments, and the names of
    /// their parents, heads and roots.
    pub fn pull_fast_forward_master(&self, old_master: &VertexName, new_master: &VertexName) -> (r:
        Result<CloneData, ChangelogError>)
        requires
            self.wf(),
        ensures
            match r {
                Ok(data) => self.pull_error(old_master@, new_master@).is_none() && is_gain(
                    self.iddag@,
                    self.idmap.name2id()[old_master@],
                    self.idmap.name2id()[new_master@],
                    data.flat_segments.deep_view(),
                ) && is_anchor_map(
                    self.idmap.id2name(),
                    data.flat_segments.deep_view(),
                    pairs_view(data.idmap@),
                ),
                Err(e) => self.pull_error(old_master@, new_master@) == Some(e),
            },
    {
        let old = match self.idmap.vertex_id(old_master) {
            Ok(id) => id,
            Err(_) => { return Err(ChangelogError::VertexNotFound); },
        };
        let new = match self.idmap.vertex_id(new_master) {
            Ok(id) => id,
            Err(_) => { return Err(ChangelogError::VertexNotFound); },
        };
        if !Group::Master.contains(old) || !Group::Master.contains(new) {
            return Err(ChangelogError::NotInMaster);
        }
        if !self.iddag.is_ancestor(old, new) {
            return Err(ChangelogError::NotAncestor);
        }
        let flat_segments = self.iddag.segments_between(old, new);
        let ghost s = self.iddag@;
        let ghost pieces = flat_segments.deep_view();
        match self.anchors(&flat_segments) {
            Ok(idmap) => Ok(CloneData { flat_segments, idmap }),
            Err(e) => {
                proof {
                    assert(pieces.len() == flat_segments@.len());
                    let x = choose|x: Id|
                        is_anchor(pieces, flat_segments@.len() as int, x)
                            && !#[trigger] self.idmap.id2name().dom().contains(x);
                    lemma_gain_anchor_covered(s, old, new, pieces, x);
                }
                Err(e)
            },
        }
    }

    /// The ids from `first` up to `last` with their names.
    fn chunk(&self, first: u64, last: u64) -> (r: Result<Vec<(Id, VertexName)>, ChangelogError>)
        requires
            self.idmap.wf(),
            first <= last,
            last - first < IDMAP_CHUNK_SIZE,
        ensures
            match r {
                Ok(pairs) => pairs_view(pairs@) == pairs_of(
                    self.idmap.id2name(),
                    ids_from(first, (last - first + 1) as nat),
                ),
                Err(e) => e == ChangelogError::MissingName && exists|x: Id|
                    first <= x.0 <= last && !#[trigger] self.idmap.id2name().dom().contains(x),
            },
    {
        let mut ids: Vec<Id> = Vec::new();
        let mut next: u64 = first;
        loop
            invariant_except_break
                first <= next <= last,
                ids@ == ids_from(first, (next - first) as nat),
            ensures
                ids@ == ids_from(first, (last - first + 1) as nat),
            decreases last - next,
        {
            ids.push(Id(next));
            proof {
                assert(ids@ =~= ids_from(first, (next - first + 1) as nat));
            }
            if next == last {
                break ;
            }
            next = next + 1;
        }
        match self.pairs(&ids) {
            Ok(pairs) => Ok(pairs),
            Err(e) => {
                proof {
                    let i = choose|i: int|
                        0 <= i < ids@.len() && !self.idmap.id2name().dom().contains(
                            #[trigger] ids@[i],
                        );
                    assert(ids@[i].0 == first + i);
                }
                Err(e)
            },
        }
    }

    /// The flat segments of the master group, and the names of all of
    /// its ids, in the order of the ids and in chunks of
    /// `IDMAP_CHUNK_SIZE`.
    pub fn full_idmap_clone_data(&self) -> (r: Result<StreamCloneData, ChangelogError>)
        requires
            self.wf(),
        ensures
            r matches Ok(data) && data.flat_segments.deep_view() == of_group(
                self.iddag@,
                Group::Master,
            ) && is_chunked(
                self.idmap.id2name(),
                next_free(self.iddag@, Group::Master) as nat,
                data.idmap_chunks@,
            ),
    {
        let ghost s = self.iddag@;
        let ghost id2name = self.idmap.id2name();
        let flat_segments = self.iddag.flat_segments(Group::Master);
        let end = self.iddag.next_free_id(0, Group::Master).0;
        proof {
            lemma_next_free(s, Group::Master, Id(0));
        }
        let mut chunks: Vec<Vec<(Id, VertexName)>> = Vec::new();
        let mut start: u64 = 0;
        while start < end
            invariant
                self.wf(),
                s == self.iddag@,
                id2name == self.idmap.id2name(),
                end == next_free(s, Group::Master),
                end <= Group::Master.spec_max() + 1,
                start <= end,
                start == chunks@.len() * IDMAP_CHUNK_SIZE || start == end,
                chunks@.len() == chunks_up_to(start as nat),
                forall|c: int|
                    0 <= c < chunks@.len() ==> pairs_view((#[trigger] chunks@[c])@) == pairs_of(
                        id2name,
                        ids_from((c * IDMAP_CHUNK_SIZE) as u64, chunk_len(c, end as nat)),
                    ),
            decreases end - start,
        {
            let last = if end - start > IDMAP_CHUNK_SIZE as u64 {
                start + (IDMAP_CHUNK_SIZE as u64 - 1)
            } else {
                end - 1
            };
            match self.chunk(start, last) {
                Ok(pairs) => {
                    let ghost before = chunks@;
                    chunks.push(pairs);
                    proof {
                        assert forall|c: int| 0 <= c < chunks@.len() implies pairs_view(
                            (#[trigger] chunks@[c])@,
                        ) == pairs_of(
                            id2name,
                            ids_from((c * IDMAP_CHUNK_SIZE) as u64, chunk_len(c, end as nat)),
                        ) by {
                            if c < before.len() {
                                assert(chunks@[c] == before[c]);
                            }
                        }
                    }
                },
                Err(e) => {
                    proof {
                        let x = choose|x: Id|
                            start <= x.0 <= last
                                && !#[trigger] self.idmap.id2name().dom().contains(x);
                        lemma_next_free(s, Group::Master, x);
                    }
                    return Err(e);
                },
            }
            start = last + 1;
        }
        Ok(StreamCloneData { flat_segments, idmap_chunks: chunks })
    }

    /// Every vertex that has an id is its own ancestor.
    pub proof fn lemma_is_ancestor_reflexive(&self, a: Seq<u8>)
        requires
            self.wf(),
            self.idmap.name2id().dom().contains(a),
        ensures
            reaches(self.iddag@, self.idmap.name2id()[a], self.idmap.name2id()[a]),
    {
        self.idmap.lemma_wf();
        let id = self.idmap.name2id()[a];
        assert(self.idmap.id2name().dom().contains(id));
        assert(covered(self.iddag@, id));
    }

    /// Two vertexes of which each is an ancestor of the other are the same.
    pub proof fn lemma_is_ancestor_antisymmetric(&self, a: Seq<u8>, b: Seq<u8>)
        requires
            self.wf(),
            self.idmap.name2id().dom().contains(a),
            self.idmap.name2id().dom().contains(b),
            reaches(self.iddag@, self.idmap.name2id()[a], self.idmap.name2id()[b]),
            reaches(self.iddag@, self.idmap.name2id()[b], self.idmap.name2id()[a]),
        ensures
            a == b,
    {
        self.idmap.lemma_wf();
        crate::iddag::lemma_reaches_antisymmetric(
            self.iddag@,
            self.idmap.name2id()[a],
            self.idmap.name2id()[b],
        );
    }

    /// Every vertex that is a head or an ancestor of a head is given a
    /// place: the name of an id of the graph, and the number of steps,
    /// each to the first parent, that lead from that id to the vertex.
    pub proof fn lemma_ancestor_is_located(&self, heads: Seq<Id>, id: Id)
        requires
            self.wf(),
            reached(self.iddag@, heads, id),
        ensures
            located(self.iddag@, self.idmap.id2name(), heads, id) matches Ok((name, n))
                && place_of(self.iddag@, heads, id) matches Some((y, m)) && m == n
                && self.idmap.id2name().dom().contains(y) && self.idmap.id2name()[y] == name
                && nth_first_ancestor(self.iddag@, y, n) == Some(id),
    {
        crate::place::lemma_place_of(self.iddag@, heads, id);
    }

    /// A vertex that is neither a head nor an ancestor of a head is
    /// `Unreachable`.
    pub proof fn lemma_other_is_unreachable(&self, heads: Seq<Id>, id: Id)
        requires
            self.wf(),
            !reached(self.iddag@, heads, id),
        ensures
            located(self.iddag@, self.idmap.id2name(), heads, id) == Err::<
                (Seq<u8>, nat),
                ChangelogError,
            >(ChangelogError::Unreachable),
    {
        crate::place::lemma_no_place(self.iddag@, heads, id);
    }

    /// Where `n` steps, each to the first parent, lead from the vertex
    /// `head` to the vertex `a`, the place of `a` relative to `head`
    /// alone is `head` and `n`.
    pub proof fn lemma_location_roundtrip(&self, head: Seq<u8>, n: nat, a: Seq<u8>)
        requires
            self.wf(),
            self.idmap.name2id().dom().contains(head),
            self.idmap.name2id().dom().contains(a),
            nth_first_ancestor(self.iddag@, self.idmap.name2id()[head], n) == Some(
                self.idmap.name2id()[a],
            ),
        ensures
            locations(
                self.iddag@,
                self.idmap.id2name(),
                self.idmap.name2id(),
                resolved(self.idmap.name2id(), seq![head]),
                seq![a],
            ) == seq![(a, Ok::<(Seq<u8>, nat), ChangelogError>((head, n)))],
    {
        let s = self.iddag@;
        let name2id = self.idmap.name2id();
        let id2name = self.idmap.id2name();
        self.idmap.lemma_wf();
        let heads = seq![head];
        assert(heads.drop_last() =~= Seq::<Seq<u8>>::empty());
        assert(resolved(name2id, heads.drop_last()) =~= Seq::<Id>::empty());
        assert(resolved(name2id, heads) =~= seq![name2id[head]]);
        crate::iddag::lemma_location_of_nth(s, name2id[head], n, name2id[a]);
        let cs = seq![a];
        assert(cs.drop_last() =~= Seq::<Seq<u8>>::empty());
        assert(locations(s, id2name, name2id, seq![name2id[head]], cs.drop_last())
            =~= Seq::<Located>::empty());
        assert(located(s, id2name, seq![name2id[head]], name2id[a]) == Ok::<
            (Seq<u8>, nat),
            ChangelogError,
        >((head, n)));
        assert(locations(s, id2name, name2id, seq![name2id[head]], cs) =~= seq![
            (a, Ok::<(Seq<u8>, nat), ChangelogError>((head, n))),
        ]);
    }
}

} // verus!
