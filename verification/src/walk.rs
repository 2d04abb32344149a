//! Walking from a head back to the vertexes that have an id, so that
//! every vertex without an id is met after its parents.
//!
//! The parents of a vertex come from outside. The walk tells which
//! vertex it needs the parents of, and goes on when it gets them.
//!
//! The walk keeps a stack of the vertexes on the way, the one to look at
//! next on top. A vertex leaves the stack when it is done with: it was
//! met before, or it has an id, or its parents are known and done with.
//! In the last case it joins the batch. What the walk does is stated
//! as functions on its state, `supplied` and `settle`; what holds of
//! every state that it reaches is proved of those.

use crate::idmap::mem_idmap::names_view;
use crate::idmap::mem_idmap::VertexName;
use crate::lex::bytes_eq;
use crate::on_demand::assigned;
use crate::on_demand::is_cs_assigned;
use crate::update::add_error;
use crate::update::after_batch;
use crate::update::batch_view;
use crate::update::ChangelogView;
use crate::update::GraphNode;
use crate::update::OwnedSegmentedChangelog;
use crate::update::UpdateError;
use crate::id::Group;
use vstd::prelude::*;

verus! {

/// A vertex on the way from the head, with its parents once they are known.
pub struct Frame {
    pub vertex: VertexName,
    pub parents: Option<Vec<VertexName>>,
}

/// A frame as a mathematical value.
pub struct FrameView {
    pub vertex: Seq<u8>,
    pub parents: Option<Seq<Seq<u8>>>,
}

impl View for Frame {
    type V = FrameView;

    open spec fn view(&self) -> FrameView {
        FrameView {
            vertex: self.vertex@,
            parents: match self.parents {
                Some(ps) => Some(names_view(ps@)),
                None => None,
            },
        }
    }
}

/// What the caller of a walk is to do next.
#[derive(Debug, PartialEq, Eq)]
pub enum WalkAction {
    /// Fetch the parents of this vertex, and hand them to `supply`.
    Fetch(VertexName),
    /// Every vertex on the way has been met: the batch is complete.
    Finished,
}

/// A walk from a head back to the vertexes that have an id.
pub struct ParentWalk {
    head: VertexName,
    stack: Vec<Frame>,
    batch: Vec<GraphNode>,
    settled: Vec<VertexName>,
}

/// A batch of vertexes, each with its parents.
pub type Batch = Seq<(Seq<u8>, Seq<Seq<u8>>)>;

/// The state of a walk as a mathematical value.
pub struct WalkView {
    /// The vertex that the walk started from.
    pub head: Seq<u8>,
    /// The vertexes on the way, the one to look at next last.
    pub stack: Seq<FrameView>,
    /// The vertexes met so far that have no id, with their parents.
    pub batch: Batch,
    /// The vertexes that are done with.
    pub settled: Seq<Seq<u8>>,
}

/// Frames as mathematical values.
pub open spec fn frames_view(frames: Seq<Frame>) -> Seq<FrameView> {
    frames.map_values(|f: Frame| f@)
}

impl View for ParentWalk {
    type V = WalkView;

    closed spec fn view(&self) -> WalkView {
        WalkView {
            head: self.head@,
            stack: frames_view(self.stack@),
            batch: batch_view(self.batch@),
            settled: names_view(self.settled@),
        }
    }
}

/// Whether `name` is one of `names`.
pub fn knows(names: &Vec<VertexName>, name: &VertexName) -> (b: bool)
    ensures
        b == names_view(names@).contains(name@),
{
    let ghost all = names_view(names@);
    let mut i: usize = 0;
    while i < names.len()
        invariant
            all == names_view(names@),
            i <= names@.len(),
            forall|j: int| 0 <= j < i ==> all[j] != name@,
        decreases names@.len() - i,
    {
        if bytes_eq(names[i].0.as_slice(), name.0.as_slice()) {
            proof {
                assert(all[i as int] == name@);
            }
            return true;
        }
        i = i + 1;
    }
    false
}

/// The vertexes that have an id in `changelog`.
pub open spec fn assigned_names(changelog: OwnedSegmentedChangelog) -> Set<Seq<u8>> {
    Set::new(|n: Seq<u8>| assigned(changelog.dag(), changelog.map(), n))
}

/// The walk that starts at `head`.
pub open spec fn started(head: Seq<u8>) -> WalkView {
    WalkView {
        head,
        stack: seq![FrameView { vertex: head, parents: None }],
        batch: Seq::empty(),
        settled: Seq::empty(),
    }
}

/// The frames of `parents` as they lie on the stack: the first parent
/// last, so that it is looked at first.
pub open spec fn frames_for(parents: Seq<Seq<u8>>) -> Seq<FrameView> {
    Seq::new(
        parents.len(),
        |k: int| FrameView { vertex: parents[parents.len() - 1 - k], parents: None },
    )
}

/// The walk `w` once it has got the parents of the vertex on top of its
/// stack: the vertex has its parents, and they lie on the stack above
/// it. The same walk, where the stack is empty or the parents of that
/// vertex are known.
pub open spec fn supplied(w: WalkView, parents: Seq<Seq<u8>>) -> WalkView {
    if w.stack.len() == 0 || w.stack.last().parents.is_some() {
        w
    } else {
        WalkView {
            head: w.head,
            stack: w.stack.drop_last().push(
                FrameView { vertex: w.stack.last().vertex, parents: Some(parents) },
            ) + frames_for(parents),
            batch: w.batch,
            settled: w.settled,
        }
    }
}

/// Whether the walk `w` cannot go on by itself: its stack is empty, or
/// the vertex on top was not met before, has no id and its parents are
/// not known.
pub open spec fn stuck(w: WalkView, known: Set<Seq<u8>>) -> bool {
    w.stack.len() == 0 || (!w.settled.contains(w.stack.last().vertex) && !known.contains(
        w.stack.last().vertex,
    ) && w.stack.last().parents.is_none())
}

/// The walk `w` after the vertex on top of its stack has left the
/// stack. A vertex that was met before leaves nothing behind, one that
/// has an id is done with, one whose parents are known is done with
/// and joins the batch.
pub open spec fn moved(w: WalkView, known: Set<Seq<u8>>) -> WalkView {
    let top = w.stack.last();
    let rest = w.stack.drop_last();
    if w.settled.contains(top.vertex) {
        WalkView { head: w.head, stack: rest, batch: w.batch, settled: w.settled }
    } else if known.contains(top.vertex) {
        WalkView { head: w.head, stack: rest, batch: w.batch, settled: w.settled.push(top.vertex) }
    } else {
        match top.parents {
            Some(ps) => WalkView {
                head: w.head,
                stack: rest,
                batch: w.batch.push((top.vertex, ps)),
                settled: w.settled.push(top.vertex),
            },
            None => w,
        }
    }
}

/// The walk `w` gone on until it cannot go on by itself, where `known`
/// are the vertexes that have an id.
pub open spec fn settle(w: WalkView, known: Set<Seq<u8>>) -> WalkView
    decreases w.stack.len(),
{
    if stuck(w, known) {
        w
    } else {
        settle(moved(w, known), known)
    }
}

/// Whether the vertex `name` waits on the stack above the place `at`.
pub open spec fn waits(stack: Seq<FrameView>, at: int, name: Seq<u8>) -> bool {
    exists|j: int| at < j < stack.len() && (#[trigger] stack[j]).vertex == name
}

/// Whether the parents of the frame at the place `at`, where they are
/// known, are settled or wait on the stack above it.
pub open spec fn frame_ok(settled: Seq<Seq<u8>>, stack: Seq<FrameView>, at: int) -> bool {
    match stack[at].parents {
        Some(ps) => forall|k: int|
            0 <= k < ps.len() ==> settled.contains(#[trigger] ps[k]) || waits(stack, at, ps[k]),
        None => true,
    }
}

/// Whether one of the first `upto` vertexes of `batch` is `name`.
pub open spec fn joined_before(batch: Batch, upto: int, name: Seq<u8>) -> bool {
    exists|j: int| 0 <= j < upto && j < batch.len() && (#[trigger] batch[j]).0 == name
}

/// Whether `batch` can join a changelog in which the vertexes `known`
/// have an id: no vertex of the batch has an id, none is in it twice,
/// and each parent of a vertex of the batch has an id or comes before
/// the vertex in the batch.
pub open spec fn batch_ordered(batch: Batch, known: Set<Seq<u8>>) -> bool {
    &&& forall|i: int| 0 <= i < batch.len() ==> !known.contains((#[trigger] batch[i]).0)
    &&& forall|i: int, j: int|
        0 <= i < j < batch.len() ==> (#[trigger] batch[i]).0 != (#[trigger] batch[j]).0
    &&& forall|i: int, k: int|
        0 <= i < batch.len() && 0 <= k < batch[i].1.len() ==> known.contains(
            #[trigger] batch[i].1[k],
        ) || joined_before(batch, i, batch[i].1[k])
}

impl WalkView {
    /// What every walk satisfies: the vertexes of the batch are done
    /// with; the parents of a vertex on the stack, where they are known,
    /// are done with or wait on the stack above it; the head lies at
    /// the bottom of the stack, or is done with once the stack is empty.
    pub open spec fn wf(self) -> bool {
        &&& forall|i: int|
            0 <= i < self.batch.len() ==> self.settled.contains((#[trigger] self.batch[i]).0)
        &&& forall|i: int|
            0 <= i < self.stack.len() ==> #[trigger] frame_ok(self.settled, self.stack, i)
        &&& if self.stack.len() > 0 {
            self.stack[0].vertex == self.head
        } else {
            self.settled.contains(self.head)
        }
    }

    /// Whether the walk has met its vertexes in order, where `known`
    /// are the vertexes that have an id: its batch can join, and every
    /// vertex that is done with has an id or is in the batch.
    pub open spec fn ordered(self, known: Set<Seq<u8>>) -> bool {
        &&& batch_ordered(self.batch, known)
        &&& forall|i: int|
            0 <= i < self.settled.len() ==> known.contains(#[trigger] self.settled[i])
                || joined_before(self.batch, self.batch.len() as int, self.settled[i])
    }
}

/// A walk that has just started is well-formed and has met nothing out
/// of order.
pub proof fn lemma_started(head: Seq<u8>, known: Set<Seq<u8>>)
    ensures
        started(head).wf(),
        started(head).ordered(known),
{
    let w = started(head);
    assert(frame_ok(w.settled, w.stack, 0));
}

/// Getting the parents of a vertex keeps a walk well-formed and leaves
/// what it has met as it was.
pub proof fn lemma_supplied(w: WalkView, parents: Seq<Seq<u8>>, known: Set<Seq<u8>>)
    requires
        w.wf(),
    ensures
        supplied(w, parents).wf(),
        w.ordered(known) ==> supplied(w, parents).ordered(known),
{
    let v = supplied(w, parents);
    if !(w.stack.len() == 0 || w.stack.last().parents.is_some()) {
        let n = w.stack.len() as int;
        let above = frames_for(parents);
        assert forall|i: int| 0 <= i < v.stack.len() implies #[trigger] frame_ok(
            v.settled,
            v.stack,
            i,
        ) by {
            if i < n - 1 {
                assert(v.stack[i] == w.stack[i]);
                assert(frame_ok(w.settled, w.stack, i));
                if let Some(ps) = v.stack[i].parents {
                    assert forall|k: int| 0 <= k < ps.len() implies v.settled.contains(
                        #[trigger] ps[k],
                    ) || waits(v.stack, i, ps[k]) by {
                        if !w.settled.contains(ps[k]) {
                            assert(waits(w.stack, i, ps[k]));
                            let j = choose|j: int|
                                i < j < w.stack.len() && (#[trigger] w.stack[j]).vertex == ps[k];
                            assert(v.stack[j].vertex == w.stack[j].vertex);
                        }
                    }
                }
            } else if i == n - 1 {
                assert(v.stack[i].parents == Some(parents));
                assert forall|k: int| 0 <= k < parents.len() implies waits(
                    v.stack,
                    i,
                    #[trigger] parents[k],
                ) by {
                    let j = n + parents.len() - 1 - k;
                    assert(v.stack[j] == above[j - n]);
                    assert(v.stack[j].vertex == parents[k]);
                }
            } else {
                assert(v.stack[i] == above[i - n]);
            }
        }
        assert(v.stack[0].vertex == w.stack[0].vertex);
    }
}

/// One vertex leaving the stack keeps a walk well-formed and in order.
pub proof fn lemma_moved(w: WalkView, known: Set<Seq<u8>>)
    requires
        w.wf(),
        w.ordered(known),
        !stuck(w, known),
    ensures
        moved(w, known).wf(),
        moved(w, known).ordered(known),
        moved(w, known).stack == w.stack.drop_last(),
        moved(w, known).head == w.head,
{
    let v = moved(w, known);
    let n = w.stack.len() as int;
    let top = w.stack.last();
    assert forall|x: Seq<u8>| w.settled.contains(x) implies v.settled.contains(x) by {
        let i = choose|i: int| 0 <= i < w.settled.len() && w.settled[i] == x;
        assert(v.settled[i] == x);
    }
    assert(v.settled.contains(top.vertex)) by {
        if !w.settled.contains(top.vertex) {
            assert(v.settled[v.settled.len() - 1] == top.vertex);
        }
    }
    assert forall|i: int| 0 <= i < v.batch.len() implies v.settled.contains(
        (#[trigger] v.batch[i]).0,
    ) by {
        if i < w.batch.len() {
            assert(v.batch[i] == w.batch[i]);
        }
    }
    assert forall|i: int| 0 <= i < v.stack.len() implies #[trigger] frame_ok(
        v.settled,
        v.stack,
        i,
    ) by {
        assert(v.stack[i] == w.stack[i]);
        assert(frame_ok(w.settled, w.stack, i));
        if let Some(ps) = v.stack[i].parents {
            assert forall|k: int| 0 <= k < ps.len() implies v.settled.contains(#[trigger] ps[k])
                || waits(v.stack, i, ps[k]) by {
                if !w.settled.contains(ps[k]) {
                    assert(waits(w.stack, i, ps[k]));
                    let j = choose|j: int|
                        i < j < w.stack.len() && (#[trigger] w.stack[j]).vertex == ps[k];
                    if j < n - 1 {
                        assert(v.stack[j] == w.stack[j]);
                    }
                }
            }
        }
    }
    if v.stack.len() > 0 {
        assert(v.stack[0] == w.stack[0]);
    }
    assert forall|x: Seq<u8>, upto: int| joined_before(w.batch, upto, x) implies joined_before(
        v.batch,
        upto,
        x,
    ) by {
        let j = choose|j: int| 0 <= j < upto && j < w.batch.len() && (#[trigger] w.batch[j]).0 == x;
        assert(v.batch[j] == w.batch[j]);
    }
    let joins = !w.settled.contains(top.vertex) && !known.contains(top.vertex);
    if joins {
        let ps = top.parents.unwrap();
        let at = w.batch.len() as int;
        assert(v.batch[at] == (top.vertex, ps));
        assert(frame_ok(w.settled, w.stack, n - 1));
        assert forall|k: int| 0 <= k < ps.len() implies known.contains(#[trigger] ps[k])
            || joined_before(v.batch, at, ps[k]) by {
            assert(!waits(w.stack, n - 1, ps[k]));
            assert(w.settled.contains(ps[k]));
            let i = choose|i: int| 0 <= i < w.settled.len() && w.settled[i] == ps[k];
            assert(known.contains(w.settled[i]) || joined_before(w.batch, at, w.settled[i]));
        }
        assert forall|i: int| 0 <= i < at implies (#[trigger] v.batch[i]).0 != top.vertex by {
            assert(v.batch[i] == w.batch[i]);
            assert(w.settled.contains(w.batch[i].0));
        }
        assert(joined_before(v.batch, v.batch.len() as int, top.vertex));
    }
    assert forall|i: int, k: int|
        0 <= i < v.batch.len() && 0 <= k < v.batch[i].1.len() implies known.contains(
        #[trigger] v.batch[i].1[k],
    ) || joined_before(v.batch, i, v.batch[i].1[k]) by {
        if i < w.batch.len() {
            assert(v.batch[i] == w.batch[i]);
            assert(known.contains(w.batch[i].1[k]) || joined_before(w.batch, i, w.batch[i].1[k]));
        }
    }
    assert forall|i: int, j: int| 0 <= i < j < v.batch.len() implies (#[trigger] v.batch[i]).0 != (
    #[trigger] v.batch[j]).0 by {
        if j < w.batch.len() {
            assert(v.batch[i] == w.batch[i]);
            assert(v.batch[j] == w.batch[j]);
        }
    }
    assert forall|i: int| 0 <= i < v.batch.len() implies !known.contains(
        (#[trigger] v.batch[i]).0,
    ) by {
        if i < w.batch.len() {
            assert(v.batch[i] == w.batch[i]);
        }
    }
    assert forall|i: int| 0 <= i < v.settled.len() implies known.contains(#[trigger] v.settled[i])
        || joined_before(v.batch, v.batch.len() as int, v.settled[i]) by {
        if i < w.settled.len() {
            assert(v.settled[i] == w.settled[i]);
            assert(known.contains(w.settled[i]) || joined_before(
                w.batch,
                w.batch.len() as int,
                w.settled[i],
            ));
            if joined_before(w.batch, w.batch.len() as int, w.settled[i]) {
                let j = choose|j: int|
                    0 <= j < w.batch.len() && j < w.batch.len() && (#[trigger] w.batch[j]).0
                        == w.settled[i];
                assert(v.batch[j] == w.batch[j]);
            }
        }
    }
}

/// A walk that goes on stays well-formed and in order, and ends where
/// it cannot go on by itself.
pub proof fn lemma_settle(w: WalkView, known: Set<Seq<u8>>)
    requires
        w.wf(),
        w.ordered(known),
    ensures
        settle(w, known).wf(),
        settle(w, known).ordered(known),
        stuck(settle(w, known), known),
        settle(w, known).head == w.head,
    decreases w.stack.len(),
{
    if !stuck(w, known) {
        lemma_moved(w, known);
        lemma_settle(moved(w, known), known);
    }
}

/// When nothing is left on the stack of a walk, its head has an id or
/// is in its batch, and the batch can join.
pub proof fn lemma_finished(w: WalkView, known: Set<Seq<u8>>)
    requires
        w.wf(),
        w.ordered(known),
        w.stack.len() == 0,
    ensures
        known.contains(w.head) || joined_before(w.batch, w.batch.len() as int, w.head),
        batch_ordered(w.batch, known),
{
    let i = choose|i: int| 0 <= i < w.settled.len() && w.settled[i] == w.head;
    assert(known.contains(w.settled[i]) || joined_before(
        w.batch,
        w.batch.len() as int,
        w.settled[i],
    ));
}

/// In a well-formed changelog, the vertexes that have an id are those
/// that the map of names knows.
pub proof fn lemma_assigned_names(changelog: OwnedSegmentedChangelog)
    requires
        changelog.wf(),
    ensures
        assigned_names(changelog) == changelog@.name2id.dom(),
{
    changelog.map().lemma_wf();
    assert forall|n: Seq<u8>|
        assigned_names(changelog).contains(n) <==> changelog@.name2id.dom().contains(n) by {
        if changelog@.name2id.dom().contains(n) {
            let id = changelog@.name2id[n];
            assert(changelog.map().id2name().dom().contains(id));
        }
    }
    assert(assigned_names(changelog) =~= changelog@.name2id.dom());
}

/// What a batch that can join leaves of a changelog: as long as no
/// vertex fails, the vertexes that have an id are those that had one
/// and those of the batch, and all of them joined. No vertex fails for
/// having an id already or for a parent without one.
pub proof fn lemma_batch_joins(c: ChangelogView, batch: Batch)
    requires
        batch_ordered(batch, c.name2id.dom()),
    ensures
        match after_batch(c, batch).2 {
            Some((at, e)) => e is GroupViolation || e is GroupFull || e is VersionExhausted,
            None => after_batch(c, batch).1 == batch.len() && forall|n: Seq<u8>|
                after_batch(c, batch).0.name2id.dom().contains(n) <==> c.name2id.dom().contains(n)
                    || joined_before(batch, batch.len() as int, n),
        },
    decreases batch.len(),
{
    let known = c.name2id.dom();
    if batch.len() > 0 {
        let init = batch.drop_last();
        let last = batch.last();
        let at = batch.len() - 1;
        assert(batch_ordered(init, known)) by {
            assert forall|i: int, k: int|
                0 <= i < init.len() && 0 <= k < init[i].1.len() implies known.contains(
                #[trigger] init[i].1[k],
            ) || joined_before(init, i, init[i].1[k]) by {
                assert(init[i] == batch[i]);
                assert(known.contains(batch[i].1[k]) || joined_before(batch, i, batch[i].1[k]));
                if joined_before(batch, i, batch[i].1[k]) {
                    let j = choose|j: int|
                        0 <= j < i && j < batch.len() && (#[trigger] batch[j]).0 == batch[i].1[k];
                    assert(init[j] == batch[j]);
                }
            }
            assert forall|i: int| 0 <= i < init.len() implies !known.contains(
                (#[trigger] init[i]).0,
            ) by {
                assert(init[i] == batch[i]);
            }
            assert forall|i: int, j: int| 0 <= i < j < init.len() implies (#[trigger] init[i]).0
                != (#[trigger] init[j]).0 by {
                assert(init[i] == batch[i]);
                assert(init[j] == batch[j]);
            }
        }
        lemma_batch_joins(c, init);
        let before = after_batch(c, init);
        if before.2.is_none() {
            let dom = before.0.name2id.dom();
            assert(!dom.contains(last.0)) by {
                if joined_before(init, init.len() as int, last.0) {
                    let j = choose|j: int|
                        0 <= j < init.len() && j < init.len() && (#[trigger] init[j]).0 == last.0;
                    assert(init[j] == batch[j]);
                    assert(batch[j].0 != batch[at].0);
                }
            }
            assert forall|k: int| 0 <= k < last.1.len() implies dom.contains(
                #[trigger] last.1[k],
            ) by {
                assert(known.contains(batch[at].1[k]) || joined_before(batch, at, batch[at].1[k]));
                if joined_before(batch, at, batch[at].1[k]) {
                    let j = choose|j: int|
                        0 <= j < at && j < batch.len() && (#[trigger] batch[j]).0 == batch[at].1[k];
                    assert(init[j] == batch[j]);
                    assert(joined_before(init, init.len() as int, last.1[k]));
                }
            }
            let e = add_error(before.0, last.0, last.1, Group::Master);
            assert(e != Some(UpdateError::AlreadyAssigned));
            assert(e != Some(UpdateError::ParentNotFound));
            if e.is_none() {
                let after = after_batch(c, batch).0;
                assert forall|n: Seq<u8>|
                    after.name2id.dom().contains(n) <==> known.contains(n) || joined_before(
                        batch,
                        batch.len() as int,
                        n,
                    ) by {
                    if joined_before(batch, batch.len() as int, n) {
                        let j = choose|j: int|
                            0 <= j < batch.len() && j < batch.len() && (#[trigger] batch[j]).0 == n;
                        if j < at {
                            assert(init[j] == batch[j]);
                            assert(joined_before(init, init.len() as int, n));
                        }
                    }
                    if joined_before(init, init.len() as int, n) {
                        let j = choose|j: int|
                            0 <= j < init.len() && j < init.len() && (#[trigger] init[j]).0 == n;
                        assert(batch[j] == init[j]);
                    }
                    if n == last.0 {
                        assert(batch[at].0 == n);
                    }
                }
            }
        }
    }
}

/// The batch of a walk that has nothing left on its stack joins the
/// changelog that the walk was made against, and the head of the walk
/// has an id then, unless a vertex fails for its group or for want of
/// room.
pub proof fn lemma_walk_joins(changelog: OwnedSegmentedChangelog, w: WalkView)
    requires
        changelog.wf(),
        w.wf(),
        w.ordered(assigned_names(changelog)),
        w.stack.len() == 0,
    ensures
        match after_batch(changelog@, w.batch).2 {
            Some((at, e)) => e is GroupViolation || e is GroupFull || e is VersionExhausted,
            None => after_batch(changelog@, w.batch).1 == w.batch.len() && after_batch(
                changelog@,
                w.batch,
            ).0.name2id.dom().contains(w.head),
        },
{
    lemma_assigned_names(changelog);
    lemma_finished(w, assigned_names(changelog));
    lemma_batch_joins(changelog@, w.batch);
}

impl ParentWalk {
    /// The walk that starts at `head`.
    pub fn new(head: VertexName) -> (walk: ParentWalk)
        ensures
            walk@ == started(head@),
    {
        let mut stack: Vec<Frame> = Vec::new();
        let first = head.duplicate();
        stack.push(Frame { vertex: first, parents: None });
        let walk = ParentWalk { head, stack, batch: Vec::new(), settled: Vec::new() };
        proof {
            assert(walk@.stack =~= started(head@).stack);
            assert(walk@.batch =~= started(head@).batch);
            assert(walk@.settled =~= started(head@).settled);
        }
        walk
    }

    /// Takes the parents of the vertex that the walk has asked for.
    /// They are looked at before the vertex itself is, the first parent
    /// first. Does nothing where the walk has asked for no vertex.
    pub fn supply(&mut self, parents: Vec<VertexName>)
        ensures
            final(self)@ == supplied(old(self)@, names_view(parents@)),
    {
        let n = self.stack.len();
        if n == 0 {
            return ;
        }
        if self.stack[n - 1].parents.is_some() {
            proof {
                assert(old(self)@.stack.last() == self.stack@[n - 1]@);
            }
            return ;
        }
        let ghost before = frames_view(self.stack@);
        let ghost names = names_view(parents@);
        proof {
            assert(before.last() == self.stack@[n - 1]@);
        }
        let top = match self.stack.pop() {
            Some(f) => f,
            None => { return ; },
        };
        let mut copy: Vec<VertexName> = Vec::new();
        let mut i: usize = 0;
        while i < parents.len()
            invariant
                i <= parents@.len(),
                names == names_view(parents@),
                names_view(copy@) == names.take(i as int),
            decreases parents@.len() - i,
        {
            let ghost was = copy@;
            copy.push(parents[i].duplicate());
            proof {
                assert(names_view(copy@) =~= names_view(was).push(parents@[i as int]@));
                assert(names.take(i + 1) =~= names.take(i as int).push(names[i as int]));
            }
            i = i + 1;
        }
        proof {
            assert(names.take(i as int) =~= names);
        }
        let ghost popped = self.stack@;
        self.stack.push(Frame { vertex: top.vertex, parents: Some(copy) });
        let ghost base = frames_view(self.stack@);
        proof {
            assert(frames_view(popped) =~= before.drop_last());
            assert(base =~= before.drop_last().push(
                FrameView { vertex: before.last().vertex, parents: Some(names) },
            ));
        }
        let ghost above = frames_for(names);
        let mut rest = parents;
        proof {
            assert(frames_view(self.stack@) =~= base + above.take(0));
        }
        while rest.len() > 0
            invariant
                self.head == old(self).head,
                self.batch == old(self).batch,
                self.settled == old(self).settled,
                above == frames_for(names),
                rest@.len() <= names.len(),
                names_view(rest@) == names.take(rest@.len() as int),
                frames_view(self.stack@) == base + above.take(names.len() - rest@.len()),
            decreases rest@.len(),
        {
            let ghost was = self.stack@;
            let ghost left = rest@;
            let parent = match rest.pop() {
                Some(p) => p,
                None => { return ; },
            };
            self.stack.push(Frame { vertex: parent, parents: None });
            proof {
                let at = left.len() - 1;
                let k = names.len() - left.len();
                assert(rest@ =~= left.drop_last());
                assert(names_view(rest@) =~= names.take(rest@.len() as int)) by {
                    assert(names_view(left.drop_last()) =~= names_view(left).drop_last());
                }
                assert(names_view(left)[at] == left[at]@);
                assert(above[k] == FrameView { vertex: names[at], parents: None });
                assert(above.take(k + 1) =~= above.take(k).push(above[k]));
                assert(frames_view(self.stack@) =~= frames_view(was).push(above[k]));
                assert(frames_view(self.stack@) =~= base + above.take(k + 1));
            }
        }
        proof {
            assert(above.take(names.len() as int) =~= above);
        }
    }

    /// Goes on with the walk until the parents of a vertex are needed or
    /// nothing is left to look at. A vertex that has an id in
    /// `changelog`, or was met before, is done with. A vertex whose
    /// parents are known and done with joins the batch.
    pub fn step(&mut self, changelog: &OwnedSegmentedChangelog) -> (action: WalkAction)
        requires
            changelog.wf(),
        ensures
            final(self)@ == settle(old(self)@, assigned_names(*changelog)),
            match action {
                WalkAction::Fetch(vertex) => final(self)@.stack.len() > 0
                    && final(self)@.stack.last().vertex == vertex@,
                WalkAction::Finished => final(self)@.stack.len() == 0,
            },
    {
        let ghost known = assigned_names(*changelog);
        loop
            invariant
                changelog.wf(),
                known == assigned_names(*changelog),
                settle(self@, known) == settle(old(self)@, known),
            decreases self.stack@.len(),
        {
            let n = self.stack.len();
            if n == 0 {
                return WalkAction::Finished;
            }
            let ghost w = self@;
            proof {
                assert(w.stack.last() == self.stack@[n - 1]@);
            }
            let read = changelog.read_only();
            let met = knows(&self.settled, &self.stack[n - 1].vertex);
            let has_id = !met && is_cs_assigned(read.iddag, read.idmap, &self.stack[n - 1].vertex);
            if !met && !has_id && self.stack[n - 1].parents.is_none() {
                return WalkAction::Fetch(self.stack[n - 1].vertex.duplicate());
            }
            let ghost before = self.stack@;
            let top = match self.stack.pop() {
                Some(f) => f,
                None => { return WalkAction::Finished; },
            };
            proof {
                assert(frames_view(self.stack@) =~= w.stack.drop_last());
                assert(top@ == w.stack.last());
            }
            if !met {
                let ghost was = self.settled@;
                self.settled.push(top.vertex.duplicate());
                proof {
                    assert(names_view(self.settled@) =~= names_view(was).push(top.vertex@));
                }
                if !has_id {
                    match top.parents {
                        Some(parents) => {
                            let ghost held = self.batch@;
                            self.batch.push(GraphNode { vertex: top.vertex, parents });
                            proof {
                                assert(batch_view(self.batch@) =~= batch_view(held).push(
                                    (top.vertex@, names_view(parents@)),
                                ));
                            }
                        },
                        None => {},
                    }
                }
            }
            proof {
                assert(!stuck(w, known));
                assert(self@ == moved(w, known));
            }
        }
    }

    /// The batch of the walk: the vertexes without an id that were met,
    /// each after its parents.
    pub fn into_batch(self) -> (batch: Vec<GraphNode>)
        ensures
            batch_view(batch@) == self@.batch,
    {
        self.batch
    }
}

} // verus!
