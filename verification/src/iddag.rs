//! The graph of ids in memory, as a list of flat segments, and the
//! questions of ancestry that are answered on it.
//!
//! A flat segment is a run of consecutive ids in which every id but the
//! first has the id before it as its only parent. The first id has the
//! parents that the segment lists. The flat segments of a group follow
//! one another without a gap, so the graph is known from the list alone.

use crate::id::Group;
use crate::id::Id;
use crate::segment::Level;
use crate::segment::Segment;
use crate::segment::SegmentData;
use crate::segment::SegmentFlags;
use crate::segment::SegmentView;
use crate::segment::Span;
use vstd::prelude::*;

verus! {

/// A flat segment with its fields at hand, as it travels to clients.
#[derive(Debug, PartialEq, Eq)]
pub struct FlatSegment {
    pub low: Id,
    pub high: Id,
    pub parents: Vec<Id>,
}

/// A flat segment as a mathematical value.
pub struct FlatView {
    pub low: Id,
    pub high: Id,
    pub parents: Seq<Id>,
}

impl View for FlatSegment {
    type V = FlatView;

    open spec fn view(&self) -> FlatView {
        FlatView { low: self.low, high: self.high, parents: self.parents@ }
    }
}

impl DeepView for FlatSegment {
    type V = FlatView;

    open spec fn deep_view(&self) -> FlatView {
        self@
    }
}

impl FlatView {
    /// Whether `id` is one of the ids of the segment.
    pub open spec fn contains(self, id: Id) -> bool {
        self.low.0 <= id.0 <= self.high.0
    }

    /// What every flat segment satisfies by itself: its ids run from
    /// `low` up to `high` inside one group, and its parents come before
    /// its ids.
    pub open spec fn ok(self) -> bool {
        &&& self.low.0 <= self.high.0
        &&& self.low.wf()
        &&& self.low.spec_group() == self.high.spec_group()
        &&& forall|i: int| 0 <= i < self.parents.len()
            ==> (#[trigger] self.parents[i]).0 < self.low.0
    }
}

/// A list of flat segments.
pub type Flat = Seq<FlatView>;

/// Whether the segment `next` may follow the segment `last` in the list:
/// it starts right after `last` in the same group, or `last` is of the
/// master group and `next` starts the other group.
pub open spec fn follows(last: FlatView, next: FlatView) -> bool {
    if last.high.spec_group() == next.low.spec_group() {
        last.high.0 + 1 == next.low.0
    } else {
        last.high.spec_group() == Some(Group::Master) && next.low.0 == Group::NonMaster.spec_min()
    }
}

/// Whether some segment of `s` before the one numbered `before` holds `id`.
pub open spec fn covered_before(s: Flat, before: int, id: Id) -> bool {
    exists|j: int| 0 <= j < before && j < s.len() && (#[trigger] s[j]).contains(id)
}

/// Whether some segment of `s` holds `id`.
pub open spec fn covered(s: Flat, id: Id) -> bool {
    covered_before(s, s.len() as int, id)
}

/// What every list of flat segments of a graph satisfies.
///
/// Each segment is well-formed, and its parents are ids of segments
/// before it. The first segment starts a group, and each other segment
/// follows the one before it: the segments of a group cover the ids
/// from the first id of the group on without a gap and without an overlap.
pub open spec fn dag_wf(s: Flat) -> bool {
    &&& forall|i: int| 0 <= i < s.len() ==> (#[trigger] s[i]).ok()
    &&& forall|i: int, k: int|
        0 <= i < s.len() && 0 <= k < s[i].parents.len() ==> covered_before(
            s,
            i,
            #[trigger] s[i].parents[k],
        )
    &&& forall|i: int| 0 <= i < s.len() - 1 ==> follows(#[trigger] s[i], s[i + 1])
    &&& s.len() > 0 ==> s[0].low.0 == Group::Master.spec_min() || s[0].low.0
        == Group::NonMaster.spec_min()
}

/// The segments of a well-formed list are in the order of their ids.
pub proof fn lemma_sorted(s: Flat, i: int, j: int)
    requires
        dag_wf(s),
        0 <= i < j < s.len(),
    ensures
        s[i].high.0 < s[j].low.0,
    decreases j - i,
{
    if i + 1 < j {
        lemma_sorted(s, i, j - 1);
        assert(follows(s[j - 1], s[j]));
        assert(s[j - 1].ok());
    } else {
        assert(follows(s[i], s[i + 1]));
    }
    assert(s[i].ok());
    assert(s[j].ok());
}

/// An id is held by one segment at most.
pub proof fn lemma_one_segment(s: Flat, i: int, j: int, id: Id)
    requires
        dag_wf(s),
        0 <= i < s.len(),
        0 <= j < s.len(),
        s[i].contains(id),
        s[j].contains(id),
    ensures
        i == j,
{
    if i < j {
        lemma_sorted(s, i, j);
    } else if j < i {
        lemma_sorted(s, j, i);
    }
}

/// The number of the segment that holds `id`.
pub open spec fn segment_of(s: Flat, id: Id) -> int {
    choose|i: int| 0 <= i < s.len() && (#[trigger] s[i]).contains(id)
}

/// The segment that holds an id is the one that `segment_of` names.
pub proof fn lemma_segment_of(s: Flat, i: int, id: Id)
    requires
        dag_wf(s),
        0 <= i < s.len(),
        s[i].contains(id),
    ensures
        segment_of(s, id) == i,
        covered(s, id),
{
    let c = segment_of(s, id);
    lemma_one_segment(s, i, c, id);
}

/// The id that is free next in `group`: the one after the last segment
/// of the group, or the first id of the group where it has no segment.
pub open spec fn next_free(s: Flat, group: Group) -> int
    decreases s.len(),
{
    if s.len() == 0 {
        group.spec_min()
    } else if s.last().low.spec_group() == Some(group) {
        s.last().high.0 + 1
    } else {
        next_free(s.drop_last(), group)
    }
}

/// The parents of `id`: those that its segment lists where `id` starts
/// the segment, the id before it otherwise.
pub open spec fn parents_of(s: Flat, id: Id) -> Seq<Id> {
    let seg = s[segment_of(s, id)];
    if id == seg.low {
        seg.parents
    } else {
        seq![Id((id.0 - 1) as u64)]
    }
}

/// The first parent of `id`, if it has a parent.
pub open spec fn first_parent(s: Flat, id: Id) -> Option<Id> {
    if parents_of(s, id).len() > 0 {
        Some(parents_of(s, id)[0])
    } else {
        None
    }
}

/// The ancestor of `id` that is reached by `n` steps, each to the first
/// parent; `None` where `id` is in no segment, or a step has no parent
/// to go to.
pub open spec fn nth_first_ancestor(s: Flat, id: Id, n: nat) -> Option<Id>
    decreases n,
{
    if !covered(s, id) {
        None
    } else if n == 0 {
        Some(id)
    } else {
        match first_parent(s, id) {
            Some(p) => nth_first_ancestor(s, p, (n - 1) as nat),
            None => None,
        }
    }
}

/// Whether `a` is `d` or an ancestor of `d`.
pub open spec fn reaches(s: Flat, a: Id, d: Id) -> bool
    decreases d.0,
{
    covered(s, d) && (a == d || exists|k: int|
        0 <= k < parents_of(s, d).len() && (#[trigger] parents_of(s, d)[k]).0 < d.0 && reaches(
            s,
            a,
            parents_of(s, d)[k],
        ))
}

/// The parents of an id of a well-formed list come before it and are
/// held by segments of the list.
pub proof fn lemma_parents_of(s: Flat, id: Id)
    requires
        dag_wf(s),
        covered(s, id),
    ensures
        forall|k: int|
            0 <= k < parents_of(s, id).len() ==> (#[trigger] parents_of(s, id)[k]).0 < id.0
                && covered(s, parents_of(s, id)[k]),
{
    let i = segment_of(s, id);
    assert(s[i].ok());
    assert forall|k: int| 0 <= k < parents_of(s, id).len() implies (#[trigger] parents_of(
        s,
        id,
    )[k]).0 < id.0 && covered(s, parents_of(s, id)[k]) by {
        let p = parents_of(s, id)[k];
        if id == s[i].low {
            assert(covered_before(s, i, s[i].parents[k]));
        } else {
            assert(s[i].contains(p));
        }
    }
}

/// An ancestor is an id of the list that does not come after its descendant.
pub proof fn lemma_reaches_le(s: Flat, a: Id, d: Id)
    requires
        dag_wf(s),
        reaches(s, a, d),
    ensures
        a.0 <= d.0,
        covered(s, a),
        covered(s, d),
    decreases d.0,
{
    if a != d {
        let k = choose|k: int|
            0 <= k < parents_of(s, d).len() && (#[trigger] parents_of(s, d)[k]).0 < d.0 && reaches(
                s,
                a,
                parents_of(s, d)[k],
            );
        lemma_reaches_le(s, a, parents_of(s, d)[k]);
    }
}

/// Every id of the list is its own ancestor.
pub proof fn lemma_reaches_reflexive(s: Flat, a: Id)
    requires
        covered(s, a),
    ensures
        reaches(s, a, a),
{
}

/// Two ids of which each is an ancestor of the other are the same.
pub proof fn lemma_reaches_antisymmetric(s: Flat, a: Id, b: Id)
    requires
        dag_wf(s),
        reaches(s, a, b),
        reaches(s, b, a),
    ensures
        a == b,
{
    lemma_reaches_le(s, a, b);
    lemma_reaches_le(s, b, a);
}

/// The ancestors of an ancestor are ancestors.
pub proof fn lemma_reaches_transitive(s: Flat, a: Id, b: Id, c: Id)
    requires
        dag_wf(s),
        reaches(s, a, b),
        reaches(s, b, c),
    ensures
        reaches(s, a, c),
    decreases c.0,
{
    if b != c {
        let k = choose|k: int|
            0 <= k < parents_of(s, c).len() && (#[trigger] parents_of(s, c)[k]).0 < c.0 && reaches(
                s,
                b,
                parents_of(s, c)[k],
            );
        lemma_reaches_transitive(s, a, b, parents_of(s, c)[k]);
    }
}

/// A parent of an id is an ancestor of it.
pub proof fn lemma_parent_reaches(s: Flat, d: Id, k: int)
    requires
        dag_wf(s),
        covered(s, d),
        0 <= k < parents_of(s, d).len(),
    ensures
        reaches(s, parents_of(s, d)[k], d),
{
    lemma_parents_of(s, d);
    let p = parents_of(s, d)[k];
    lemma_reaches_reflexive(s, p);
}

/// Inside a segment, every id is an ancestor of those after it.
pub proof fn lemma_reaches_in_segment(s: Flat, i: int, a: Id, d: Id)
    requires
        dag_wf(s),
        0 <= i < s.len(),
        s[i].contains(a),
        s[i].contains(d),
        a.0 <= d.0,
    ensures
        reaches(s, a, d),
    decreases d.0 - a.0,
{
    lemma_segment_of(s, i, d);
    lemma_segment_of(s, i, a);
    if a != d {
        let p = Id((d.0 - 1) as u64);
        assert(s[i].contains(p));
        lemma_reaches_in_segment(s, i, a, p);
        assert(parents_of(s, d)[0] == p);
    }
}

/// In a well-formed list the next free id of a group comes after every
/// id of the group that a segment holds, and every id of the group
/// before it is held by a segment.
pub proof fn lemma_next_free(s: Flat, group: Group, id: Id)
    requires
        dag_wf(s),
        id.spec_group() == Some(group),
    ensures
        covered(s, id) <==> id.0 < next_free(s, group),
        group.spec_min() <= next_free(s, group) <= group.spec_max() + 1,
    decreases s.len(),
{
    if s.len() == 0 {
    } else {
        let rest = s.drop_last();
        let n = s.len() - 1;
        assert(s.last().ok());
        lemma_prefix_wf(s, n);
        lemma_next_free(rest, group, id);
        if s.last().low.spec_group() == Some(group) {
            if n > 0 {
                assert(follows(s[n - 1], s[n]));
                assert(rest.last() == s[n - 1]);
                assert(s[n - 1].ok());
                lemma_last_of_group(rest, group);
            }
            if id.0 < next_free(s, group) {
                if id.0 >= s.last().low.0 {
                    assert(s[n].contains(id));
                } else {
                    assert(covered(rest, id));
                    let j = choose|j: int| 0 <= j < rest.len() && (#[trigger] rest[j]).contains(id);
                    assert(s[j].contains(id));
                }
            }
            if covered(s, id) {
                let j = choose|j: int| 0 <= j < s.len() && (#[trigger] s[j]).contains(id);
                if j < n {
                    lemma_sorted(s, j, n);
                }
            }
        } else {
            if covered(s, id) {
                let j = choose|j: int| 0 <= j < s.len() && (#[trigger] s[j]).contains(id);
                assert(j < n);
                assert(rest[j].contains(id));
            }
            if covered(rest, id) {
                let j = choose|j: int| 0 <= j < rest.len() && (#[trigger] rest[j]).contains(id);
                assert(s[j].contains(id));
            }
        }
    }
}

/// The start of a well-formed list is well-formed.
pub proof fn lemma_prefix_wf(s: Flat, n: int)
    requires
        dag_wf(s),
        0 <= n <= s.len(),
    ensures
        dag_wf(s.take(n)),
        n == s.len() - 1 ==> s.drop_last() == s.take(n),
{
    let t = s.take(n);
    assert forall|i: int| 0 <= i < t.len() implies (#[trigger] t[i]).ok() by {
        assert(s[i].ok());
    }
    assert forall|i: int, k: int|
        0 <= i < t.len() && 0 <= k < t[i].parents.len() implies covered_before(
        t,
        i,
        #[trigger] t[i].parents[k],
    ) by {
        assert(covered_before(s, i, s[i].parents[k]));
        let j = choose|j: int|
            0 <= j < i && j < s.len() && (#[trigger] s[j]).contains(s[i].parents[k]);
        assert(t[j].contains(t[i].parents[k]));
    }
    assert forall|i: int| 0 <= i < t.len() - 1 implies follows(#[trigger] t[i], t[i + 1]) by {
        assert(follows(s[i], s[i + 1]));
    }
    if n == s.len() - 1 {
        assert(s.drop_last() =~= s.take(n));
    }
}

/// Where the list ends with a segment of the master group, or with a
/// segment of `group`, what `next_free` says of the groups follows from
/// that segment.
pub proof fn lemma_last_of_group(s: Flat, group: Group)
    requires
        dag_wf(s),
        s.len() > 0,
    ensures
        s.last().high.spec_group() == Some(group) ==> next_free(s, group) == s.last().high.0 + 1,
        s.last().high.spec_group() == Some(Group::Master) ==> next_free(s, Group::NonMaster)
            == Group::NonMaster.spec_min(),
    decreases s.len(),
{
    assert(s.last().ok());
    if s.last().high.spec_group() == Some(Group::Master) {
        let rest = s.drop_last();
        assert(next_free(s, Group::NonMaster) == next_free(rest, Group::NonMaster));
        if s.len() > 1 {
            let n = s.len() - 1;
            lemma_prefix_wf(s, n);
            assert(follows(s[n - 1], s[n]));
            assert(s[n - 1].ok());
            assert(rest.last() == s[n - 1]);
            lemma_last_of_group(rest, group);
        } else {
            assert(rest.len() == 0);
        }
    }
}

/// Walking to the first parent inside a segment goes one id down at
/// each step.
pub proof fn lemma_nth_in_segment(s: Flat, i: int, id: Id, n: nat, k: nat)
    requires
        dag_wf(s),
        0 <= i < s.len(),
        s[i].contains(id),
        k <= n,
        k <= id.0 - s[i].low.0,
    ensures
        nth_first_ancestor(s, id, n) == nth_first_ancestor(
            s,
            Id((id.0 - k) as u64),
            (n - k) as nat,
        ),
    decreases k,
{
    if k > 0 {
        lemma_segment_of(s, i, id);
        let p = Id((id.0 - 1) as u64);
        assert(s[i].contains(p));
        assert(first_parent(s, id) == Some(p));
        lemma_nth_in_segment(s, i, p, (n - 1) as nat, (k - 1) as nat);
    }
}

/// The segments of `group` among those of `s`, in their order.
pub open spec fn of_group(s: Flat, group: Group) -> Flat
    decreases s.len(),
{
    if s.len() == 0 {
        Seq::empty()
    } else if s.last().low.spec_group() == Some(group) {
        of_group(s.drop_last(), group).push(s.last())
    } else {
        of_group(s.drop_last(), group)
    }
}

/// The graph of ids, as the list of its flat segments.
pub struct IdDag {
    segments: Vec<FlatSegment>,
}

impl View for IdDag {
    type V = Flat;

    closed spec fn view(&self) -> Flat {
        self.segments.deep_view()
    }
}

impl IdDag {
    /// What every graph satisfies: see `dag_wf`.
    pub open spec fn wf(&self) -> bool {
        dag_wf(self@)
    }

    /// A graph without ids.
    pub fn new() -> (dag: IdDag)
        ensures
            dag.wf(),
            dag@.len() == 0,
    {
        let dag = IdDag { segments: Vec::new() };
        proof {
            assert(dag@.len() == dag.segments@.len());
        }
        dag
    }

    /// The number of the segment that holds `id`.
    fn find(&self, id: Id) -> (r: Option<usize>)
        requires
            self.wf(),
        ensures
            match r {
                Some(i) => i < self@.len() && self@[i as int].contains(id) && segment_of(self@, id)
                    == i && covered(self@, id) && self@[i as int] == self.segments@[i as int]@,
                None => !covered(self@, id),
            },
    {
        let ghost s = self@;
        let mut lo: usize = 0;
        let mut hi: usize = self.segments.len();
        proof {
            assert(s.len() == self.segments@.len());
        }
        while lo < hi
            invariant
                s == self@,
                dag_wf(s),
                s.len() == self.segments@.len(),
                lo <= hi <= s.len(),
                forall|j: int| 0 <= j < lo ==> (#[trigger] s[j]).high.0 < id.0,
                forall|j: int| hi <= j < s.len() ==> (#[trigger] s[j]).low.0 > id.0,
            decreases hi - lo,
        {
            let mid = lo + (hi - lo) / 2;
            let seg = &self.segments[mid];
            proof {
                assert(s[mid as int] == self.segments@[mid as int]@);
            }
            if seg.high.0 < id.0 {
                proof {
                    assert forall|j: int| 0 <= j < mid + 1 implies (#[trigger] s[j]).high.0
                        < id.0 by {
                        if j < mid {
                            lemma_sorted(s, j, mid as int);
                            assert(s[mid as int].ok());
                        }
                    }
                }
                lo = mid + 1;
            } else if seg.low.0 > id.0 {
                proof {
                    assert forall|j: int| mid <= j < s.len() implies (#[trigger] s[j]).low.0
                        > id.0 by {
                        if j > mid {
                            lemma_sorted(s, mid as int, j);
                            assert(s[mid as int].ok());
                        }
                    }
                }
                hi = mid;
            } else {
                proof {
                    lemma_segment_of(s, mid as int, id);
                }
                return Some(mid);
            }
        }
        proof {
            if covered(s, id) {
                let j = choose|j: int| 0 <= j < s.len() && (#[trigger] s[j]).contains(id);
                assert(s[j].high.0 < id.0 || s[j].low.0 > id.0);
            }
        }
        None
    }

    /// The number of the segment that holds `id`, if one does.
    pub fn segment_holding(&self, id: Id) -> (r: Option<usize>)
        requires
            self.wf(),
        ensures
            match r {
                Some(i) => i < self@.len() && self@[i as int].contains(id) && segment_of(self@, id)
                    == i && covered(self@, id),
                None => !covered(self@, id),
            },
    {
        self.find(id)
    }

    /// Whether a segment holds `id`.
    pub fn contains_id(&self, id: Id) -> (b: bool)
        requires
            self.wf(),
        ensures
            b == covered(self@, id),
    {
        self.find(id).is_some()
    }

    /// The parents of `id`; `None` exactly where no segment holds `id`.
    pub fn parent_ids(&self, id: Id) -> (r: Option<Vec<Id>>)
        requires
            self.wf(),
        ensures
            match r {
                Some(parents) => covered(self@, id) && parents@ == parents_of(self@, id),
                None => !covered(self@, id),
            },
    {
        match self.find(id) {
            None => None,
            Some(i) => {
                let seg = &self.segments[i];
                if id.0 == seg.low.0 {
                    Some(vstd::slice::slice_to_vec(seg.parents.as_slice()))
                } else {
                    let mut parents: Vec<Id> = Vec::new();
                    parents.push(Id(id.0 - 1));
                    proof {
                        assert(parents@ =~= seq![Id((id.0 - 1) as u64)]);
                    }
                    Some(parents)
                }
            },
        }
    }

    /// The id that is free next in `group`. Only flat segments are
    /// held: on the levels above 0 every id of the group is free.
    pub fn next_free_id(&self, level: Level, group: Group) -> (id: Id)
        requires
            self.wf(),
        ensures
            id.0 == (if level == 0 {
                next_free(self@, group)
            } else {
                group.spec_min()
            }),
    {
        if level != 0 {
            return group.min_id();
        }
        let ghost s = self@;
        let mut i: usize = self.segments.len();
        proof {
            assert(s.len() == self.segments@.len());
            assert(s.take(i as int) =~= s);
        }
        while i > 0
            invariant
                s == self@,
                dag_wf(s),
                s.len() == self.segments@.len(),
                i <= s.len(),
                level == 0,
                next_free(s, group) == next_free(s.take(i as int), group),
            decreases i,
        {
            let seg = &self.segments[i - 1];
            proof {
                assert(s[i - 1] == self.segments@[i - 1]@);
                assert(s.take(i as int).last() == s[i - 1]);
                assert(s.take(i as int).drop_last() =~= s.take(i - 1));
                assert(s[i - 1].ok());
            }
            if group.contains(seg.low) {
                proof {
                    assert(s.take(i as int).last().low.spec_group() == Some(group));
                    assert(next_free(s.take(i as int), group) == s[i - 1].high.0 + 1);
                }
                return Id(seg.high.0 + 1);
            }
            proof {
                assert(next_free(s.take(i as int), group) == next_free(s.take(i - 1), group));
            }
            i = i - 1;
        }
        group.min_id()
    }

    /// The flat segments of `group`, in the order of their ids.
    pub fn flat_segments(&self, group: Group) -> (r: Vec<FlatSegment>)
        requires
            self.wf(),
        ensures
            r.deep_view() == of_group(self@, group),
    {
        let ghost s = self@;
        let mut r: Vec<FlatSegment> = Vec::new();
        let mut i: usize = 0;
        proof {
            assert(s.len() == self.segments@.len());
            assert(r.deep_view() =~= of_group(s.take(0), group));
        }
        while i < self.segments.len()
            invariant
                s == self@,
                s.len() == self.segments@.len(),
                i <= s.len(),
                r.deep_view() == of_group(s.take(i as int), group),
            decreases s.len() - i,
        {
            let seg = &self.segments[i];
            proof {
                assert(s[i as int] == self.segments@[i as int]@);
                assert(s.take(i + 1).last() == s[i as int]);
                assert(s.take(i + 1).drop_last() =~= s.take(i as int));
            }
            if group.contains(seg.low) {
                let ghost before = r.deep_view();
                let copy = FlatSegment {
                    low: seg.low,
                    high: seg.high,
                    parents: vstd::slice::slice_to_vec(seg.parents.as_slice()),
                };
                r.push(copy);
                proof {
                    assert(r.deep_view() =~= before.push(s[i as int]));
                }
            }
            i = i + 1;
        }
        proof {
            assert(s.take(i as int) =~= s);
        }
        r
    }

    /// The ancestor of `id` that `n` steps reach, each to the first parent.
    #[verifier::rlimit(50)]
    pub fn first_ancestor_nth(&self, id: Id, n: u64) -> (r: Option<Id>)
        requires
            self.wf(),
        ensures
            r == nth_first_ancestor(self@, id, n as nat),
    {
        let ghost s = self@;
        let mut cur = id;
        let mut left = n;
        loop
            invariant
                s == self@,
                self.wf(),
                nth_first_ancestor(s, id, n as nat) == nth_first_ancestor(s, cur, left as nat),
            decreases cur.0,
        {
            let i = match self.find(cur) {
                Some(i) => i,
                None => { return None; },
            };
            let seg = &self.segments[i];
            let inside = cur.0 - seg.low.0;
            if left <= inside {
                proof {
                    lemma_nth_in_segment(s, i as int, cur, left as nat, left as nat);
                    let target = Id((cur.0 - left) as u64);
                    assert(s[i as int].contains(target));
                    lemma_segment_of(s, i as int, target);
                }
                return Some(Id(cur.0 - left));
            }
            proof {
                lemma_nth_in_segment(s, i as int, cur, left as nat, inside as nat);
                lemma_segment_of(s, i as int, seg.low);
                assert(s[i as int].ok());
            }
            if seg.parents.len() == 0 {
                return None;
            }
            let parent = seg.parents[0];
            proof {
                assert(first_parent(s, seg.low) == Some(parent));
                assert(parent.0 < seg.low.0);
            }
            left = left - inside - 1;
            cur = parent;
        }
    }
}

/// Whether `x` is one of `heads` or an ancestor of one of them.
pub open spec fn reached(s: Flat, heads: Seq<Id>, x: Id) -> bool {
    exists|h: int| 0 <= h < heads.len() && reaches(s, x, #[trigger] heads[h])
}

/// For each segment, the last of its ids that is reached, if any is.
pub type Marks = Seq<Option<Id>>;

/// Whether the mark of the segment of `x` is `x` or comes after it.
pub open spec fn at_least(s: Flat, marks: Marks, x: Id) -> bool {
    &&& covered(s, x)
    &&& marks[segment_of(s, x)] matches Some(m) && m.0 >= x.0
}

/// Every mark is an id of its segment that is reached.
pub open spec fn marks_sound(s: Flat, heads: Seq<Id>, marks: Marks) -> bool {
    &&& marks.len() == s.len()
    &&& forall|k: int|
        0 <= k < s.len() ==> (#[trigger] marks[k] matches Some(m) ==> s[k].contains(m) && reached(
            s,
            heads,
            m,
        ))
}

/// The first `upto` heads that are ids of the graph are marked.
pub open spec fn marks_heads(s: Flat, heads: Seq<Id>, marks: Marks, upto: int) -> bool {
    forall|h: int|
        0 <= h < upto && h < heads.len() && covered(s, #[trigger] heads[h]) ==> at_least(
            s,
            marks,
            heads[h],
        )
}

/// The parents of every marked segment from the one numbered `from` on
/// are marked.
pub open spec fn marks_closed(s: Flat, marks: Marks, from: int) -> bool {
    forall|k: int, j: int|
        from <= k < s.len() && marks[k].is_some() && 0 <= j < s[k].parents.len() ==> at_least(
            s,
            marks,
            #[trigger] s[k].parents[j],
        )
}

/// The marks with the mark of segment `k` raised to `x`, unless it is
/// `x` or comes after `x` already.
pub open spec fn raised(marks: Marks, k: int, x: Id) -> Marks {
    match marks[k] {
        Some(m) => if m.0 >= x.0 {
            marks
        } else {
            marks.update(k, Some(x))
        },
        None => marks.update(k, Some(x)),
    }
}

/// Raising a mark keeps what was marked marked.
pub proof fn lemma_raised_at_least(s: Flat, marks: Marks, k: int, x: Id, y: Id)
    requires
        dag_wf(s),
        marks.len() == s.len(),
        0 <= k < s.len(),
        s[k].contains(x),
    ensures
        at_least(s, marks, y) ==> at_least(s, raised(marks, k, x), y),
        at_least(s, raised(marks, k, x), x),
{
    lemma_segment_of(s, k, x);
    if at_least(s, marks, y) {
        let j = segment_of(s, y);
        if covered(s, y) {
            let w = choose|w: int| 0 <= w < s.len() && (#[trigger] s[w]).contains(y);
            lemma_segment_of(s, w, y);
        }
    }
}

/// Raising the mark of a segment to an id that is reached keeps the
/// marks sound, the heads marked, and the parents of the segments from
/// `from` on marked, where the segment comes before `from`.
pub proof fn lemma_raised(s: Flat, heads: Seq<Id>,
    marks: Marks, k: int, x: Id, upto: int, from: int)
    requires
        dag_wf(s),
        marks_sound(s, heads, marks),
        0 <= k < s.len(),
        s[k].contains(x),
        reached(s, heads, x),
    ensures
        marks_sound(s, heads, raised(marks, k, x)),
        marks_heads(s, heads, marks, upto) ==> marks_heads(s, heads, raised(marks, k, x), upto),
        k < from && marks_closed(s, marks, from) ==> marks_closed(s, raised(marks, k, x), from),
{
    let after = raised(marks, k, x);
    if marks_heads(s, heads, marks, upto) {
        assert forall|h: int|
            0 <= h < upto && h < heads.len() && covered(s, #[trigger] heads[h]) implies at_least(
            s,
            after,
            heads[h],
        ) by {
            lemma_raised_at_least(s, marks, k, x, heads[h]);
        }
    }
    if k < from && marks_closed(s, marks, from) {
        assert forall|i: int, j: int|
            from <= i < s.len()
                && after[i].is_some()
                && 0 <= j < s[i].parents.len() implies at_least(
            s,
            after,
            #[trigger] s[i].parents[j],
        ) by {
            assert(after[i] == marks[i]);
            lemma_raised_at_least(s, marks, k, x, s[i].parents[j]);
        }
    }
}

/// Where the heads are marked and the parents of all marked segments
/// are marked, every ancestor of what is marked is marked.
pub proof fn lemma_marks_complete(s: Flat, marks: Marks, x: Id, y: Id)
    requires
        dag_wf(s),
        marks.len() == s.len(),
        marks_closed(s, marks, 0),
        at_least(s, marks, y),
        reaches(s, x, y),
    ensures
        at_least(s, marks, x),
    decreases y.0,
{
    if x != y {
        let k = choose|k: int|
            0 <= k < parents_of(s, y).len() && (#[trigger] parents_of(s, y)[k]).0 < y.0 && reaches(
                s,
                x,
                parents_of(s, y)[k],
            );
        let p = parents_of(s, y)[k];
        let w = choose|w: int| 0 <= w < s.len() && (#[trigger] s[w]).contains(y);
        lemma_segment_of(s, w, y);
        if y == s[w].low {
            assert(at_least(s, marks, s[w].parents[k]));
        } else {
            assert(s[w].contains(p));
            lemma_segment_of(s, w, p);
        }
        lemma_marks_complete(s, marks, x, p);
    }
}

/// Whether `mark` is the last id of segment `i` that is reached: the
/// ids of the segment up to it are reached and those after it are not.
pub open spec fn mark_ok(s: Flat, heads: Seq<Id>, i: int, mark: Option<Id>) -> bool {
    match mark {
        Some(m) => s[i].contains(m) && forall|x: Id|
            s[i].contains(x) ==> (#[trigger] reached(s, heads, x) <==> x.0 <= m.0),
        None => forall|x: Id| s[i].contains(x) ==> !#[trigger] reached(s, heads, x),
    }
}

/// Sound marks under which the heads and the parents of all marked
/// segments are marked tell for every id whether it is reached.
pub proof fn lemma_marks_final(s: Flat, heads: Seq<Id>, marks: Marks, i: int)
    requires
        dag_wf(s),
        marks_sound(s, heads, marks),
        marks_heads(s, heads, marks, heads.len() as int),
        marks_closed(s, marks, 0),
        0 <= i < s.len(),
    ensures
        mark_ok(s, heads, i, marks[i]),
{
    assert forall|x: Id| s[i].contains(x) && #[trigger] reached(s, heads, x) implies at_least(
        s,
        marks,
        x,
    ) && segment_of(s, x) == i by {
        let h = choose|h: int| 0 <= h < heads.len() && reaches(s, x, #[trigger] heads[h]);
        lemma_reaches_le(s, x, heads[h]);
        lemma_marks_complete(s, marks, x, heads[h]);
        lemma_segment_of(s, i, x);
    }
    match marks[i] {
        Some(m) => {
            assert forall|x: Id| s[i].contains(x) implies (#[trigger] reached(s, heads, x) <==> x.0
                <= m.0) by {
                if x.0 <= m.0 {
                    let h = choose|h: int| 0 <= h < heads.len()
                        && reaches(s, m, #[trigger] heads[h]);
                    lemma_reaches_in_segment(s, i, x, m);
                    lemma_reaches_transitive(s, x, m, heads[h]);
                }
            }
        },
        None => {},
    }
}

impl IdDag {
    /// Raises the mark of segment `k` to `x`.
    fn raise(marks: &mut Vec<Option<Id>>, k: usize, x: Id)
        requires
            k < old(marks)@.len(),
        ensures
            final(marks)@ == raised(old(marks)@, k as int, x),
    {
        let update = match marks[k] {
            Some(m) => m.0 < x.0,
            None => true,
        };
        if update {
            marks.set(k, Some(x));
        }
    }

    /// For each segment, the last of its ids that is one of `heads` or
    /// an ancestor of one of them.
    ///
    /// The segments are gone through once from the last to the first:
    /// what a segment reaches lies in segments before it.
    #[verifier::rlimit(50)]
    pub fn reach_from(&self, heads: &[Id]) -> (marks: Vec<Option<Id>>)
        requires
            self.wf(),
        ensures
            marks@.len() == self@.len(),
            forall|i: int| 0 <= i < self@.len() ==> mark_ok(self@, heads@, i, #[trigger] marks@[i]),
    {
        let ghost s = self@;
        let n = self.segments.len();
        proof {
            assert(s.len() == self.segments@.len());
        }
        let mut marks: Vec<Option<Id>> = Vec::new();
        let mut i: usize = 0;
        while i < n
            invariant
                i <= n,
                marks@.len() == i,
                forall|k: int| 0 <= k < i ==> (#[trigger] marks@[k]).is_none(),
            decreases n - i,
        {
            marks.push(None);
            i = i + 1;
        }
        let mut h: usize = 0;
        while h < heads.len()
            invariant
                s == self@,
                self.wf(),
                n == s.len(),
                h <= heads@.len(),
                marks_sound(s, heads@, marks@),
                marks_heads(s, heads@, marks@, h as int),
                forall|k: int, j: int|
                    0 <= k < s.len() && 0 <= j < s[k].parents.len() ==> covered(
                        s,
                        #[trigger] s[k].parents[j],
                    ),
            decreases heads@.len() - h,
        {
            let head = heads[h];
            match self.find(head) {
                Some(k) => {
                    proof {
                        lemma_reaches_reflexive(s, head);
                        assert(reached(s, heads@, head));
                        lemma_raised(s, heads@, marks@, k as int, head, h as int, 0);
                        lemma_raised_at_least(s, marks@, k as int, head, head);
                    }
                    Self::raise(&mut marks, k, head);
                },
                None => {},
            }
            h = h + 1;
        }
        let mut i: usize = n;
        while i > 0
            invariant
                s == self@,
                self.wf(),
                n == s.len(),
                n == self.segments@.len(),
                i <= n,
                marks_sound(s, heads@, marks@),
                marks_heads(s, heads@, marks@, heads@.len() as int),
                marks_closed(s, marks@, i as int),
            decreases i,
        {
            let seg = &self.segments[i - 1];
            let ghost at = (i - 1) as int;
            proof {
                assert(s[at] == seg@);
                assert(s[at].ok());
            }
            match marks[i - 1] {
                None => {},
                Some(m) => {
                    let mut j: usize = 0;
                    while j < seg.parents.len()
                        invariant
                            s == self@,
                            self.wf(),
                            n == s.len(),
                            0 <= at < n,
                            at == i - 1,
                            s[at] == seg@,
                            j <= seg.parents@.len(),
                            marks@[at] == Some(m),
                            marks_sound(s, heads@, marks@),
                            marks_heads(s, heads@, marks@, heads@.len() as int),
                            marks_closed(s, marks@, i as int),
                            forall|l: int|
                                0 <= l < j ==> at_least(s, marks@, #[trigger] seg.parents@[l]),
                        decreases seg.parents@.len() - j,
                    {
                        let p = seg.parents[j];
                        proof {
                            assert(covered_before(s, at, s[at].parents[j as int]));
                            let w = choose|w: int|
                                0 <= w < at && w < s.len() && (#[trigger] s[w]).contains(p);
                            lemma_segment_of(s, w, p);
                        }
                        match self.find(p) {
                            Some(k) => {
                                proof {
                                    assert(k < at);
                                    let head = choose|head: int|
                                        0 <= head < heads@.len() && reaches(
                                            s,
                                            m,
                                            #[trigger] heads@[head],
                                        );
                                    lemma_segment_of(s, at, s[at].low);
                                    lemma_parent_reaches(s, s[at].low, j as int);
                                    lemma_reaches_in_segment(s, at, s[at].low, m);
                                    lemma_reaches_transitive(s, p, s[at].low, m);
                                    lemma_reaches_transitive(s, p, m, heads@[head]);
                                    assert(reached(s, heads@, p));
                                    lemma_raised(
                                        s,
                                        heads@,
                                        marks@,
                                        k as int,
                                        p,
                                        heads@.len() as int,
                                        i as int,
                                    );
                                    lemma_raised_at_least(s, marks@, k as int, p, p);
                                    assert forall|l: int| 0 <= l < j implies at_least(
                                        s,
                                        raised(marks@, k as int, p),
                                        #[trigger] seg.parents@[l],
                                    ) by {
                                        lemma_raised_at_least(
                                            s,
                                            marks@,
                                            k as int,
                                            p,
                                            seg.parents@[l],
                                        );
                                    }
                                    assert(raised(marks@, k as int, p)[at] == marks@[at]);
                                }
                                Self::raise(&mut marks, k, p);
                            },
                            None => {},
                        }
                        j = j + 1;
                    }
                },
            }
            proof {
                assert forall|k: int, j: int|
                    at <= k < s.len() && marks@[k].is_some() && 0 <= j
                        < s[k].parents.len() implies at_least(
                    s,
                    marks@,
                    #[trigger] s[k].parents[j],
                ) by {
                    if k == at {
                        assert(s[k].parents[j] == seg.parents@[j]);
                    }
                }
            }
            i = i - 1;
        }
        proof {
            assert forall|k: int| 0 <= k < s.len() implies mark_ok(
                s,
                heads@,
                k,
                #[trigger] marks@[k],
            ) by {
                lemma_marks_final(s, heads@, marks@, k);
            }
        }
        marks
    }

    /// Whether `ancestor` is `descendant` or an ancestor of it. Of an id
    /// that no segment holds, nothing is an ancestor, and it is the
    /// ancestor of nothing.
    pub fn is_ancestor(&self, ancestor: Id, descendant: Id) -> (b: bool)
        requires
            self.wf(),
        ensures
            b == reaches(self@, ancestor, descendant),
    {
        let i = match self.find(ancestor) {
            Some(i) => i,
            None => {
                proof {
                    if reaches(self@, ancestor, descendant) {
                        lemma_reaches_le(self@, ancestor, descendant);
                    }
                }
                return false;
            },
        };
        let mut heads: Vec<Id> = Vec::new();
        heads.push(descendant);
        let marks = self.reach_from(heads.as_slice());
        proof {
            assert(heads@ =~= seq![descendant]);
            assert(mark_ok(self@, heads@, i as int, marks@[i as int]));
            assert(reached(self@, heads@, ancestor) == reaches(self@, ancestor, descendant)) by {
                if reaches(self@, ancestor, descendant) {
                    assert(reaches(self@, ancestor, heads@[0]));
                }
            }
        }
        match marks[i] {
            Some(m) => ancestor.0 <= m.0,
            None => false,
        }
    }
}

/// How many steps, each to the first parent, lead from `h` to `id`;
/// `None` where the steps from `h` never meet `id`.
pub open spec fn chain_distance(s: Flat, h: Id, id: Id) -> Option<nat>
    decreases h.0,
{
    if !covered(s, h) || h.0 < id.0 {
        None
    } else if h == id {
        Some(0nat)
    } else {
        match first_parent(s, h) {
            Some(p) => if p.0 < h.0 {
                match chain_distance(s, p, id) {
                    Some(n) => Some(n + 1),
                    None => None,
                }
            } else {
                None
            },
            None => None,
        }
    }
}

/// What the steps to the first parent reach does not come after where
/// they start.
pub proof fn lemma_nth_le(s: Flat, id: Id, n: nat)
    requires
        dag_wf(s),
        nth_first_ancestor(s, id, n).is_some(),
    ensures
        nth_first_ancestor(s, id, n).unwrap().0 + n <= id.0,
        covered(s, nth_first_ancestor(s, id, n).unwrap()),
    decreases n,
{
    if n > 0 {
        lemma_parents_of(s, id);
        let p = first_parent(s, id).unwrap();
        assert(parents_of(s, id)[0] == p);
        lemma_nth_le(s, p, (n - 1) as nat);
    }
}

/// Where `n` steps, each to the first parent, lead from `h` to `a`,
/// the distance from `h` to `a` is `n`.
pub proof fn lemma_distance_of_nth(s: Flat, h: Id, n: nat, a: Id)
    requires
        dag_wf(s),
        nth_first_ancestor(s, h, n) == Some(a),
    ensures
        chain_distance(s, h, a) == Some(n),
    decreases n,
{
    if n > 0 {
        lemma_parents_of(s, h);
        let p = first_parent(s, h).unwrap();
        assert(parents_of(s, h)[0] == p);
        lemma_nth_le(s, p, (n - 1) as nat);
        lemma_distance_of_nth(s, p, (n - 1) as nat, a);
    }
}

/// Where the distance from `h` to `a` is `n`, `n` steps, each to the
/// first parent, lead from `h` to `a`.
pub proof fn lemma_nth_of_distance(s: Flat, h: Id, a: Id)
    requires
        dag_wf(s),
        chain_distance(s, h, a).is_some(),
    ensures
        nth_first_ancestor(s, h, chain_distance(s, h, a).unwrap()) == Some(a),
    decreases h.0,
{
    if h != a {
        let p = first_parent(s, h).unwrap();
        lemma_nth_of_distance(s, p, a);
    }
}

/// Inside a segment, the distance to an id goes down by one at each step.
pub proof fn lemma_distance_in_segment(s: Flat, i: int, h: Id, id: Id, k: nat)
    requires
        dag_wf(s),
        0 <= i < s.len(),
        s[i].contains(h),
        k <= h.0 - s[i].low.0,
        id.0 <= h.0 - k,
    ensures
        chain_distance(s, h, id) == match chain_distance(s, Id((h.0 - k) as u64), id) {
            Some(n) => Some(n + k),
            None => None,
        },
    decreases k,
{
    lemma_segment_of(s, i, h);
    if k > 0 {
        let p = Id((h.0 - 1) as u64);
        assert(s[i].contains(p));
        assert(first_parent(s, h) == Some(p));
        lemma_distance_in_segment(s, i, p, id, (k - 1) as nat);
    }
}

/// The place of an id: a vertex that is known by name, a head or an
/// anchor, and how many steps, each to the first parent, lead from it
/// to the id.
pub struct Location<T> {
    pub descendant: T,
    pub distance: u64,
}

/// The better of two places of one id: the one with fewer steps, and
/// the first where the steps are as many.
pub open spec fn better(first: Option<(Id, nat)>, second: Option<(Id, nat)>) -> Option<(Id, nat)> {
    match (first, second) {
        (Some(a), Some(b)) => if b.1 < a.1 {
            second
        } else {
            first
        },
        (Some(_), None) => first,
        (None, _) => second,
    }
}

/// The place of `id` relative to `heads`: the head from which the fewest
/// steps, each to the first parent, lead to `id`, with their number; of
/// several such heads the first in `heads`. `None` where the steps lead
/// from no head to `id`.
pub open spec fn location_from(s: Flat, heads: Seq<Id>, id: Id) -> Option<(Id, nat)>
    decreases heads.len(),
{
    if heads.len() == 0 {
        None
    } else {
        better(
            location_from(s, heads.drop_last(), id),
            match chain_distance(s, heads.last(), id) {
                Some(n) => Some((heads.last(), n)),
                None => None,
            },
        )
    }
}

/// Where `n` steps, each to the first parent, lead from `head` to `a`,
/// the place of `a` relative to `head` alone is `head` and `n`.
pub proof fn lemma_location_of_nth(s: Flat, head: Id, n: nat, a: Id)
    requires
        dag_wf(s),
        nth_first_ancestor(s, head, n) == Some(a),
    ensures
        location_from(s, seq![head], a) == Some((head, n)),
{
    lemma_distance_of_nth(s, head, n, a);
    let heads = seq![head];
    assert(heads.drop_last() =~= Seq::<Id>::empty());
    assert(location_from(s, heads.drop_last(), a).is_none());
    assert(heads.last() == head);
}

impl IdDag {
    /// How many steps, each to the first parent, lead from `head` to `id`.
    #[verifier::rlimit(50)]
    pub fn distance_from(&self, head: Id, id: Id) -> (r: Option<u64>)
        requires
            self.wf(),
        ensures
            match r {
                Some(n) => chain_distance(self@, head, id) == Some(n as nat),
                None => chain_distance(self@, head, id).is_none(),
            },
    {
        let ghost s = self@;
        let mut cur = head;
        let mut steps: u64 = 0;
        loop
            invariant
                s == self@,
                self.wf(),
                cur.0 <= head.0,
                steps <= head.0 - cur.0,
                chain_distance(s, head, id) == match chain_distance(s, cur, id) {
                    Some(n) => Some((n + steps) as nat),
                    None => None,
                },
            decreases cur.0,
        {
            if cur.0 < id.0 {
                return None;
            }
            let i = match self.find(cur) {
                Some(i) => i,
                None => { return None; },
            };
            let seg = &self.segments[i];
            if seg.low.0 <= id.0 {
                proof {
                    lemma_distance_in_segment(s, i as int, cur, id, (cur.0 - id.0) as nat);
                    assert(s[i as int].contains(id));
                    lemma_segment_of(s, i as int, id);
                }
                return Some(steps + (cur.0 - id.0));
            }
            proof {
                lemma_distance_in_segment(s, i as int, cur, id, (cur.0 - seg.low.0) as nat);
                lemma_segment_of(s, i as int, seg.low);
                assert(s[i as int].ok());
            }
            if seg.parents.len() == 0 {
                return None;
            }
            let parent = seg.parents[0];
            proof {
                assert(first_parent(s, seg.low) == Some(parent));
                assert(parent.0 < seg.low.0);
            }
            steps = steps + (cur.0 - seg.low.0) + 1;
            cur = parent;
        }
    }

    /// The place of `id` relative to `heads`: see `location_from`.
    pub fn to_first_ancestor_nth(&self, id: Id, heads: &[Id]) -> (r: Option<(Id, u64)>)
        requires
            self.wf(),
        ensures
            match r {
                Some((head, n)) => location_from(self@, heads@, id) == Some((head, n as nat)),
                None => location_from(self@, heads@, id).is_none(),
            },
    {
        let ghost s = self@;
        let mut best: Option<(Id, u64)> = None;
        let mut i: usize = 0;
        proof {
            assert(heads@.take(0) =~= Seq::<Id>::empty());
        }
        while i < heads.len()
            invariant
                s == self@,
                self.wf(),
                i <= heads@.len(),
                match best {
                    Some((head, n)) => location_from(s, heads@.take(i as int), id) == Some(
                        (head, n as nat),
                    ),
                    None => location_from(s, heads@.take(i as int), id).is_none(),
                },
            decreases heads@.len() - i,
        {
            proof {
                assert(heads@.take(i + 1).drop_last() =~= heads@.take(i as int));
                assert(heads@.take(i + 1).last() == heads@[i as int]);
            }
            match self.distance_from(heads[i], id) {
                None => {},
                Some(n) => {
                    let replace = match best {
                        Some((_, m)) => n < m,
                        None => true,
                    };
                    if replace {
                        best = Some((heads[i], n));
                    }
                },
            }
            i = i + 1;
        }
        proof {
            assert(heads@.take(i as int) =~= heads@);
        }
        best
    }
}

/// Why a flat segment cannot join the graph.
#[derive(Clone, Copy, Debug, PartialEq, Eq, Structural)]
pub enum DagError {
    /// The segment is not well-formed by itself.
    BadSegment,
    /// The segment does not start at the id that is free next in its group.
    NotNextFree,
    /// A parent of the segment is an id of no segment.
    ParentNotFound,
}

/// How many of the segments of `s` are of the master group.
pub open spec fn master_count(s: Flat) -> int
    decreases s.len(),
{
    if s.len() == 0 {
        0
    } else if s.last().low.spec_group() == Some(Group::Master) {
        s.len() as int
    } else {
        master_count(s.drop_last())
    }
}

/// Where a segment of `group` joins the list: after the segments of the
/// master group, or at the end.
pub open spec fn place_for(s: Flat, group: Group) -> int {
    match group {
        Group::Master => master_count(s),
        Group::NonMaster => s.len() as int,
    }
}

/// The count of the segments of the master group is a place in the list.
pub proof fn lemma_master_count_bounds(s: Flat)
    ensures
        0 <= master_count(s) <= s.len(),
    decreases s.len(),
{
    if s.len() > 0 {
        lemma_master_count_bounds(s.drop_last());
    }
}

/// In a well-formed list the segments of the master group come first.
pub proof fn lemma_master_first(s: Flat, i: int)
    requires
        dag_wf(s),
        0 <= i < s.len(),
    ensures
        s[i].low.spec_group() == (if i < master_count(s) {
            Some(Group::Master)
        } else {
            Some(Group::NonMaster)
        }),
    decreases s.len(),
{
    let n = s.len() - 1;
    let rest = s.drop_last();
    lemma_master_count_bounds(rest);
    assert(s[n].ok());
    assert(s[i].ok());
    if s.last().low.spec_group() == Some(Group::Master) {
        if i < n {
            lemma_sorted(s, i, n);
        }
    } else {
        if i < n {
            lemma_prefix_wf(s, n);
            assert(rest[i] == s[i]);
            lemma_master_first(rest, i);
        }
    }
}

/// The id that is free next in the master group comes after the last
/// segment of that group.
pub proof fn lemma_master_next_free(s: Flat)
    requires
        dag_wf(s),
    ensures
        next_free(s, Group::Master) == (if master_count(s) > 0 {
            s[master_count(s) - 1].high.0 + 1
        } else {
            Group::Master.spec_min()
        }),
    decreases s.len(),
{
    if s.len() > 0 {
        let n = s.len() - 1;
        let rest = s.drop_last();
        lemma_master_count_bounds(rest);
        if s.last().low.spec_group() != Some(Group::Master) {
            lemma_prefix_wf(s, n);
            lemma_master_next_free(rest);
            if master_count(s) > 0 {
                assert(rest[master_count(s) - 1] == s[master_count(s) - 1]);
            }
        }
    }
}

/// The first segment of the non-master group starts that group.
pub proof fn lemma_non_master_start(s: Flat)
    requires
        dag_wf(s),
        master_count(s) < s.len(),
    ensures
        s[master_count(s)].low.0 == Group::NonMaster.spec_min(),
{
    let m = master_count(s);
    lemma_master_count_bounds(s);
    lemma_master_first(s, m);
    assert(s[m].ok());
    if m > 0 {
        lemma_master_first(s, m - 1);
        assert(follows(s[m - 1], s[m]));
        assert(s[m - 1].ok());
    }
}

/// Why `seg` cannot join the list `s`, if it cannot.
pub open spec fn join_error(s: Flat, seg: FlatView) -> Option<DagError> {
    if !seg.ok() {
        Some(DagError::BadSegment)
    } else if seg.low.0 != next_free(s, seg.low.spec_group().unwrap()) {
        Some(DagError::NotNextFree)
    } else if exists|k: int| 0 <= k < seg.parents.len() && !covered(s, #[trigger] seg.parents[k]) {
        Some(DagError::ParentNotFound)
    } else {
        None
    }
}

/// The list after `seg` joined it.
pub open spec fn joined(s: Flat, seg: FlatView) -> Flat {
    s.insert(place_for(s, seg.low.spec_group().unwrap()), seg)
}

/// What holds of the place at which a segment joins a well-formed list:
/// the segments before it are of the master group or of the group of
/// the segment, those after it of the non-master group; the segment
/// follows the one before the place, and the one at the place follows it.
pub proof fn lemma_place(s: Flat, seg: FlatView)
    requires
        dag_wf(s),
        join_error(s, seg).is_none(),
    ensures
        0 <= place_for(s, seg.low.spec_group().unwrap()) <= s.len(),
        place_for(s, seg.low.spec_group().unwrap()) > 0 ==> follows(
            s[place_for(s, seg.low.spec_group().unwrap()) - 1],
            seg,
        ),
        place_for(s, seg.low.spec_group().unwrap()) < s.len() ==> follows(
            seg,
            s[place_for(s, seg.low.spec_group().unwrap())],
        ) && seg.low.spec_group() == Some(Group::Master),
        place_for(s, seg.low.spec_group().unwrap()) == 0 ==> seg.low.0 == Group::Master.spec_min()
            || seg.low.0 == Group::NonMaster.spec_min(),
        forall|j: int|
            place_for(s, seg.low.spec_group().unwrap()) <= j < s.len() ==> (
            #[trigger] s[j]).low.spec_group() == Some(Group::NonMaster),
{
    let group = seg.low.spec_group().unwrap();
    let pos = place_for(s, group);
    lemma_master_count_bounds(s);
    lemma_master_next_free(s);
    if s.len() > 0 {
        lemma_last_of_group(s, group);
        assert(s.last().ok());
    }
    if pos < s.len() {
        lemma_non_master_start(s);
        lemma_master_first(s, pos);
        assert(s[pos].ok());
    }
    if pos > 0 {
        lemma_master_first(s, pos - 1);
        assert(s[pos - 1].ok());
        if group == Group::NonMaster {
            assert(s[pos - 1] == s.last());
        }
    }
    assert forall|j: int| pos <= j < s.len() implies (#[trigger] s[j]).low.spec_group() == Some(
        Group::NonMaster,
    ) by {
        lemma_master_first(s, j);
    }
}

/// The ids of a list that a segment joined are those of before and
/// those of the segment.
pub proof fn lemma_joined_covered(s: Flat, seg: FlatView, id: Id)
    requires
        0 <= place_for(s, seg.low.spec_group().unwrap()) <= s.len(),
    ensures
        covered(joined(s, seg), id) <==> covered(s, id) || seg.contains(id),
{
    let pos = place_for(s, seg.low.spec_group().unwrap());
    let t = joined(s, seg);
    if covered(t, id) {
        let j = choose|j: int| 0 <= j < t.len() && (#[trigger] t[j]).contains(id);
        if j < pos {
            assert(s[j].contains(id));
        } else if j > pos {
            assert(s[j - 1].contains(id));
        }
    }
    if covered(s, id) {
        let j = choose|j: int| 0 <= j < s.len() && (#[trigger] s[j]).contains(id);
        if j < pos {
            assert(t[j].contains(id));
        } else {
            assert(t[j + 1].contains(id));
        }
    }
    if seg.contains(id) {
        assert(t[pos].contains(id));
    }
}

/// In a list that a segment joined, the parents of every segment are
/// ids of segments before it.
pub proof fn lemma_joined_parents(s: Flat, seg: FlatView, i: int, k: int)
    requires
        dag_wf(s),
        join_error(s, seg).is_none(),
        0 <= i < joined(s, seg).len(),
        0 <= k < joined(s, seg)[i].parents.len(),
    ensures
        covered_before(joined(s, seg), i, joined(s, seg)[i].parents[k]),
{
    let group = seg.low.spec_group().unwrap();
    let pos = place_for(s, group);
    let t = joined(s, seg);
    lemma_place(s, seg);
    let p = t[i].parents[k];
    if i < pos {
        assert(t[i] == s[i]);
        assert(covered_before(s, i, s[i].parents[k]));
        let j = choose|j: int| 0 <= j < i && j < s.len() && (#[trigger] s[j]).contains(p);
        assert(t[j].contains(p));
    } else if i > pos {
        assert(t[i] == s[i - 1]);
        assert(covered_before(s, i - 1, s[i - 1].parents[k]));
        let j = choose|j: int| 0 <= j < i - 1 && j < s.len() && (#[trigger] s[j]).contains(p);
        if j < pos {
            assert(t[j].contains(p));
        } else {
            assert(t[j + 1].contains(p));
        }
    } else {
        assert(covered(s, seg.parents[k]));
        let j = choose|j: int| 0 <= j < s.len() && (#[trigger] s[j]).contains(p);
        if j >= pos {
            assert(s[j].low.spec_group() == Some(Group::NonMaster));
            assert(s[j].ok());
            assert(seg.low.spec_group() == Some(Group::Master));
        }
        assert(t[j].contains(p));
    }
}

/// A segment that may join a well-formed list leaves it well-formed,
/// and the ids of the list are those of before and those of the segment.
pub proof fn lemma_joined(s: Flat, seg: FlatView)
    requires
        dag_wf(s),
        join_error(s, seg).is_none(),
    ensures
        dag_wf(joined(s, seg)),
        forall|id: Id|
            #[trigger] covered(joined(s, seg), id) <==> covered(s, id) || seg.contains(id),
{
    let group = seg.low.spec_group().unwrap();
    let pos = place_for(s, group);
    let t = joined(s, seg);
    lemma_place(s, seg);
    assert forall|i: int| 0 <= i < t.len() implies (#[trigger] t[i]).ok() by {
        if i < pos {
            assert(t[i] == s[i]);
            assert(s[i].ok());
        } else if i > pos {
            assert(t[i] == s[i - 1]);
            assert(s[i - 1].ok());
        }
    }
    assert forall|id: Id| #[trigger] covered(t, id) <==> covered(s, id) || seg.contains(id) by {
        lemma_joined_covered(s, seg, id);
    }
    assert forall|i: int, k: int|
        0 <= i < t.len() && 0 <= k < t[i].parents.len() implies covered_before(
        t,
        i,
        #[trigger] t[i].parents[k],
    ) by {
        lemma_joined_parents(s, seg, i, k);
    }
    assert forall|i: int| 0 <= i < t.len() - 1 implies follows(#[trigger] t[i], t[i + 1]) by {
        if i + 1 < pos {
            assert(t[i] == s[i] && t[i + 1] == s[i + 1]);
            assert(follows(s[i], s[i + 1]));
        } else if i > pos {
            assert(t[i] == s[i - 1] && t[i + 1] == s[i]);
            assert(follows(s[i - 1], s[i]));
        } else if i + 1 == pos {
            assert(t[i] == s[i]);
        } else {
            assert(t[i + 1] == s[pos]);
        }
    }
    if pos > 0 {
        assert(t[0] == s[0]);
    }
}

/// After a segment joined the list, the id after it is free next in
/// its group, and the other group is as it was.
pub proof fn lemma_joined_next_free(s: Flat, seg: FlatView, g: Group)
    requires
        dag_wf(s),
        join_error(s, seg).is_none(),
    ensures
        next_free(joined(s, seg), g) == (if Some(g) == seg.low.spec_group() {
            seg.high.0 + 1
        } else {
            next_free(s, g)
        }),
    decreases s.len(),
{
    let group = seg.low.spec_group().unwrap();
    let pos = place_for(s, group);
    let t = joined(s, seg);
    lemma_master_count_bounds(s);
    if pos == s.len() {
        assert(t.drop_last() =~= s);
        assert(t.last() == seg);
    } else {
        let n = s.len() - 1;
        let rest = s.drop_last();
        lemma_prefix_wf(s, n);
        lemma_master_first(s, n);
        assert(s[n].ok());
        assert(group == Group::Master);
        assert(master_count(rest) == master_count(s));
        assert(next_free(rest, Group::Master) == next_free(s, Group::Master));
        assert(join_error(rest, seg).is_none()) by {
            assert forall|k: int| 0 <= k < seg.parents.len() implies covered(
                rest,
                #[trigger] seg.parents[k],
            ) by {
                let p = seg.parents[k];
                assert(covered(s, p));
                let j = choose|j: int| 0 <= j < s.len() && (#[trigger] s[j]).contains(p);
                assert(rest[j].contains(p));
            }
        }
        lemma_joined_next_free(rest, seg, g);
        assert(t.drop_last() =~= joined(rest, seg));
        assert(t.last() == s[n]);
        assert(next_free(t, g) == (if s[n].low.spec_group() == Some(g) {
            s[n].high.0 + 1
        } else {
            next_free(t.drop_last(), g)
        }));
    }
}

/// Whether all of `parents` come before `low`.
fn parents_before(parents: &Vec<Id>, low: Id) -> (b: bool)
    ensures
        b == forall|i: int| 0 <= i < parents@.len() ==> (#[trigger] parents@[i]).0 < low.0,
{
    let mut i: usize = 0;
    while i < parents.len()
        invariant
            i <= parents@.len(),
            forall|j: int| 0 <= j < i ==> (#[trigger] parents@[j]).0 < low.0,
        decreases parents@.len() - i,
    {
        if parents[i].0 >= low.0 {
            return false;
        }
        i = i + 1;
    }
    true
}

impl IdDag {
    /// Whether every one of `ids` is held by a segment.
    pub fn contains_all(&self, ids: &Vec<Id>) -> (b: bool)
        requires
            self.wf(),
        ensures
            b == forall|k: int| 0 <= k < ids@.len() ==> covered(self@, #[trigger] ids@[k]),
    {
        let mut k: usize = 0;
        while k < ids.len()
            invariant
                self.wf(),
                k <= ids@.len(),
                forall|j: int| 0 <= j < k ==> covered(self@, #[trigger] ids@[j]),
            decreases ids@.len() - k,
        {
            if !self.contains_id(ids[k]) {
                return false;
            }
            k = k + 1;
        }
        true
    }

    /// Tells why `seg` cannot join the graph, if it cannot.
    pub fn check_join(&self, seg: &FlatSegment) -> (r: Result<(), DagError>)
        requires
            self.wf(),
        ensures
            match r {
                Ok(()) => join_error(self@, seg@).is_none(),
                Err(e) => join_error(self@, seg@) == Some(e),
            },
    {
        let group = match seg.low.group() {
            Some(g) => g,
            None => { return Err(DagError::BadSegment); },
        };
        if seg.low.0 > seg.high.0 || !group.contains(seg.high) {
            return Err(DagError::BadSegment);
        }
        if !parents_before(&seg.parents, seg.low) {
            proof {
                assert(!seg@.ok());
            }
            return Err(DagError::BadSegment);
        }
        proof {
            assert(seg@.ok());
        }
        if self.next_free_id(0, group).0 != seg.low.0 {
            return Err(DagError::NotNextFree);
        }
        if !self.contains_all(&seg.parents) {
            return Err(DagError::ParentNotFound);
        }
        Ok(())
    }

    /// Where a segment of `group` joins the list of segments.
    fn place(&self, group: Group) -> (pos: usize)
        requires
            self.wf(),
        ensures
            pos == place_for(self@, group),
            pos <= self.segments@.len(),
    {
        let ghost s = self@;
        let mut pos: usize = self.segments.len();
        proof {
            assert(s.len() == self.segments@.len());
            assert(s.take(pos as int) =~= s);
        }
        match group {
            Group::NonMaster => {},
            Group::Master => {
                while pos > 0 && !Group::Master.contains(self.segments[pos - 1].low)
                    invariant
                        s == self@,
                        dag_wf(s),
                        s.len() == self.segments@.len(),
                        pos <= s.len(),
                        master_count(s) == master_count(s.take(pos as int)),
                    decreases pos,
                {
                    proof {
                        assert(s[pos - 1] == self.segments@[pos - 1]@);
                        assert(s.take(pos as int).last() == s[pos - 1]);
                        assert(s.take(pos as int).drop_last() =~= s.take(pos - 1));
                        assert(s[pos - 1].ok());
                    }
                    pos = pos - 1;
                }
                proof {
                    if pos > 0 {
                        assert(s[pos - 1] == self.segments@[pos - 1]@);
                        assert(s.take(pos as int).last() == s[pos - 1]);
                    }
                }
            },
        }
        pos
    }

    /// Adds the flat segment `seg` to the graph, unless `join_error`
    /// says why not. A segment of the master group comes to stand after
    /// the segments of that group, one of the other group at the end.
    pub fn insert_flat_segment(&mut self, seg: FlatSegment) -> (r: Result<(), DagError>)
        requires
            old(self).wf(),
        ensures
            final(self).wf(),
            match r {
                Ok(()) => join_error(old(self)@, seg@).is_none() && final(self)@ == joined(
                    old(self)@,
                    seg@,
                ),
                Err(e) => join_error(old(self)@, seg@) == Some(e) && final(self)@ == old(self)@,
            },
    {
        let ghost s = self@;
        match self.check_join(&seg) {
            Ok(()) => {},
            Err(e) => { return Err(e); },
        }
        let group = match seg.low.group() {
            Some(g) => g,
            None => { return Err(DagError::BadSegment); },
        };
        let pos = self.place(group);
        proof {
            lemma_joined(s, seg@);
        }
        let ghost view = seg@;
        self.segments.insert(pos, seg);
        proof {
            assert(self@ =~= joined(s, view));
        }
        Ok(())
    }
}

/// Whether `ids` are in ascending order, each once.
pub open spec fn ascending(ids: Seq<Id>) -> bool {
    forall|i: int, j: int| 0 <= i < j < ids.len() ==> (#[trigger] ids[i]).0 < (#[trigger] ids[j]).0
}

/// Puts `id` into the ascending list `ids`, unless it is there.
pub fn insert_ascending(ids: &mut Vec<Id>, id: Id)
    requires
        ascending(old(ids)@),
    ensures
        ascending(final(ids)@),
        forall|x: Id| #[trigger] final(ids)@.contains(x) <==> old(ids)@.contains(x) || x == id,
{
    let ghost before = ids@;
    let mut at: usize = 0;
    while at < ids.len() && ids[at].0 < id.0
        invariant
            ids@ == before,
            at <= before.len(),
            forall|j: int| 0 <= j < at ==> (#[trigger] before[j]).0 < id.0,
        decreases before.len() - at,
    {
        at = at + 1;
    }
    if at < ids.len() && ids[at].0 == id.0 {
        proof {
            assert(before[at as int] == id);
            assert forall|x: Id| #[trigger] before.contains(x) <==> before.contains(x)
                || x == id by {}
        }
        return ;
    }
    ids.insert(at, id);
    proof {
        let after = ids@;
        assert forall|i: int, j: int| 0 <= i < j < after.len() implies (#[trigger] after[i]).0 < (
        #[trigger] after[j]).0 by {
            if j < at {
                assert(after[i] == before[i] && after[j] == before[j]);
            } else if j == at {
                assert(after[i] == before[i]);
            } else if i == at {
                assert(after[j] == before[j - 1]);
                if j - 1 > at {
                    assert(before[at as int].0 < before[j - 1].0);
                }
            } else if i < at {
                assert(after[i] == before[i] && after[j] == before[j - 1]);
                if i < j - 1 {
                    assert(before[i].0 < before[j - 1].0);
                }
            } else {
                assert(after[i] == before[i - 1] && after[j] == before[j - 1]);
            }
        }
        assert forall|x: Id| #[trigger] after.contains(x) <==> before.contains(x) || x == id by {
            if after.contains(x) {
                let j = choose|j: int| 0 <= j < after.len() && after[j] == x;
                if j < at {
                    assert(before[j] == x);
                } else if j > at {
                    assert(before[j - 1] == x);
                }
            }
            if before.contains(x) {
                let j = choose|j: int| 0 <= j < before.len() && before[j] == x;
                if j < at {
                    assert(after[j] == x);
                } else {
                    assert(after[j + 1] == x);
                }
            }
            if x == id {
                assert(after[at as int] == x);
            }
        }
    }
}

/// Whether `id` is a parent, the head or a root of one of the first
/// `upto` of the segments `segs`.
pub open spec fn is_anchor(segs: Flat, upto: int, id: Id) -> bool {
    exists|i: int|
        0 <= i < upto && i < segs.len() && ((#[trigger] segs[i]).parents.contains(id) || id
            == segs[i].high || (segs[i].parents.len() == 0 && id == segs[i].low))
}

/// The parents, the heads and the roots of `segs`, in ascending order
/// and each once: the ids that a client has to know by name in order to
/// make use of the segments.
pub fn parents_head_and_roots(segs: &Vec<FlatSegment>) -> (ids: Vec<Id>)
    ensures
        ascending(ids@),
        forall|x: Id|
            #[trigger] ids@.contains(x) <==> is_anchor(segs.deep_view(), segs@.len() as int, x),
{
    let ghost all = segs.deep_view();
    let mut ids: Vec<Id> = Vec::new();
    let mut i: usize = 0;
    proof {
        assert(all.len() == segs@.len());
    }
    while i < segs.len()
        invariant
            all == segs.deep_view(),
            all.len() == segs@.len(),
            i <= segs@.len(),
            ascending(ids@),
            forall|x: Id| #[trigger] ids@.contains(x) <==> is_anchor(all, i as int, x),
        decreases segs@.len() - i,
    {
        let seg = &segs[i];
        let ghost start = ids@;
        proof {
            assert(all[i as int] == seg@);
        }
        let mut k: usize = 0;
        while k < seg.parents.len()
            invariant
                k <= seg.parents@.len(),
                ascending(ids@),
                forall|x: Id|
                    #[trigger] ids@.contains(x) <==> start.contains(x) || exists|j: int|
                        0 <= j < k && seg.parents@[j] == x,
            decreases seg.parents@.len() - k,
        {
            let ghost before = ids@;
            insert_ascending(&mut ids, seg.parents[k]);
            proof {
                assert forall|x: Id| #[trigger] ids@.contains(x) <==> start.contains(x) || exists|
                    j: int,
                | 0 <= j < k + 1 && seg.parents@[j] == x by {
                    if x == seg.parents@[k as int] {
                        assert(seg.parents@[k as int] == x);
                    }
                    if before.contains(x) {
                    }
                }
            }
            k = k + 1;
        }
        insert_ascending(&mut ids, seg.high);
        if seg.parents.len() == 0 {
            insert_ascending(&mut ids, seg.low);
        }
        proof {
            assert forall|x: Id| #[trigger] ids@.contains(x) <==> is_anchor(all, i + 1, x) by {
                let here = all[i as int].parents.contains(x) || x == all[i as int].high || (
                all[i as int].parents.len() == 0 && x == all[i as int].low);
                if is_anchor(all, i + 1, x) {
                    let w = choose|w: int|
                        0 <= w < i + 1 && w < all.len() && ((#[trigger] all[w]).parents.contains(x)
                            || x == all[w].high || (all[w].parents.len() == 0 && x == all[w].low));
                    if w < i {
                        assert(is_anchor(all, i as int, x));
                    } else {
                        if all[w].parents.contains(x) {
                            let j = choose|j: int|
                                0 <= j < all[w].parents.len() && all[w].parents[j] == x;
                            assert(seg.parents@[j] == x);
                        }
                    }
                }
                if ids@.contains(x) {
                    if start.contains(x) {
                        assert(is_anchor(all, i as int, x));
                        let w = choose|w: int|
                            0 <= w < i && w < all.len() && ((#[trigger] all[w]).parents.contains(x)
                                || x == all[w].high || (all[w].parents.len() == 0 && x
                                == all[w].low));
                        assert(all[w].parents.contains(x) || x == all[w].high || (
                        all[w].parents.len() == 0 && x == all[w].low));
                    } else {
                        assert(here) by {
                            if exists|j: int| 0 <= j < seg.parents@.len() && seg.parents@[j] == x {
                                let j = choose|j: int|
                                    0 <= j < seg.parents@.len() && seg.parents@[j] == x;
                                assert(all[i as int].parents[j] == x);
                            }
                        }
                        assert(all[i as int].parents.contains(x) || x == all[i as int].high || (
                        all[i as int].parents.len() == 0 && x == all[i as int].low));
                    }
                }
            }
        }
        i = i + 1;
    }
    ids
}

/// Whether `id` is `new` or an ancestor of it, and neither `old` nor
/// an ancestor of `old`.
pub open spec fn gained(s: Flat, old: Id, new: Id, id: Id) -> bool {
    reaches(s, id, new) && !reaches(s, id, old)
}

/// Whether `pieces` are the ids that `new` has gained over `old`, cut
/// along the segments of `s`: one piece at most from each segment, in
/// the order of the segments, and each with the parents of its first id.
pub open spec fn is_gain(s: Flat, old: Id, new: Id, pieces: Flat) -> bool {
    &&& forall|id: Id| #[trigger] covered(pieces, id) <==> gained(s, old, new, id)
    &&& forall|j: int|
        0 <= j < pieces.len() ==> {
            let p = #[trigger] pieces[j];
            &&& p.low.0 <= p.high.0
            &&& covered(s, p.low)
            &&& covered(s, p.high)
            &&& segment_of(s, p.low) == segment_of(s, p.high)
            &&& p.parents == parents_of(s, p.low)
        }
    &&& forall|i: int, j: int|
        0 <= i < j < pieces.len() ==> segment_of(s, (#[trigger] pieces[i]).low) < segment_of(
            s,
            (#[trigger] pieces[j]).low,
        )
}

/// Whether `p` holds exactly the ids of segment `at` that `new` has
/// gained over `old`, with the parents of the first of them.
#[verifier::opaque]
pub open spec fn piece_ok(s: Flat, old: Id, new: Id, at: int, p: FlatView) -> bool {
    &&& s[at].contains(p.low)
    &&& s[at].contains(p.high)
    &&& p.low.0 <= p.high.0
    &&& p.parents == parents_of(s, p.low)
    &&& forall|x: Id| s[at].contains(x) ==> (p.contains(x) <==> #[trigger] gained(s, old, new, x))
}

/// Whether `new` has gained no id of segment `at` over `old`.
#[verifier::opaque]
pub open spec fn no_piece(s: Flat, old: Id, new: Id, at: int) -> bool {
    forall|x: Id| s[at].contains(x) ==> !#[trigger] gained(s, old, new, x)
}

impl IdDag {
    /// The ids of segment `k` that `new` has gained over `old`, given
    /// the last id of the segment that each of the two reaches.
    fn piece_at(
        &self,
        k: usize,
        old_mark: Option<Id>,
        new_mark: Option<Id>,
        Ghost(old): Ghost<Id>,
        Ghost(new): Ghost<Id>,
    ) -> (r: Option<FlatSegment>)
        requires
            self.wf(),
            k < self@.len(),
            mark_ok(self@, seq![old], k as int, old_mark),
            mark_ok(self@, seq![new], k as int, new_mark),
        ensures
            match r {
                Some(p) => piece_ok(self@, old, new, k as int, p@),
                None => no_piece(self@, old, new, k as int),
            },
    {
        let ghost s = self@;
        let ghost at = k as int;
        proof {
            reveal(piece_ok);
            reveal(no_piece);
            assert(s.len() == self.segments@.len());
            assert forall|x: Id| #[trigger] reached(s, seq![old], x) == reaches(s, x, old) by {
                if reaches(s, x, old) {
                    assert(reaches(s, x, seq![old][0]));
                }
            }
            assert forall|x: Id| #[trigger] reached(s, seq![new], x) == reaches(s, x, new) by {
                if reaches(s, x, new) {
                    assert(reaches(s, x, seq![new][0]));
                }
            }
        }
        let seg = &self.segments[k];
        proof {
            assert(s[at] == seg@);
            assert(s[at].ok());
        }
        let high = match new_mark {
            None => {
                proof {
                    assert forall|x: Id| s[at].contains(x) implies !#[trigger] gained(
                        s,
                        old,
                        new,
                        x,
                    ) by {
                        assert(reached(s, seq![new], x) == reaches(s, x, new));
                    }
                }
                return None;
            },
            Some(m) => m,
        };
        let low = match old_mark {
            None => seg.low,
            Some(o) => {
                if o.0 >= high.0 {
                    proof {
                        assert forall|x: Id| s[at].contains(x) implies !#[trigger] gained(
                            s,
                            old,
                            new,
                            x,
                        ) by {
                            assert(reached(s, seq![new], x) == reaches(s, x, new));
                            assert(reached(s, seq![old], x) == reaches(s, x, old));
                        }
                    }
                    return None;
                }
                Id(o.0 + 1)
            },
        };
        let parents = if low.0 == seg.low.0 {
            vstd::slice::slice_to_vec(seg.parents.as_slice())
        } else {
            let mut one: Vec<Id> = Vec::new();
            one.push(Id(low.0 - 1));
            proof {
                assert(one@ =~= seq![Id((low.0 - 1) as u64)]);
            }
            one
        };
        let piece = FlatSegment { low, high, parents };
        proof {
            lemma_segment_of(s, at, low);
            assert forall|x: Id| s[at].contains(x) implies (piece@.contains(x) <==> #[trigger] gained(
                s,
                old,
                new,
                x,
            )) by {
                assert(reached(s, seq![new], x) == reaches(s, x, new));
                assert(reached(s, seq![old], x) == reaches(s, x, old));
            }
        }
        Some(piece)
    }

    /// The ids that `new` has gained over `old`, as flat segments: see
    /// `is_gain`.
    pub fn segments_between(&self, old: Id, new: Id) -> (r: Vec<FlatSegment>)
        requires
            self.wf(),
        ensures
            is_gain(self@, old, new, r.deep_view()),
    {
        let ghost s = self@;
        let mut old_heads: Vec<Id> = Vec::new();
        old_heads.push(old);
        let mut new_heads: Vec<Id> = Vec::new();
        new_heads.push(new);
        let old_marks = self.reach_from(old_heads.as_slice());
        let new_marks = self.reach_from(new_heads.as_slice());
        proof {
            assert(old_heads@ =~= seq![old]);
            assert(new_heads@ =~= seq![new]);
            assert(s.len() == self.segments@.len());
        }
        let mut r: Vec<FlatSegment> = Vec::new();
        let ghost mut origin: Seq<int> = Seq::empty();
        let mut k: usize = 0;
        while k < self.segments.len()
            invariant
                s == self@,
                self.wf(),
                s.len() == self.segments@.len(),
                old_marks@.len() == s.len(),
                new_marks@.len() == s.len(),
                k <= s.len(),
                forall|i: int|
                    0 <= i < s.len() ==> mark_ok(s, seq![old], i, #[trigger] old_marks@[i]),
                forall|i: int|
                    0 <= i < s.len() ==> mark_ok(s, seq![new], i, #[trigger] new_marks@[i]),
                origin.len() == r@.len(),
                forall|j: int|
                    0 <= j < r@.len() ==> 0 <= (#[trigger] origin[j]) < k && piece_ok(
                        s,
                        old,
                        new,
                        origin[j],
                        r@[j]@,
                    ),
                forall|i: int, j: int|
                    0 <= i < j < r@.len() ==> (#[trigger] origin[i]) < (#[trigger] origin[j]),
                forall|i: int|
                    0 <= i < k ==> #[trigger] no_piece(s, old, new, i) || exists|j: int|
                        0 <= j < r@.len() && (#[trigger] origin[j]) == i,
            decreases s.len() - k,
        {
            let ghost before = r@;
            let ghost before_origin = origin;
            match self.piece_at(k, old_marks[k], new_marks[k], Ghost(old), Ghost(new)) {
                None => {},
                Some(piece) => {
                    r.push(piece);
                    proof {
                        origin = origin.push(k as int);
                    }
                },
            }
            proof {
                assert forall|j: int| 0 <= j < r@.len() implies 0 <= (#[trigger] origin[j]) < k + 1
                    && piece_ok(s, old, new, origin[j], r@[j]@) by {
                    if j < before.len() {
                        assert(r@[j] == before[j]);
                        assert(origin[j] == before_origin[j]);
                    }
                }
                assert forall|i: int, j: int| 0 <= i < j < r@.len() implies (#[trigger] origin[i])
                    < (#[trigger] origin[j]) by {
                    assert(origin[i] == before_origin[i]);
                    if j < before.len() {
                        assert(origin[j] == before_origin[j]);
                    }
                }
                assert forall|i: int| 0 <= i < k + 1 implies #[trigger] no_piece(s, old, new, i)
                    || exists|j: int| 0 <= j < r@.len() && (#[trigger] origin[j]) == i by {
                    if i < k {
                        if !no_piece(s, old, new, i) {
                            let j = choose|j: int|
                                0 <= j < before.len() && (#[trigger] before_origin[j]) == i;
                            assert(origin[j] == i);
                        }
                    } else {
                        if r@.len() > before.len() {
                            assert(origin[r@.len() - 1] == i);
                        }
                    }
                }
            }
            k = k + 1;
        }
        proof {
            reveal(piece_ok);
            reveal(no_piece);
            let pieces = r.deep_view();
            assert(pieces.len() == r@.len());
            assert forall|j: int| 0 <= j < pieces.len() implies {
                let p = #[trigger] pieces[j];
                &&& p.low.0 <= p.high.0
                &&& covered(s, p.low)
                &&& covered(s, p.high)
                &&& segment_of(s, p.low) == segment_of(s, p.high)
                &&& p.parents == parents_of(s, p.low)
            } by {
                assert(pieces[j] == r@[j]@);
                assert(piece_ok(s, old, new, origin[j], r@[j]@));
                lemma_segment_of(s, origin[j], pieces[j].low);
                lemma_segment_of(s, origin[j], pieces[j].high);
            }
            assert forall|i: int, j: int| 0 <= i < j < pieces.len() implies segment_of(
                s,
                (#[trigger] pieces[i]).low,
            ) < segment_of(s, (#[trigger] pieces[j]).low) by {
                assert(pieces[i] == r@[i]@ && pieces[j] == r@[j]@);
                assert(piece_ok(s, old, new, origin[i], r@[i]@));
                assert(piece_ok(s, old, new, origin[j], r@[j]@));
                lemma_segment_of(s, origin[i], pieces[i].low);
                lemma_segment_of(s, origin[j], pieces[j].low);
                assert(origin[i] < origin[j]);
            }
            assert forall|id: Id| #[trigger] covered(pieces, id) <==> gained(s, old, new, id) by {
                if covered(pieces, id) {
                    let j = choose|j: int| 0 <= j < pieces.len()
                        && (#[trigger] pieces[j]).contains(id);
                    assert(pieces[j] == r@[j]@);
                    assert(piece_ok(s, old, new, origin[j], r@[j]@));
                    assert(s[origin[j]].contains(id));
                }
                if gained(s, old, new, id) {
                    lemma_reaches_le(s, id, new);
                    let i = choose|i: int| 0 <= i < s.len() && (#[trigger] s[i]).contains(id);
                    assert(!no_piece(s, old, new, i));
                    let j = choose|j: int| 0 <= j < r@.len() && (#[trigger] origin[j]) == i;
                    assert(piece_ok(s, old, new, origin[j], r@[j]@));
                    assert(pieces[j] == r@[j]@);
                    assert(pieces[j].contains(id));
                }
            }
        }
        r
    }
}

/// A segment of a well-formed list may join the segments before it, and
/// comes to stand at their end.
pub proof fn lemma_next_joins(s: Flat, i: int)
    requires
        dag_wf(s),
        0 <= i < s.len(),
    ensures
        join_error(s.take(i), s[i]).is_none(),
        joined(s.take(i), s[i]) == s.take(i + 1),
        place_for(s.take(i), s[i].low.spec_group().unwrap()) == i,
{
    let t = s.take(i);
    let seg = s[i];
    let group = seg.low.spec_group().unwrap();
    lemma_prefix_wf(s, i);
    assert(seg.ok());
    lemma_master_count_bounds(t);
    if i > 0 {
        assert(follows(s[i - 1], s[i]));
        assert(t.last() == s[i - 1]);
        assert(s[i - 1].ok());
        lemma_last_of_group(t, group);
        lemma_last_of_group(t, Group::Master);
    }
    assert forall|k: int| 0 <= k < seg.parents.len() implies covered(t,
        #[trigger] seg.parents[k]) by {
        assert(covered_before(s, i, s[i].parents[k]));
        let j = choose|j: int|
            0 <= j < i && j < s.len() && (#[trigger] s[j]).contains(s[i].parents[k]);
        assert(t[j].contains(seg.parents[k]));
    }
    if group == Group::Master {
        if master_count(t) < t.len() {
            lemma_master_first(t, master_count(t));
            lemma_sorted(s, master_count(t), i);
            assert(t[master_count(t)] == s[master_count(t)]);
            assert(s[master_count(t)].ok());
        }
    }
    assert(t.insert(i, seg) =~= s.take(i + 1));
}

/// What lies in the start of a well-formed list has its parents there.
pub proof fn lemma_prefix_parents(s: Flat, n: int, id: Id)
    requires
        dag_wf(s),
        0 <= n <= s.len(),
        covered(s.take(n), id),
    ensures
        covered(s, id),
        parents_of(s.take(n), id) == parents_of(s, id),
{
    let t = s.take(n);
    lemma_prefix_wf(s, n);
    let j = choose|j: int| 0 <= j < t.len() && (#[trigger] t[j]).contains(id);
    assert(s[j].contains(id));
    lemma_segment_of(s, j, id);
    lemma_segment_of(t, j, id);
}

/// Ancestry among the ids of the start of a well-formed list is the
/// same in the start alone as in the whole list.
pub proof fn lemma_prefix_reaches(s: Flat, n: int, a: Id, d: Id)
    requires
        dag_wf(s),
        0 <= n <= s.len(),
        covered(s.take(n), d),
    ensures
        reaches(s.take(n), a, d) == reaches(s, a, d),
    decreases d.0,
{
    let t = s.take(n);
    lemma_prefix_wf(s, n);
    lemma_prefix_parents(s, n, d);
    lemma_parents_of(t, d);
    if a != d {
        if reaches(t, a, d) {
            let k = choose|k: int|
                0 <= k < parents_of(t, d).len() && (#[trigger] parents_of(t, d)[k]).0 < d.0
                    && reaches(t, a, parents_of(t, d)[k]);
            lemma_prefix_reaches(s, n, a, parents_of(t, d)[k]);
            assert(parents_of(s, d)[k] == parents_of(t, d)[k]);
        }
        if reaches(s, a, d) {
            let k = choose|k: int|
                0 <= k < parents_of(s, d).len() && (#[trigger] parents_of(s, d)[k]).0 < d.0
                    && reaches(s, a, parents_of(s, d)[k]);
            assert(parents_of(t, d)[k] == parents_of(s, d)[k]);
            lemma_prefix_reaches(s, n, a, parents_of(s, d)[k]);
        }
    }
}

/// The segments of the master group are the start of a well-formed list.
pub proof fn lemma_master_part(s: Flat)
    requires
        dag_wf(s),
    ensures
        of_group(s, Group::Master) == s.take(master_count(s)),
        dag_wf(of_group(s, Group::Master)),
    decreases s.len(),
{
    lemma_master_count_bounds(s);
    if s.len() > 0 {
        let n = s.len() - 1;
        let rest = s.drop_last();
        lemma_prefix_wf(s, n);
        lemma_master_part(rest);
        lemma_master_count_bounds(rest);
        if s.last().low.spec_group() == Some(Group::Master) {
            assert forall|i: int| 0 <= i < rest.len() implies (#[trigger] rest[i]).low.spec_group()
                == Some(Group::Master) by {
                lemma_master_first(s, i);
            }
            if rest.len() > 0 {
                assert(master_count(rest) == rest.len()) by {
                    lemma_master_first(rest, rest.len() - 1);
                }
            }
            assert(rest.take(rest.len() as int) =~= rest);
            assert(of_group(s, Group::Master) =~= s.take(master_count(s)));
        } else {
            assert(rest.take(master_count(rest)) =~= s.take(master_count(s)));
        }
    } else {
        assert(of_group(s, Group::Master) =~= s.take(0));
    }
    lemma_prefix_wf(s, master_count(s));
}

/// The ids of the master group have the same ancestors in the segments
/// of that group alone as in the whole list: a graph made of the
/// segments of the master group answers for them as the whole graph does.
pub proof fn lemma_master_part_reaches(s: Flat, a: Id, d: Id)
    requires
        dag_wf(s),
        covered(of_group(s, Group::Master), d),
    ensures
        reaches(of_group(s, Group::Master), a, d) == reaches(s, a, d),
{
    lemma_master_part(s);
    lemma_master_count_bounds(s);
    lemma_prefix_reaches(s, master_count(s), a, d);
}

/// Why `seg` cannot be added at the end of the list `s`, if it cannot:
/// it cannot join the list, or its place is not the end.
pub open spec fn append_error(s: Flat, seg: FlatView) -> Option<DagError> {
    match join_error(s, seg) {
        Some(e) => Some(e),
        None => if place_for(s, seg.low.spec_group().unwrap()) != s.len() {
            Some(DagError::BadSegment)
        } else {
            None
        },
    }
}

impl IdDag {
    /// Adds the flat segment `seg` at the end of the list of segments,
    /// where it may join the graph and that is its place.
    pub fn append_flat_segment(&mut self, seg: FlatSegment) -> (r: Result<(), DagError>)
        requires
            old(self).wf(),
        ensures
            final(self).wf(),
            match r {
                Ok(()) => append_error(old(self)@, seg@).is_none() && final(self)@ == old(
                    self,
                )@.push(seg@),
                Err(e) => append_error(old(self)@, seg@) == Some(e) && final(self)@ == old(self)@,
            },
    {
        let ghost s = self@;
        match self.check_join(&seg) {
            Ok(()) => {},
            Err(e) => { return Err(e); },
        }
        let group = match seg.low.group() {
            Some(g) => g,
            None => { return Err(DagError::BadSegment); },
        };
        let pos = self.place(group);
        proof {
            assert(s.len() == self.segments@.len());
        }
        if pos != self.segments.len() {
            return Err(DagError::BadSegment);
        }
        let ghost view = seg@;
        proof {
            lemma_joined(s, view);
        }
        self.segments.push(seg);
        proof {
            assert(self@ =~= s.push(view));
            assert(s.insert(pos as int, view) =~= s.push(view));
        }
        Ok(())
    }

    /// The graph of the flat segments `segs`, which come in the order
    /// of their ids. It is made whenever the segments are a well-formed
    /// list. Where they are not, the error is that of the first segment
    /// that cannot be added to those before it.
    pub fn from_flat_segments(segs: &Vec<FlatSegment>) -> (r: Result<IdDag, DagError>)
        ensures
            match r {
                Ok(dag) => dag.wf() && dag@ == segs.deep_view(),
                Err(e) => !dag_wf(segs.deep_view()) && exists|i: int|
                    0 <= i < segs@.len() && dag_wf(#[trigger] segs.deep_view().take(i))
                        && append_error(segs.deep_view().take(i), segs.deep_view()[i]) == Some(e),
            },
    {
        let ghost all = segs.deep_view();
        let mut dag = IdDag::new();
        let mut i: usize = 0;
        proof {
            assert(all.len() == segs@.len());
            assert(dag@ =~= all.take(0));
        }
        while i < segs.len()
            invariant
                all == segs.deep_view(),
                all.len() == segs@.len(),
                i <= segs@.len(),
                dag.wf(),
                dag@ == all.take(i as int),
            decreases segs@.len() - i,
        {
            let seg = FlatSegment {
                low: segs[i].low,
                high: segs[i].high,
                parents: vstd::slice::slice_to_vec(segs[i].parents.as_slice()),
            };
            let ghost before = dag@;
            let ghost view = seg@;
            proof {
                assert(view == all[i as int]);
                assert(dag_wf(all) ==> append_error(before, view).is_none()) by {
                    if dag_wf(all) {
                        lemma_next_joins(all, i as int);
                    }
                }
            }
            match dag.append_flat_segment(seg) {
                Ok(()) => {},
                Err(e) => {
                    proof {
                        assert(dag_wf(all.take(i as int)));
                    }
                    return Err(e);
                },
            }
            proof {
                assert(before.push(view) =~= all.take(i + 1));
            }
            i = i + 1;
        }
        proof {
            assert(all.take(i as int) =~= all);
        }
        Ok(dag)
    }
}

/// The parents, the heads and the roots of the segments of a
/// well-formed list are ids of the list.
pub proof fn lemma_anchor_covered(s: Flat, upto: int, x: Id)
    requires
        dag_wf(s),
        is_anchor(s, upto, x),
    ensures
        covered(s, x),
{
    let i = choose|i: int|
        0 <= i < upto && i < s.len() && ((#[trigger] s[i]).parents.contains(x) || x == s[i].high
            || (s[i].parents.len() == 0 && x == s[i].low));
    assert(s[i].ok());
    if s[i].parents.contains(x) {
        let k = choose|k: int| 0 <= k < s[i].parents.len() && s[i].parents[k] == x;
        assert(covered_before(s, i, s[i].parents[k]));
    } else {
        assert(s[i].contains(x));
    }
}

/// The parents, the heads and the roots of what `new` has gained over
/// `old` are ids of the list.
pub proof fn lemma_gain_anchor_covered(s: Flat, old: Id, new: Id, pieces: Flat, x: Id)
    requires
        dag_wf(s),
        is_gain(s, old, new, pieces),
        is_anchor(pieces, pieces.len() as int, x),
    ensures
        covered(s, x),
{
    let i = choose|i: int|
        0 <= i < pieces.len() && ((#[trigger] pieces[i]).parents.contains(x) || x
            == pieces[i].high || (pieces[i].parents.len() == 0 && x == pieces[i].low));
    let p = pieces[i];
    if p.parents.contains(x) {
        let k = choose|k: int| 0 <= k < p.parents.len() && p.parents[k] == x;
        lemma_parents_of(s, p.low);
        assert(parents_of(s, p.low)[k] == x);
    }
}

/// The list with the segment numbered `i` made longer by one id.
pub open spec fn extended(s: Flat, i: int) -> Flat {
    s.update(i, FlatView { high: Id((s[i].high.0 + 1) as u64), ..s[i] })
}

/// The list after the vertex `id` with the parents `parents` joined
/// it: the last segment of its group is made longer where `id` comes
/// right after it and has its head as the only parent; else `id` makes
/// a segment of its own.
pub open spec fn with_vertex(s: Flat, id: Id, parents: Seq<Id>) -> Flat {
    let place = place_for(s, id.spec_group().unwrap());
    if place > 0 && parents == seq![s[place - 1].high] && s[place - 1].high.0 + 1 == id.0
        && s[place - 1].high.spec_group() == id.spec_group() {
        extended(s, place - 1)
    } else {
        joined(s, FlatView { low: id, high: id, parents })
    }
}

/// Why the vertex `id` with the parents `parents` cannot join the
/// list, if it cannot.
pub open spec fn vertex_error(s: Flat, id: Id, parents: Seq<Id>) -> Option<DagError> {
    join_error(s, FlatView { low: id, high: id, parents })
}

/// Making the last segment of a group longer by the id that is free
/// next in the group leaves the list well-formed, and adds that id.
pub proof fn lemma_extended(s: Flat, i: int)
    requires
        dag_wf(s),
        0 <= i < s.len(),
        i + 1 == place_for(s, s[i].low.spec_group().unwrap()),
        Id((s[i].high.0 + 1) as u64).spec_group() == s[i].low.spec_group(),
        s[i].high.0 < u64::MAX,
    ensures
        dag_wf(extended(s, i)),
        forall|x: Id|
            #[trigger] covered(extended(s, i), x) <==> covered(s, x) || x.0 == s[i].high.0 + 1,
{
    let t = extended(s, i);
    let group = s[i].low.spec_group().unwrap();
    lemma_master_count_bounds(s);
    assert(s[i].ok());
    if i + 1 < s.len() {
        lemma_master_first(s, i + 1);
        lemma_non_master_start(s);
        assert(follows(s[i], s[i + 1]));
    }
    assert forall|k: int| 0 <= k < t.len() implies (#[trigger] t[k]).ok() by {
        assert(s[k].ok());
    }
    assert forall|x: Id| #[trigger] covered(t, x) <==> covered(s, x) || x.0 == s[i].high.0 + 1 by {
        if covered(t, x) {
            let j = choose|j: int| 0 <= j < t.len() && (#[trigger] t[j]).contains(x);
            if !(x.0 == s[i].high.0 + 1) {
                assert(s[j].contains(x));
            }
        }
        if covered(s, x) {
            let j = choose|j: int| 0 <= j < s.len() && (#[trigger] s[j]).contains(x);
            assert(t[j].contains(x));
        }
        if x.0 == s[i].high.0 + 1 {
            assert(t[i].contains(x));
        }
    }
    assert forall|k: int, j: int|
        0 <= k < t.len() && 0 <= j < t[k].parents.len() implies covered_before(
        t,
        k,
        #[trigger] t[k].parents[j],
    ) by {
        assert(covered_before(s, k, s[k].parents[j]));
        let w = choose|w: int|
            0 <= w < k && w < s.len() && (#[trigger] s[w]).contains(s[k].parents[j]);
        assert(t[w].contains(t[k].parents[j]));
    }
    assert forall|k: int| 0 <= k < t.len() - 1 implies follows(#[trigger] t[k], t[k + 1]) by {
        assert(follows(s[k], s[k + 1]));
        assert(s[k].ok());
        assert(s[k + 1].ok());
    }
}

/// The number of the segment that is made longer when the vertex `id`
/// with the parents `parents` joins the list, if one is.
pub open spec fn extension_place(s: Flat, id: Id, parents: Seq<Id>) -> Option<int> {
    let place = place_for(s, id.spec_group().unwrap());
    if place > 0 && parents == seq![s[place - 1].high] && s[place - 1].high.0 + 1 == id.0
        && s[place - 1].high.spec_group() == id.spec_group() {
        Some(place - 1)
    } else {
        None
    }
}

impl IdDag {
    /// The number of the segment that the vertex `id` makes longer.
    fn find_extension(&self, id: Id, parents: &Vec<Id>) -> (r: Option<usize>)
        requires
            self.wf(),
            id.wf(),
        ensures
            match r {
                Some(i) => extension_place(self@, id, parents@) == Some(i as int) && i
                    < self.segments@.len(),
                None => extension_place(self@, id, parents@).is_none(),
            },
    {
        let ghost s = self@;
        let group = match id.group() {
            Some(g) => g,
            None => { return None; },
        };
        let place = self.place(group);
        proof {
            assert(s.len() == self.segments@.len());
        }
        if place == 0 || parents.len() != 1 {
            proof {
                if place > 0 && parents@ == seq![s[place - 1].high] {
                    assert(parents@.len() == 1);
                }
            }
            return None;
        }
        let last = &self.segments[place - 1];
        proof {
            assert(s[place - 1] == last@);
        }
        if parents[0].0 == last.high.0 && last.high.0 < u64::MAX && last.high.0 + 1 == id.0
            && group.contains(last.high) {
            proof {
                assert(parents@ =~= seq![s[place - 1].high]);
            }
            Some(place - 1)
        } else {
            proof {
                if parents@ == seq![s[place - 1].high] {
                    assert(parents@[0] == s[place - 1].high);
                }
            }
            None
        }
    }

    /// Makes the segment numbered `i` longer by one id.
    fn extend_segment(&mut self, i: usize)
        requires
            old(self).wf(),
            i < old(self)@.len(),
            i + 1 == place_for(old(self)@, old(self)@[i as int].low.spec_group().unwrap()),
            Id((old(self)@[i as int].high.0 + 1) as u64).spec_group() == old(
                self,
            )@[i as int].low.spec_group(),
            old(self)@[i as int].high.0 < u64::MAX,
        ensures
            final(self).wf(),
            final(self)@ == extended(old(self)@, i as int),
    {
        let ghost s = self@;
        proof {
            assert(s.len() == self.segments@.len());
            lemma_extended(s, i as int);
        }
        let last = &self.segments[i];
        proof {
            assert(s[i as int] == last@);
        }
        let seg = FlatSegment {
            low: last.low,
            high: Id(last.high.0 + 1),
            parents: vstd::slice::slice_to_vec(last.parents.as_slice()),
        };
        self.segments.set(i, seg);
        proof {
            assert(self@ =~= extended(s, i as int));
        }
    }

    /// Adds the vertex `id` with the parents `parents` to the graph,
    /// unless `vertex_error` says why not: see `with_vertex`.
    pub fn add_vertex(&mut self, id: Id, parents: &Vec<Id>) -> (r: Result<(), DagError>)
        requires
            old(self).wf(),
        ensures
            final(self).wf(),
            match r {
                Ok(()) => vertex_error(old(self)@, id, parents@).is_none() && final(self)@
                    == with_vertex(old(self)@, id, parents@) && (forall|x: Id|
                    #[trigger] covered(final(self)@, x) <==> covered(old(self)@, x) || x == id),
                Err(e) => vertex_error(old(self)@, id, parents@) == Some(e) && final(self)@ == old(
                    self,
                )@,
            },
    {
        let ghost s = self@;
        let seg = FlatSegment {
            low: id,
            high: id,
            parents: vstd::slice::slice_to_vec(parents.as_slice()),
        };
        match self.check_join(&seg) {
            Ok(()) => {},
            Err(e) => { return Err(e); },
        }
        match self.find_extension(id, parents) {
            Some(i) => {
                proof {
                    assert(s[i as int].ok()) by {
                        assert(s.len() > i);
                    }
                    lemma_extended(s, i as int);
                    assert(with_vertex(s, id, parents@) == extended(s, i as int));
                }
                self.extend_segment(i);
                Ok(())
            },
            None => {
                proof {
                    lemma_joined(s, seg@);
                    assert(with_vertex(s, id, parents@) == joined(s, seg@));
                }
                self.insert_flat_segment(seg)
            },
        }
    }

    /// A copy of the graph.
    pub fn duplicate(&self) -> (copy: IdDag)
        ensures
            copy@ == self@,
    {
        let mut segments: Vec<FlatSegment> = Vec::new();
        let mut i: usize = 0;
        proof {
            assert(self@.len() == self.segments@.len());
        }
        while i < self.segments.len()
            invariant
                i <= self.segments@.len(),
                segments@.len() == i,
                forall|j: int| 0 <= j < i ==> (#[trigger] segments@[j])@ == self.segments@[j]@,
            decreases self.segments@.len() - i,
        {
            let seg = &self.segments[i];
            segments.push(
                FlatSegment {
                    low: seg.low,
                    high: seg.high,
                    parents: vstd::slice::slice_to_vec(seg.parents.as_slice()),
                },
            );
            i = i + 1;
        }
        let copy = IdDag { segments };
        proof {
            assert(copy@ =~= self@);
        }
        copy
    }
}

impl IdDag {
    /// Removes the segments of the non-master group.
    pub fn remove_non_master(&mut self)
        requires
            old(self).wf(),
        ensures
            final(self).wf(),
            final(self)@ == of_group(old(self)@, Group::Master),
            next_free(final(self)@, Group::NonMaster) == Group::NonMaster.spec_min(),
            next_free(final(self)@, Group::Master) == next_free(old(self)@, Group::Master),
            forall|id: Id|
                #[trigger] covered(final(self)@, id) <==> covered(old(self)@, id) && id.spec_group()
                    == Some(Group::Master),
    {
        let ghost s = self@;
        let place = self.place(Group::Master);
        proof {
            assert(s.len() == self.segments@.len());
            lemma_master_part(s);
            lemma_master_count_bounds(s);
            lemma_master_next_free(s);
        }
        self.segments.truncate(place);
        proof {
            let t = s.take(place as int);
            assert(self@ =~= t);
            lemma_master_count_bounds(t);
            assert forall|i: int| 0 <= i < t.len() implies (#[trigger] t[i]).low.spec_group()
                == Some(
                Group::Master,
            ) by {
                lemma_master_first(s, i);
            }
            if t.len() > 0 {
                lemma_master_first(t, t.len() - 1);
                assert(t.last().ok());
                lemma_last_of_group(t, Group::Master);
                lemma_master_next_free(t);
                assert(master_count(t) == t.len());
                assert(t[t.len() - 1] == s[place - 1]);
            } else {
                assert(master_count(t) == 0);
                lemma_master_next_free(t);
            }
            assert forall|id: Id| #[trigger] covered(t, id) <==> covered(s, id) && id.spec_group()
                == Some(Group::Master) by {
                if covered(t, id) {
                    let j = choose|j: int| 0 <= j < t.len() && (#[trigger] t[j]).contains(id);
                    assert(s[j].contains(id));
                    assert(t[j].ok());
                }
                if covered(s, id) && id.spec_group() == Some(Group::Master) {
                    let j = choose|j: int| 0 <= j < s.len() && (#[trigger] s[j]).contains(id);
                    lemma_master_first(s, j);
                    assert(s[j].ok());
                    assert(t[j].contains(id));
                }
            }
        }
    }
}

/// Whether `id` is a parent of an id of its own group.
#[verifier::opaque]
pub open spec fn has_child_in_group(s: Flat, id: Id) -> bool {
    exists|x: Id|
        #[trigger] covered(s, x) && x.spec_group() == id.spec_group() && parents_of(s, x).contains(
            id,
        )
}

/// Whether the head of the segment numbered `i` is the only head of
/// its group: every other id of the group is a parent of an id of the group.
#[verifier::opaque]
pub open spec fn only_head(s: Flat, i: int) -> bool {
    forall|x: Id|
        #[trigger] covered(s, x) && x.spec_group() == s[i].low.spec_group() && x != s[i].high
            ==> has_child_in_group(s, x)
}

/// Whether the head of the segment numbered `j` is a parent of a
/// segment of its group.
#[verifier::opaque]
pub open spec fn head_is_parent(s: Flat, j: int) -> bool {
    exists|k: int|
        0 <= k < s.len() && (#[trigger] s[k]).low.spec_group() == s[j].low.spec_group()
            && s[k].parents.contains(s[j].high)
}

/// The flags of the segment numbered `i`: it has a root where it has
/// no parents, and the only head where `only_head` says so.
pub open spec fn flags_of(s: Flat, i: int) -> SegmentFlags {
    SegmentFlags { has_root: s[i].parents.len() == 0, only_head: only_head(s, i) }
}

/// The segment numbered `i` as the segment store records it.
pub open spec fn stored(s: Flat, i: int) -> SegmentView {
    SegmentView {
        flags: flags_of(s, i),
        level: 0,
        low: s[i].low,
        high: s[i].high,
        parents: s[i].parents,
    }
}

/// The last id of a group has no child in the group.
pub proof fn lemma_last_id_is_head(s: Flat, id: Id)
    requires
        dag_wf(s),
        covered(s, id),
        id.0 + 1 == next_free(s, id.spec_group().unwrap()),
    ensures
        !has_child_in_group(s, id),
{
    reveal(has_child_in_group);
    if has_child_in_group(s, id) {
        let x = choose|x: Id|
            #[trigger] covered(s, x) && x.spec_group() == id.spec_group() && parents_of(
                s,
                x,
            ).contains(id);
        lemma_parents_of(s, x);
        let k = choose|k: int| 0 <= k < parents_of(s, x).len() && parents_of(s, x)[k] == id;
        assert(parents_of(s, x)[k].0 < x.0);
        let w = choose|w: int| 0 <= w < s.len() && (#[trigger] s[w]).contains(id);
        assert(s[w].ok());
        lemma_next_free(s, id.spec_group().unwrap(), x);
    }
}

/// A segment with the only head of its group is the last of the group.
pub proof fn lemma_only_head_is_last(s: Flat, i: int)
    requires
        dag_wf(s),
        0 <= i < s.len(),
        only_head(s, i),
    ensures
        s[i].high.0 + 1 == next_free(s, s[i].low.spec_group().unwrap()),
{
    reveal(only_head);
    let group = s[i].low.spec_group().unwrap();
    assert(s[i].ok());
    lemma_next_free(s, group, s[i].high);
    assert(s[i].contains(s[i].high));
    let last = Id((next_free(s, group) - 1) as u64);
    if last != s[i].high {
        lemma_next_free(s, group, last);
        assert(covered(s, last));
        lemma_last_id_is_head(s, last);
    }
}

/// Where a segment is marked as having the only head of its group, no
/// id of the segment is a parent of an id of the group outside the segment.
pub proof fn lemma_only_head_has_no_child_outside(s: Flat, i: int, x: Id, y: Id)
    requires
        dag_wf(s),
        0 <= i < s.len(),
        flags_of(s, i).only_head,
        s[i].contains(x),
        covered(s, y),
        y.spec_group() == s[i].low.spec_group(),
        !s[i].contains(y),
    ensures
        !parents_of(s, y).contains(x),
{
    let group = s[i].low.spec_group().unwrap();
    lemma_only_head_is_last(s, i);
    lemma_next_free(s, group, y);
    assert(s[i].ok());
    if parents_of(s, y).contains(x) {
        lemma_parents_of(s, y);
        let k = choose|k: int| 0 <= k < parents_of(s, y).len() && parents_of(s, y)[k] == x;
        assert(parents_of(s, y)[k].0 < y.0);
    }
}

/// A segment is marked as having a root exactly where it has no
/// parents, and what is recorded of a segment of a well-formed list is
/// a well-formed segment.
pub proof fn lemma_stored_wf(s: Flat, i: int)
    requires
        dag_wf(s),
        0 <= i < s.len(),
        s[i].parents.len() <= u64::MAX,
    ensures
        stored(s, i).wf(),
        stored(s, i).flags.has_root <==> stored(s, i).parents.len() == 0,
{
    assert(s[i].ok());
}

/// The flat segments of a group cover the ids from the first id of the
/// group up to the id that is free next, each id once: no id of the group
/// before the free one is left out, and no id lies in two segments.
pub proof fn lemma_flat_segments_partition(s: Flat, group: Group, id: Id)
    requires
        dag_wf(s),
        id.spec_group() == Some(group),
    ensures
        id.0 < next_free(s, group) <==> exists|i: int|
            0 <= i < s.len() && (#[trigger] s[i]).contains(id),
        forall|i: int, j: int|
            0 <= i < s.len() && 0 <= j < s.len() && (#[trigger] s[i]).contains(id) && (
            #[trigger] s[j]).contains(id) ==> i == j,
{
    lemma_next_free(s, group, id);
    assert forall|i: int, j: int|
        0 <= i < s.len() && 0 <= j < s.len() && (#[trigger] s[i]).contains(id) && (
        #[trigger] s[j]).contains(id) implies i == j by {
        lemma_one_segment(s, i, j, id);
    }
}

/// Every parent of a flat segment comes before the ids of the segment:
/// it is an id of the same group before them, or an id of the master
/// group where the segment is of the other group.
pub proof fn lemma_parents_come_before(s: Flat, i: int, k: int)
    requires
        dag_wf(s),
        0 <= i < s.len(),
        0 <= k < s[i].parents.len(),
    ensures
        s[i].parents[k].0 < s[i].low.0,
        s[i].parents[k].spec_group() == s[i].low.spec_group() || (s[i].parents[k].spec_group()
            == Some(Group::Master) && s[i].low.spec_group() == Some(Group::NonMaster)),
{
    assert(s[i].ok());
    assert(covered_before(s, i, s[i].parents[k]));
    let j = choose|j: int| 0 <= j < i && j < s.len() && (#[trigger] s[j]).contains(s[i].parents[k]);
    assert(s[j].ok());
    lemma_sorted(s, j, i);
}

impl IdDag {
    /// How many flat segments the graph has.
    pub fn segment_count(&self) -> (n: usize)
        ensures
            n == self@.len(),
    {
        proof {
            assert(self@.len() == self.segments@.len());
        }
        self.segments.len()
    }

    /// Whether the head of the segment numbered `j` is a parent of a
    /// segment of its group.
    fn is_head_parent(&self, j: usize) -> (b: bool)
        requires
            j < self@.len(),
        ensures
            b == head_is_parent(self@, j as int),
    {
        let ghost s = self@;
        proof {
            assert(s.len() == self.segments@.len());
            assert(s[j as int] == self.segments@[j as int]@);
        }
        let head = self.segments[j].high;
        let low = self.segments[j].low;
        let mut k: usize = 0;
        while k < self.segments.len()
            invariant
                s == self@,
                s.len() == self.segments@.len(),
                j < s.len(),
                k <= s.len(),
                head == s[j as int].high,
                low == s[j as int].low,
                forall|w: int|
                    0 <= w < k ==> !((#[trigger] s[w]).low.spec_group() == low.spec_group()
                        && s[w].parents.contains(head)),
            decreases s.len() - k,
        {
            let seg = &self.segments[k];
            proof {
                assert(s[k as int] == seg@);
            }
            let same = match (seg.low.group(), low.group()) {
                (Some(a), Some(b)) => a == b,
                (None, None) => true,
                _ => false,
            };
            if same && holds(&seg.parents, head) {
                proof {
                    reveal(head_is_parent);
                }
                return true;
            }
            k = k + 1;
        }
        proof {
            reveal(head_is_parent);
        }
        false
    }

    /// The flags of the segment numbered `i`: see `flags_of`.
    pub fn segment_flags(&self, i: usize) -> (flags: SegmentFlags)
        requires
            self.wf(),
            i < self@.len(),
        ensures
            flags == flags_of(self@, i as int),
    {
        let ghost s = self@;
        proof {
            assert(s.len() == self.segments@.len());
            assert(s[i as int] == self.segments@[i as int]@);
            assert(s[i as int].ok());
        }
        let has_root = self.segments[i].parents.len() == 0;
        let group = match self.segments[i].low.group() {
            Some(g) => g,
            None => { return SegmentFlags { has_root, only_head: false }; },
        };
        let next = self.next_free_id(0, group);
        if next.0 != self.segments[i].high.0 + 1 {
            proof {
                if only_head(s, i as int) {
                    lemma_only_head_is_last(s, i as int);
                }
            }
            return SegmentFlags { has_root, only_head: false };
        }
        let mut j: usize = 0;
        let mut second: Option<usize> = None;
        while j < self.segments.len() && second.is_none()
            invariant
                s == self@,
                s.len() == self.segments@.len(),
                i < s.len(),
                j <= s.len(),
                s[i as int].low.spec_group() == Some(group),
                match second {
                    Some(b) => b < s.len() && b != i && s[b as int].low.spec_group() == Some(group)
                        && !head_is_parent(s, b as int),
                    None => forall|w: int|
                        0 <= w < j && w != i && (#[trigger] s[w]).low.spec_group() == Some(group)
                            ==> head_is_parent(s, w),
                },
            decreases s.len() - j + (if second.is_none() {
                1int
            } else {
                0int
            }),
        {
            proof {
                assert(s[j as int] == self.segments@[j as int]@);
            }
            if j != i && group.contains(self.segments[j].low) && !self.is_head_parent(j) {
                second = Some(j);
            } else {
                j = j + 1;
            }
        }
        match second {
            Some(b) => {
                proof {
                    lemma_not_only_head(s, i as int, b as int);
                }
                return SegmentFlags { has_root, only_head: false };
            },
            None => {},
        }
        proof {
            lemma_only_head_of_parents(s, i as int);
        }
        SegmentFlags { has_root, only_head: true }
    }

    /// The flat segment numbered `i`.
    pub fn flat_segment(&self, i: usize) -> (seg: FlatSegment)
        requires
            i < self@.len(),
        ensures
            seg@ == self@[i as int],
    {
        proof {
            assert(self@.len() == self.segments@.len());
            assert(self@[i as int] == self.segments@[i as int]@);
        }
        let flat = &self.segments[i];
        FlatSegment {
            low: flat.low,
            high: flat.high,
            parents: vstd::slice::slice_to_vec(flat.parents.as_slice()),
        }
    }

    /// The segment numbered `i` as the segment store records it, with
    /// its fields at hand.
    pub fn segment_data(&self, i: usize) -> (seg: SegmentData)
        requires
            self.wf(),
            i < self@.len(),
        ensures
            seg@ == stored(self@, i as int),
    {
        let flags = self.segment_flags(i);
        proof {
            assert(self@.len() == self.segments@.len());
            assert(self@[i as int] == self.segments@[i as int]@);
        }
        let flat = &self.segments[i];
        SegmentData {
            flags,
            level: 0,
            low: flat.low,
            high: flat.high,
            parents: vstd::slice::slice_to_vec(flat.parents.as_slice()),
        }
    }

    /// The segment numbered `i` as the segment store records it.
    pub fn segment(&self, i: usize) -> (seg: Segment)
        requires
            self.wf(),
            i < self@.len(),
        ensures
            seg@ == crate::segment::encoding(stored(self@, i as int)),
    {
        let flags = self.segment_flags(i);
        proof {
            assert(self@.len() == self.segments@.len());
            assert(self@[i as int] == self.segments@[i as int]@);
            assert(self@[i as int].ok());
        }
        let flat = &self.segments[i];
        Segment::new(flags, 0, flat.low, flat.high, flat.parents.as_slice())
    }
}

/// Where the head of a segment has a child in its group, it is a
/// parent of a segment of the group.
pub proof fn lemma_child_is_low(s: Flat, j: int)
    requires
        dag_wf(s),
        0 <= j < s.len(),
        has_child_in_group(s, s[j].high),
    ensures
        head_is_parent(s, j),
{
    reveal(has_child_in_group);
    reveal(head_is_parent);
    let x = s[j].high;
    let y = choose|y: Id|
        #[trigger] covered(s, y)
            && y.spec_group() == x.spec_group()
            && parents_of(s, y).contains(x);
    let w = choose|w: int| 0 <= w < s.len() && (#[trigger] s[w]).contains(y);
    lemma_segment_of(s, w, y);
    assert(s[w].ok());
    assert(s[j].ok());
    if y != s[w].low {
        let c = choose|c: int| 0 <= c < parents_of(s, y).len() && parents_of(s, y)[c] == x;
        assert(x.0 == y.0 - 1);
        assert(s[w].contains(x));
        assert(s[j].contains(x));
        lemma_one_segment(s, w, j, x);
    } else {
        assert(s[w].parents.contains(x));
    }
}

/// Whether `x` is one of `ids`.
pub fn holds(ids: &Vec<Id>, x: Id) -> (b: bool)
    ensures
        b == ids@.contains(x),
{
    let mut i: usize = 0;
    while i < ids.len()
        invariant
            i <= ids@.len(),
            forall|j: int| 0 <= j < i ==> ids@[j] != x,
        decreases ids@.len() - i,
    {
        if ids[i].0 == x.0 {
            proof {
                assert(ids@[i as int] == x);
            }
            return true;
        }
        i = i + 1;
    }
    false
}

/// Where the head of another segment of the group is a parent of no
/// segment of the group, it is a second head of the group.
pub proof fn lemma_not_only_head(s: Flat, i: int, j: int)
    requires
        dag_wf(s),
        0 <= i < s.len(),
        0 <= j < s.len(),
        i != j,
        s[j].low.spec_group() == s[i].low.spec_group(),
        !head_is_parent(s, j),
    ensures
        !only_head(s, i),
{
    reveal(only_head);
    let x = s[j].high;
    assert(s[j].ok());
    assert(s[i].ok());
    assert(s[j].contains(x));
    assert(s[i].contains(s[i].high));
    if x == s[i].high {
        lemma_one_segment(s, i, j, x);
    }
    if has_child_in_group(s, x) {
        lemma_child_is_low(s, j);
    }
    assert(covered(s, x));
    assert(!has_child_in_group(s, x));
}

/// An id that is not the head of its segment has the id after it as
/// a child.
pub proof fn lemma_inner_has_child(s: Flat, w: int, x: Id)
    requires
        dag_wf(s),
        0 <= w < s.len(),
        s[w].contains(x),
        x != s[w].high,
    ensures
        has_child_in_group(s, x),
{
    reveal(has_child_in_group);
    assert(s[w].ok());
    let y = Id((x.0 + 1) as u64);
    assert(s[w].contains(y));
    lemma_segment_of(s, w, y);
    assert(parents_of(s, y) =~= seq![x]);
    assert(parents_of(s, y)[0] == x);
    assert(covered(s, y));
}

/// A head that is a parent of a segment of its group has a child in
/// the group.
pub proof fn lemma_head_has_child(s: Flat, w: int)
    requires
        dag_wf(s),
        0 <= w < s.len(),
        head_is_parent(s, w),
    ensures
        has_child_in_group(s, s[w].high),
{
    reveal(has_child_in_group);
    reveal(head_is_parent);
    let k = choose|k: int|
        0 <= k < s.len() && (#[trigger] s[k]).low.spec_group() == s[w].low.spec_group()
            && s[k].parents.contains(s[w].high);
    assert(s[k].ok());
    assert(s[w].ok());
    lemma_segment_of(s, k, s[k].low);
    assert(s[k].contains(s[k].low));
    assert(covered(s, s[k].low));
    assert(parents_of(s, s[k].low) == s[k].parents);
}

/// Where a segment is the last of its group and the head of every
/// other segment of the group is a parent of a segment of the group,
/// its head is the only head of the group.
pub proof fn lemma_only_head_of_parents(s: Flat, i: int)
    requires
        dag_wf(s),
        0 <= i < s.len(),
        forall|w: int|
            0 <= w < s.len() && w != i && (#[trigger] s[w]).low.spec_group()
                == s[i].low.spec_group() ==> head_is_parent(s, w),
    ensures
        only_head(s, i),
{
    reveal(only_head);
    assert forall|x: Id|
        #[trigger] covered(s, x) && x.spec_group() == s[i].low.spec_group() && x
            != s[i].high implies has_child_in_group(s, x) by {
        let w = choose|w: int| 0 <= w < s.len() && (#[trigger] s[w]).contains(x);
        assert(s[w].ok());
        if x != s[w].high {
            lemma_inner_has_child(s, w, x);
        } else {
            lemma_head_has_child(s, w);
        }
    }
}

/// Whether one of `spans` holds `x`.
pub open spec fn in_spans(spans: Seq<Span>, x: Id) -> bool {
    exists|j: int| 0 <= j < spans.len() && (#[trigger] spans[j]).spec_contains(x)
}

impl IdDag {
    /// The ids that are one of `heads` or an ancestor of one of them,
    /// as runs of ids in ascending order: one run for each segment that
    /// holds such ids, from the first id of the segment on.
    pub fn ancestors(&self, heads: &[Id]) -> (spans: Vec<Span>)
        requires
            self.wf(),
        ensures
            forall|x: Id| #[trigger] in_spans(spans@, x) <==> reached(self@, heads@, x),
            forall|i: int, j: int|
                0 <= i < j < spans@.len() ==> (#[trigger] spans@[i]).high.0 < (
                #[trigger] spans@[j]).low.0,
            forall|j: int| 0 <= j < spans@.len()
                ==> (#[trigger] spans@[j]).low.0 <= spans@[j].high.0,
    {
        let ghost s = self@;
        let marks = self.reach_from(heads);
        let mut spans: Vec<Span> = Vec::new();
        let ghost mut origin: Seq<int> = Seq::empty();
        let mut k: usize = 0;
        proof {
            assert(s.len() == self.segments@.len());
        }
        while k < self.segments.len()
            invariant
                s == self@,
                s.len() == self.segments@.len(),
                marks@.len() == s.len(),
                k <= s.len(),
                origin.len() == spans@.len(),
                forall|j: int|
                    0 <= j < spans@.len() ==> 0 <= (#[trigger] origin[j]) < k && spans@[j].low
                        == s[origin[j]].low && marks@[origin[j]] == Some(spans@[j].high),
                forall|i: int, j: int|
                    0 <= i < j < spans@.len() ==> (#[trigger] origin[i]) < (#[trigger] origin[j]),
                forall|i: int|
                    0 <= i < k && (#[trigger] marks@[i]).is_some() ==> exists|j: int|
                        0 <= j < spans@.len() && (#[trigger] origin[j]) == i,
            decreases s.len() - k,
        {
            let ghost before = spans@;
            let ghost before_origin = origin;
            match marks[k] {
                None => {},
                Some(m) => {
                    proof {
                        assert(s[k as int] == self.segments@[k as int]@);
                    }
                    spans.push(Span { low: self.segments[k].low, high: m });
                    proof {
                        origin = origin.push(k as int);
                    }
                },
            }
            proof {
                assert forall|j: int| 0 <= j < spans@.len() implies 0 <= (#[trigger] origin[j]) < k
                    + 1 && spans@[j].low == s[origin[j]].low && marks@[origin[j]] == Some(
                    spans@[j].high,
                ) by {
                    if j < before.len() {
                        assert(spans@[j] == before[j]);
                        assert(origin[j] == before_origin[j]);
                    }
                }
                assert forall|i: int,
                    j: int| 0 <= i < j < spans@.len() implies (#[trigger] origin[i])
                    < (#[trigger] origin[j]) by {
                    assert(origin[i] == before_origin[i]);
                    if j < before.len() {
                        assert(origin[j] == before_origin[j]);
                    }
                }
                assert forall|i: int| 0 <= i < k + 1
                    && (#[trigger] marks@[i]).is_some() implies exists|
                    j: int,
                | 0 <= j < spans@.len() && (#[trigger] origin[j]) == i by {
                    if i < k {
                        let j = choose|j: int|
                            0 <= j < before.len() && (#[trigger] before_origin[j]) == i;
                        assert(origin[j] == i);
                    } else {
                        assert(origin[spans@.len() - 1] == i);
                    }
                }
            }
            k = k + 1;
        }
        proof {
            assert forall|j: int| 0 <= j < spans@.len() implies (#[trigger] spans@[j]).low.0
                <= spans@[j].high.0 by {
                assert(mark_ok(s, heads@, origin[j], marks@[origin[j]]));
            }
            assert forall|i: int, j: int| 0 <= i < j < spans@.len() implies (
            #[trigger] spans@[i]).high.0 < (#[trigger] spans@[j]).low.0 by {
                assert(origin[i] < origin[j]);
                assert(mark_ok(s, heads@, origin[i], marks@[origin[i]]));
                lemma_sorted(s, origin[i], origin[j]);
            }
            assert forall|x: Id| #[trigger] in_spans(spans@, x) <==> reached(s, heads@, x) by {
                if in_spans(spans@, x) {
                    let j = choose|j: int|
                        0 <= j < spans@.len() && (#[trigger] spans@[j]).spec_contains(x);
                    assert(mark_ok(s, heads@, origin[j], marks@[origin[j]]));
                    assert(s[origin[j]].contains(x));
                }
                if reached(s, heads@, x) {
                    let h = choose|h: int| 0 <= h < heads@.len()
                        && reaches(s, x, #[trigger] heads@[h]);
                    lemma_reaches_le(s, x, heads@[h]);
                    let i = choose|i: int| 0 <= i < s.len() && (#[trigger] s[i]).contains(x);
                    assert(mark_ok(s, heads@, i, marks@[i]));
                    assert(marks@[i].is_some());
                    let j = choose|j: int| 0 <= j < spans@.len() && (#[trigger] origin[j]) == i;
                    assert(spans@[j].spec_contains(x));
                }
            }
        }
        spans
    }

    /// The parents, the heads and the roots of the flat segments of the
    /// master group: the ids that every holder of the master group
    /// knows by name.
    pub fn universal_ids(&self) -> (ids: Vec<Id>)
        requires
            self.wf(),
        ensures
            ascending(ids@),
            forall|x: Id|
                #[trigger] ids@.contains(x) <==> is_anchor(
                    of_group(self@, Group::Master),
                    of_group(self@, Group::Master).len() as int,
                    x,
                ),
    {
        let segments = self.flat_segments(Group::Master);
        proof {
            assert(segments.deep_view().len() == segments@.len());
        }
        parents_head_and_roots(&segments)
    }
}

/// The ids of the segment numbered `i` from `start` on, or all of them
/// where `start` comes before the segment, as the segment store records
/// them: with the parents of the first of these ids, as having a root
/// where that id has no parents, and with the only head of its group
/// where the segment has it.
pub open spec fn piece_from(s: Flat, i: int, start: Id) -> SegmentView {
    let low = if start.0 > s[i].low.0 {
        start
    } else {
        s[i].low
    };
    let parents = if low == s[i].low {
        s[i].parents
    } else {
        seq![Id((low.0 - 1) as u64)]
    };
    SegmentView {
        flags: SegmentFlags { has_root: parents.len() == 0, only_head: only_head(s, i) },
        level: 0,
        low,
        high: s[i].high,
        parents,
    }
}

/// The records of the ids of `group` from `start` on that the first
/// `upto` segments hold, in the order of the segments.
pub open spec fn records_from(s: Flat, upto: int, group: Group, start: Id) -> Seq<Seq<u8>>
    decreases upto,
{
    if upto <= 0 {
        Seq::empty()
    } else {
        let rest = records_from(s, upto - 1, group, start);
        if s[upto - 1].low.spec_group() == Some(group) && s[upto - 1].high.0 >= start.0 {
            rest.push(crate::segment::encoding(piece_from(s, upto - 1, start)))
        } else {
            rest
        }
    }
}

/// Records as mathematical values.
pub open spec fn records_view(records: Seq<Segment>) -> Seq<Seq<u8>> {
    records.map_values(|r: Segment| r@)
}

impl IdDag {
    /// The records of the ids of `group` from `start` on: what a segment
    /// store that holds the ids of the group before `start` lacks.
    pub fn segments_from(&self, group: Group, start: Id) -> (records: Vec<Segment>)
        requires
            self.wf(),
        ensures
            records_view(records@) == records_from(self@, self@.len() as int, group, start),
    {
        let ghost s = self@;
        let mut records: Vec<Segment> = Vec::new();
        let mut i: usize = 0;
        proof {
            assert(s.len() == self.segments@.len());
            assert(records_view(records@) =~= Seq::<Seq<u8>>::empty());
        }
        while i < self.segments.len()
            invariant
                s == self@,
                self.wf(),
                s.len() == self.segments@.len(),
                i <= s.len(),
                records_view(records@) == records_from(s, i as int, group, start),
            decreases s.len() - i,
        {
            let flat = &self.segments[i];
            proof {
                assert(s[i as int] == flat@);
                assert(s[i as int].ok());
            }
            if group.contains(flat.low) && flat.high.0 >= start.0 {
                let flags = self.segment_flags(i);
                let low = if start.0 > flat.low.0 {
                    start
                } else {
                    flat.low
                };
                let parents = if low.0 == flat.low.0 {
                    vstd::slice::slice_to_vec(flat.parents.as_slice())
                } else {
                    let mut one: Vec<Id> = Vec::new();
                    one.push(Id(low.0 - 1));
                    proof {
                        assert(one@ =~= seq![Id((low.0 - 1) as u64)]);
                    }
                    one
                };
                let record = Segment::new(
                    SegmentFlags { has_root: parents.len() == 0, only_head: flags.only_head },
                    0,
                    low,
                    flat.high,
                    parents.as_slice(),
                );
                let ghost before = records@;
                records.push(record);
                proof {
                    assert(records_view(records@) =~= records_view(before).push(record@));
                }
            }
            i = i + 1;
        }
        records
    }
}

} // verus!
