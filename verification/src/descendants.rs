//! The descendants of ids.
//!
//! Inside a flat segment every id but the first has the id before it as
//! its only parent. So the descendants that a segment holds are its ids
//! from some id on: from its first id where one of its parents is a
//! descendant, from the first of the given ids that it holds otherwise.

use crate::id::Id;
use crate::iddag::covered;
use crate::iddag::covered_before;
use crate::iddag::dag_wf;
use crate::iddag::in_spans;
use crate::iddag::lemma_one_segment;
use crate::iddag::lemma_parents_of;
use crate::iddag::lemma_segment_of;
use crate::iddag::lemma_sorted;
use crate::iddag::parents_of;
use crate::iddag::reached;
use crate::iddag::reaches;
use crate::iddag::Flat;
use crate::iddag::FlatSegment;
use crate::iddag::IdDag;
use crate::segment::Span;
use vstd::prelude::*;

verus! {

/// Whether `x` is one of `roots` or a descendant of one of them.
pub open spec fn descends(s: Flat, roots: Seq<Id>, x: Id) -> bool {
    exists|h: int| 0 <= h < roots.len() && reaches(s, #[trigger] roots[h], x)
}

/// Whether a parent of the segment numbered `k` is one of `roots` or a
/// descendant of one of them.
pub open spec fn inherits(s: Flat, roots: Seq<Id>, k: int) -> bool {
    exists|j: int| 0 <= j < s[k].parents.len() && descends(s, roots, #[trigger] s[k].parents[j])
}

/// Whether one of `roots` is an id of the segment numbered `k` and does
/// not come after `x`.
pub open spec fn root_upto(s: Flat, roots: Seq<Id>, k: int, x: Id) -> bool {
    exists|h: int| 0 <= h < roots.len() && s[k].contains(#[trigger] roots[h]) && roots[h].0 <= x.0
}

/// Whether `start` is the first id of the segment numbered `k` that is
/// one of `roots` or a descendant of one of them: the ids of the
/// segment from it on are, and those before it are not.
pub open spec fn start_ok(s: Flat, roots: Seq<Id>, k: int, start: Option<Id>) -> bool {
    match start {
        Some(f) => s[k].contains(f) && forall|x: Id|
            s[k].contains(x) ==> (#[trigger] descends(s, roots, x) <==> f.0 <= x.0),
        None => forall|x: Id| s[k].contains(x) ==> !#[trigger] descends(s, roots, x),
    }
}

/// An id of the graph descends from the given ids where it is one of
/// them, or one of its parents descends from them.
pub proof fn lemma_descends_step(s: Flat, roots: Seq<Id>, x: Id)
    requires
        dag_wf(s),
        covered(s, x),
    ensures
        descends(s, roots, x) <==> roots.contains(x) || exists|j: int|
            0 <= j < parents_of(s, x).len() && descends(s, roots, #[trigger] parents_of(s, x)[j]),
{
    let ps = parents_of(s, x);
    lemma_parents_of(s, x);
    if descends(s, roots, x) {
        let h = choose|h: int| 0 <= h < roots.len() && reaches(s, #[trigger] roots[h], x);
        let r = roots[h];
        if r != x {
            let j = choose|j: int|
                0 <= j < ps.len() && (#[trigger] ps[j]).0 < x.0 && reaches(s, r, ps[j]);
            assert(descends(s, roots, ps[j]));
        }
    }
    if roots.contains(x) {
        let h = choose|h: int| 0 <= h < roots.len() && roots[h] == x;
        assert(reaches(s, roots[h], x));
    }
    if exists|j: int| 0 <= j < ps.len() && descends(s, roots, #[trigger] ps[j]) {
        let j = choose|j: int| 0 <= j < ps.len() && descends(s, roots, #[trigger] ps[j]);
        let h = choose|h: int| 0 <= h < roots.len() && reaches(s, #[trigger] roots[h], ps[j]);
        assert(ps[j].0 < x.0);
        assert(reaches(s, roots[h], x));
    }
}

/// An id of a segment descends from the given ids where a parent of the
/// segment does, or one of them is an id of the segment and does not
/// come after it.
pub proof fn lemma_descends_in_segment(s: Flat, roots: Seq<Id>, k: int, x: Id)
    requires
        dag_wf(s),
        0 <= k < s.len(),
        s[k].contains(x),
    ensures
        descends(s, roots, x) <==> inherits(s, roots, k) || root_upto(s, roots, k, x),
    decreases x.0 - s[k].low.0,
{
    lemma_segment_of(s, k, x);
    lemma_descends_step(s, roots, x);
    let ps = parents_of(s, x);
    if x == s[k].low {
        assert(ps == s[k].parents);
        if roots.contains(x) {
            let h = choose|h: int| 0 <= h < roots.len() && roots[h] == x;
            assert(s[k].contains(roots[h]) && roots[h].0 <= x.0);
        }
        if root_upto(s, roots, k, x) {
            let h = choose|h: int|
                0 <= h < roots.len() && s[k].contains(#[trigger] roots[h]) && roots[h].0 <= x.0;
            assert(roots[h] == x);
        }
        if inherits(s, roots, k) {
            let j = choose|j: int|
                0 <= j < s[k].parents.len() && descends(s, roots, #[trigger] s[k].parents[j]);
            assert(descends(s, roots, ps[j]));
        }
        if exists|j: int| 0 <= j < ps.len() && descends(s, roots, #[trigger] ps[j]) {
            let j = choose|j: int| 0 <= j < ps.len() && descends(s, roots, #[trigger] ps[j]);
            assert(descends(s, roots, s[k].parents[j]));
        }
    } else {
        let before = Id((x.0 - 1) as u64);
        assert(ps =~= seq![before]);
        assert(s[k].contains(before));
        lemma_descends_in_segment(s, roots, k, before);
        if roots.contains(x) {
            let h = choose|h: int| 0 <= h < roots.len() && roots[h] == x;
            assert(s[k].contains(roots[h]) && roots[h].0 <= x.0);
        }
        if root_upto(s, roots, k, x) {
            let h = choose|h: int|
                0 <= h < roots.len() && s[k].contains(#[trigger] roots[h]) && roots[h].0 <= x.0;
            if roots[h] != x {
                assert(roots[h].0 <= before.0);
                assert(root_upto(s, roots, k, before));
            }
        }
        if root_upto(s, roots, k, before) {
            let h = choose|h: int|
                0 <= h < roots.len() && s[k].contains(#[trigger] roots[h]) && roots[h].0
                    <= before.0;
            assert(s[k].contains(roots[h]) && roots[h].0 <= x.0);
        }
        if descends(s, roots, before) {
            assert(descends(s, roots, ps[0]));
        }
        if exists|j: int| 0 <= j < ps.len() && descends(s, roots, #[trigger] ps[j]) {
            let j = choose|j: int| 0 <= j < ps.len() && descends(s, roots, #[trigger] ps[j]);
            assert(ps[j] == before);
        }
    }
}

/// An id is a descendant of another exactly where the other is an
/// ancestor of it.
pub proof fn lemma_descendant_of_ancestor(s: Flat, a: Id, d: Id)
    ensures
        descends(s, seq![a], d) <==> reached(s, seq![d], a),
{
    let roots = seq![a];
    let heads = seq![d];
    if descends(s, roots, d) {
        let h = choose|h: int| 0 <= h < roots.len() && reaches(s, #[trigger] roots[h], d);
        assert(reaches(s, a, heads[0]));
    }
    if reached(s, heads, a) {
        let h = choose|h: int| 0 <= h < heads.len() && reaches(s, a, #[trigger] heads[h]);
        assert(reaches(s, roots[0], d));
    }
}

/// The first of `roots` among the ids of the segment `seg`.
fn first_root_in(seg: &FlatSegment, roots: &[Id]) -> (r: Option<Id>)
    ensures
        match r {
            Some(m) => seg@.contains(m) && roots@.contains(m) && forall|h: int|
                0 <= h < roots@.len() && seg@.contains(#[trigger] roots@[h]) ==> m.0
                    <= roots@[h].0,
            None => forall|h: int| 0 <= h < roots@.len() ==> !seg@.contains(#[trigger] roots@[h]),
        },
{
    let mut best: Option<Id> = None;
    let mut h: usize = 0;
    while h < roots.len()
        invariant
            h <= roots@.len(),
            match best {
                Some(m) => seg@.contains(m) && roots@.contains(m) && forall|i: int|
                    0 <= i < h && seg@.contains(#[trigger] roots@[i]) ==> m.0 <= roots@[i].0,
                None => forall|i: int| 0 <= i < h ==> !seg@.contains(#[trigger] roots@[i]),
            },
        decreases roots@.len() - h,
    {
        let root = roots[h];
        if seg.low.0 <= root.0 && root.0 <= seg.high.0 {
            let better = match best {
                Some(m) => root.0 < m.0,
                None => true,
            };
            if better {
                best = Some(root);
            }
        }
        h = h + 1;
    }
    best
}

impl IdDag {
    /// Whether a parent of the segment numbered `k` is one of `roots` or
    /// a descendant of one of them, given where the descendants start
    /// in the segments before it.
    fn inherits_from(
        &self,
        k: usize,
        seg: &FlatSegment,
        starts: &Vec<Option<Id>>,
        roots: &[Id],
    ) -> (b: bool)
        requires
            self.wf(),
            k < self@.len(),
            seg@ == self@[k as int],
            starts@.len() == k,
            forall|i: int| 0 <= i < k ==> start_ok(self@, roots@, i, #[trigger] starts@[i]),
        ensures
            b == inherits(self@, roots@, k as int),
    {
        let ghost s = self@;
        let mut j: usize = 0;
        while j < seg.parents.len()
            invariant
                s == self@,
                dag_wf(s),
                k < s.len(),
                seg@ == s[k as int],
                starts@.len() == k,
                j <= seg.parents@.len(),
                forall|i: int| 0 <= i < k ==> start_ok(s, roots@, i, #[trigger] starts@[i]),
                forall|i: int|
                    0 <= i < j ==> !descends(s, roots@, #[trigger] s[k as int].parents[i]),
            decreases seg.parents@.len() - j,
        {
            let p = seg.parents[j];
            proof {
                assert(s[k as int].parents[j as int] == p);
                assert(covered_before(s, k as int, s[k as int].parents[j as int]));
            }
            match self.segment_holding(p) {
                Some(i) => {
                    proof {
                        let w = choose|w: int|
                            0 <= w < k && w < s.len() && (#[trigger] s[w]).contains(p);
                        lemma_one_segment(s, w, i as int, p);
                        assert(start_ok(s, roots@, i as int, starts@[i as int]));
                    }
                    match starts[i] {
                        Some(f) => {
                            if f.0 <= p.0 {
                                return true;
                            }
                        },
                        None => {},
                    }
                },
                None => {},
            }
            j = j + 1;
        }
        false
    }

    /// The ids that are one of `roots` or a descendant of one of them,
    /// as runs of ids in ascending order: one run for each segment that
    /// holds such ids, up to the last id of the segment.
    pub fn descendants(&self, roots: &[Id]) -> (spans: Vec<Span>)
        requires
            self.wf(),
        ensures
            forall|x: Id| #[trigger] in_spans(spans@, x) <==> descends(self@, roots@, x),
            forall|i: int, j: int|
                0 <= i < j < spans@.len() ==> (#[trigger] spans@[i]).high.0 < (
                #[trigger] spans@[j]).low.0,
            forall|j: int| 0 <= j < spans@.len()
                ==> (#[trigger] spans@[j]).low.0 <= spans@[j].high.0,
    {
        let ghost s = self@;
        let count = self.segment_count();
        let mut starts: Vec<Option<Id>> = Vec::new();
        let mut spans: Vec<Span> = Vec::new();
        let ghost mut origin: Seq<int> = Seq::empty();
        let mut k: usize = 0;
        while k < count
            invariant
                s == self@,
                dag_wf(s),
                count == s.len(),
                k <= count,
                starts@.len() == k,
                forall|i: int| 0 <= i < k ==> start_ok(s, roots@, i, #[trigger] starts@[i]),
                origin.len() == spans@.len(),
                forall|j: int|
                    0 <= j < spans@.len() ==> 0 <= (#[trigger] origin[j]) < k && spans@[j].high
                        == s[origin[j]].high && starts@[origin[j]] == Some(spans@[j].low),
                forall|i: int, j: int|
                    0 <= i < j < spans@.len() ==> (#[trigger] origin[i]) < (#[trigger] origin[j]),
                forall|i: int|
                    0 <= i < k && (#[trigger] starts@[i]).is_some() ==> exists|j: int|
                        0 <= j < spans@.len() && (#[trigger] origin[j]) == i,
            decreases count - k,
        {
            let seg = self.flat_segment(k);
            let inherited = self.inherits_from(k, &seg, &starts, roots);
            let start = if inherited {
                Some(seg.low)
            } else {
                first_root_in(&seg, roots)
            };
            proof {
                assert(s[k as int].ok());
                assert forall|x: Id| s[k as int].contains(x) implies (#[trigger] descends(
                    s,
                    roots@,
                    x,
                ) <==> (start matches Some(f) && f.0 <= x.0)) by {
                    lemma_descends_in_segment(s, roots@, k as int, x);
                    if root_upto(s, roots@, k as int, x) {
                        let h = choose|h: int|
                            0 <= h < roots@.len() && s[k as int].contains(#[trigger] roots@[h])
                                && roots@[h].0 <= x.0;
                    }
                    if !inherited {
                        if let Some(f) = start {
                            if f.0 <= x.0 {
                                let h = choose|h: int| 0 <= h < roots@.len() && roots@[h] == f;
                                assert(s[k as int].contains(roots@[h]) && roots@[h].0 <= x.0);
                            }
                        }
                    }
                }
                assert(start_ok(s, roots@, k as int, start));
            }
            let ghost held = starts@;
            let ghost before = spans@;
            let ghost before_origin = origin;
            starts.push(start);
            match start {
                None => {},
                Some(f) => {
                    spans.push(Span { low: f, high: seg.high });
                    proof {
                        origin = origin.push(k as int);
                    }
                },
            }
            proof {
                assert forall|i: int| 0 <= i < k + 1 implies start_ok(
                    s,
                    roots@,
                    i,
                    #[trigger] starts@[i],
                ) by {
                    if i < k {
                        assert(starts@[i] == held[i]);
                    }
                }
                assert forall|j: int| 0 <= j < spans@.len() implies 0 <= (#[trigger] origin[j]) < k
                    + 1 && spans@[j].high == s[origin[j]].high && starts@[origin[j]] == Some(
                    spans@[j].low,
                ) by {
                    if j < before.len() {
                        assert(spans@[j] == before[j]);
                        assert(origin[j] == before_origin[j]);
                        assert(starts@[origin[j]] == held[origin[j]]);
                    }
                }
                assert forall|i: int, j: int| 0 <= i < j < spans@.len() implies (
                #[trigger] origin[i]) < (#[trigger] origin[j]) by {
                    assert(origin[i] == before_origin[i]);
                    if j < before.len() {
                        assert(origin[j] == before_origin[j]);
                    }
                }
                assert forall|i: int|
                    0 <= i < k + 1 && (#[trigger] starts@[i]).is_some() implies exists|j: int|
                    0 <= j < spans@.len() && (#[trigger] origin[j]) == i by {
                    if i < k {
                        assert(starts@[i] == held[i]);
                        let j = choose|j: int|
                            0 <= j < before.len() && (#[trigger] before_origin[j]) == i;
                        assert(origin[j] == i);
                    } else {
                        assert(origin[spans@.len() - 1] == i);
                    }
                }
            }
            k = k + 1;
        }
        proof {
            assert forall|j: int| 0 <= j < spans@.len() implies (#[trigger] spans@[j]).low.0
                <= spans@[j].high.0 by {
                assert(start_ok(s, roots@, origin[j], starts@[origin[j]]));
            }
            assert forall|i: int, j: int| 0 <= i < j < spans@.len() implies (
            #[trigger] spans@[i]).high.0 < (#[trigger] spans@[j]).low.0 by {
                assert(origin[i] < origin[j]);
                assert(start_ok(s, roots@, origin[j], starts@[origin[j]]));
                lemma_sorted(s, origin[i], origin[j]);
            }
            assert forall|x: Id| #[trigger] in_spans(spans@, x) <==> descends(s, roots@, x) by {
                if in_spans(spans@, x) {
                    let j = choose|j: int|
                        0 <= j < spans@.len() && (#[trigger] spans@[j]).spec_contains(x);
                    assert(start_ok(s, roots@, origin[j], starts@[origin[j]]));
                    assert(s[origin[j]].contains(x));
                }
                if descends(s, roots@, x) {
                    let h = choose|h: int|
                        0 <= h < roots@.len() && reaches(s, #[trigger] roots@[h], x);
                    assert(covered(s, x));
                    let i = choose|i: int|
                        0 <= i < s.len() && i < s.len() && (#[trigger] s[i]).contains(x);
                    assert(start_ok(s, roots@, i, starts@[i]));
                    assert(starts@[i].is_some());
                    let j = choose|j: int| 0 <= j < spans@.len() && (#[trigger] origin[j]) == i;
                    assert(spans@[j].spec_contains(x));
                }
            }
        }
        spans
    }
}

} // verus!
