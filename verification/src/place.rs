//! The place of an id relative to heads.
//!
//! A place is an id that a client knows by name, and a number of steps,
//! each to the first parent, that lead from it to the id. An id that the
//! steps from one of the heads meet has its place relative to that head.
//! Any other ancestor of a head has its place relative to the nearest
//! anchor at or after it: a parent, the head or a root of a flat segment
//! of its group, which a client knows from the segments that it holds.
//! An id that is no ancestor of a head has no place.

use crate::id::Id;
use crate::iddag::covered;
use crate::iddag::dag_wf;
use crate::iddag::chain_distance;
use crate::iddag::first_parent;
use crate::iddag::parents_of;
use crate::iddag::lemma_nth_in_segment;
use crate::iddag::lemma_nth_of_distance;
use crate::iddag::lemma_reaches_le;
use crate::iddag::reaches;
use crate::iddag::lemma_segment_of;
use crate::iddag::location_from;
use crate::iddag::mark_ok;
use crate::iddag::nth_first_ancestor;
use crate::iddag::reached;
use crate::iddag::Flat;
use crate::iddag::FlatSegment;
use crate::iddag::FlatView;
use crate::iddag::IdDag;
use vstd::prelude::*;

verus! {

/// Whether `y` is a parent, the head or a root of the segment `seg`.
pub open spec fn anchor_in(seg: FlatView, y: Id) -> bool {
    seg.parents.contains(y) || y == seg.high || (seg.parents.len() == 0 && y == seg.low)
}

/// Whether `y` is a parent, the head or a root of one of the first
/// `upto` segments of `s` that are of the group of `y`.
pub open spec fn anchor_upto(s: Flat, upto: int, y: Id) -> bool {
    exists|i: int|
        0 <= i < upto && i < s.len() && (#[trigger] s[i]).low.spec_group() == y.spec_group()
            && anchor_in(s[i], y)
}

/// Whether `y` is an anchor: a parent, the head or a root of a flat
/// segment of its own group.
pub open spec fn group_anchor(s: Flat, y: Id) -> bool {
    anchor_upto(s, s.len() as int, y)
}

/// Whether `y` is the nearest anchor at or after `x` in the group of `x`.
pub open spec fn is_nearest_anchor(s: Flat, x: Id, y: Id) -> bool {
    &&& x.0 <= y.0
    &&& y.spec_group() == x.spec_group()
    &&& group_anchor(s, y)
    &&& forall|z: Id| x.0 <= z.0 < y.0 ==> !#[trigger] group_anchor(s, z)
}

/// The nearest anchor at or after `x`, with the distance from it to `x`.
pub open spec fn nearest_anchor(s: Flat, x: Id) -> Option<(Id, nat)> {
    if exists|y: Id| is_nearest_anchor(s, x, y) {
        let y = choose|y: Id| is_nearest_anchor(s, x, y);
        Some((y, (y.0 - x.0) as nat))
    } else {
        None
    }
}

/// The place of `id` relative to `heads`: the head from which the
/// fewest steps, each to the first parent, lead to `id`, where they lead
/// to it from a head; the nearest anchor, where `id` is an ancestor of
/// a head in another way; `None` where it is no ancestor of a head.
pub open spec fn place_of(s: Flat, heads: Seq<Id>, id: Id) -> Option<(Id, nat)> {
    match location_from(s, heads, id) {
        Some(place) => Some(place),
        None => if reached(s, heads, id) {
            nearest_anchor(s, id)
        } else {
            None
        },
    }
}

/// An id between two ids of one group is of that group.
pub proof fn lemma_group_between(a: Id, z: Id, b: Id)
    requires
        a.0 <= z.0 <= b.0,
        a.spec_group() == b.spec_group(),
    ensures
        z.spec_group() == a.spec_group(),
{
}

/// There is one nearest anchor at most.
pub proof fn lemma_nearest_anchor_is_one(s: Flat, x: Id, y: Id)
    requires
        is_nearest_anchor(s, x, y),
    ensures
        nearest_anchor(s, x) == Some((y, (y.0 - x.0) as nat)),
{
    let other = choose|y: Id| is_nearest_anchor(s, x, y);
    if other.0 < y.0 {
        assert(group_anchor(s, other));
    }
    if y.0 < other.0 {
        assert(group_anchor(s, y));
    }
}

/// Below an anchor at or after `x` there is a nearest one.
proof fn lemma_least_anchor(s: Flat, x: Id, upper: Id)
    requires
        x.0 <= upper.0,
        upper.spec_group() == x.spec_group(),
        group_anchor(s, upper),
    ensures
        exists|y: Id| is_nearest_anchor(s, x, y) && y.0 <= upper.0,
    decreases upper.0 - x.0,
{
    if exists|z: Id| x.0 <= z.0 < upper.0 && #[trigger] group_anchor(s, z) {
        let z = choose|z: Id| x.0 <= z.0 < upper.0 && #[trigger] group_anchor(s, z);
        lemma_least_anchor(s, x, z);
        let y = choose|y: Id| is_nearest_anchor(s, x, y) && y.0 <= z.0;
        assert(is_nearest_anchor(s, x, y) && y.0 <= upper.0);
    } else {
        assert(is_nearest_anchor(s, x, upper));
    }
}

/// Every id of a graph has a nearest anchor. The anchor is an id of the
/// segment that holds the id, and the steps from it, each to the first
/// parent, lead to the id.
pub proof fn lemma_nearest_anchor(s: Flat, i: int, x: Id)
    requires
        dag_wf(s),
        0 <= i < s.len(),
        s[i].contains(x),
    ensures
        nearest_anchor(s, x) matches Some((y, n)) && s[i].contains(y) && x.0 <= y.0 && n == y.0
            - x.0 && group_anchor(s, y) && nth_first_ancestor(s, y, n) == Some(x),
{
    let h = s[i].high;
    assert(s[i].ok());
    assert(anchor_in(s[i], h));
    assert(group_anchor(s, h));
    lemma_least_anchor(s, x, h);
    let y = choose|y: Id| is_nearest_anchor(s, x, y) && y.0 <= h.0;
    lemma_nearest_anchor_is_one(s, x, y);
    let n = (y.0 - x.0) as nat;
    assert(s[i].contains(y));
    lemma_nth_in_segment(s, i, y, n, n);
    lemma_segment_of(s, i, x);
}

/// An id that the steps from `h`, each to the first parent, meet is `h`
/// or an ancestor of `h`.
pub proof fn lemma_chain_reaches(s: Flat, h: Id, a: Id)
    requires
        dag_wf(s),
        chain_distance(s, h, a).is_some(),
    ensures
        reaches(s, a, h),
    decreases h.0,
{
    if h != a {
        let p = first_parent(s, h).unwrap();
        lemma_chain_reaches(s, p, a);
        assert(parents_of(s, h)[0] == p);
    }
}

/// The place that `location_from` gives is relative to one of the
/// heads, and its distance is that of the steps from that head.
pub proof fn lemma_location_from(s: Flat, heads: Seq<Id>, id: Id)
    requires
        location_from(s, heads, id).is_some(),
    ensures
        heads.contains(location_from(s, heads, id).unwrap().0),
        chain_distance(s, location_from(s, heads, id).unwrap().0, id) == Some(
            location_from(s, heads, id).unwrap().1,
        ),
    decreases heads.len(),
{
    if heads.len() > 0 {
        let rest = heads.drop_last();
        let here = chain_distance(s, heads.last(), id);
        if location_from(s, rest, id).is_some() {
            lemma_location_from(s, rest, id);
            let h = location_from(s, rest, id).unwrap().0;
            let j = choose|j: int| 0 <= j < rest.len() && rest[j] == h;
            assert(heads[j] == h);
        }
        assert(heads[heads.len() - 1] == heads.last());
    }
}

/// Every id that is a head or an ancestor of a head has a place: an id
/// of the graph from which the steps, each to the first parent, lead to
/// it in the number that the place gives.
pub proof fn lemma_place_of(s: Flat, heads: Seq<Id>, id: Id)
    requires
        dag_wf(s),
        reached(s, heads, id),
    ensures
        place_of(s, heads, id) matches Some((y, n)) && covered(s, y) && nth_first_ancestor(s, y, n)
            == Some(id),
{
    let h = choose|h: int| 0 <= h < heads.len() && reaches(s, id, #[trigger] heads[h]);
    lemma_reaches_le(s, id, heads[h]);
    if location_from(s, heads, id).is_some() {
        lemma_location_from(s, heads, id);
        let head = location_from(s, heads, id).unwrap().0;
        lemma_nth_of_distance(s, head, id);
    } else {
        let i = choose|i: int| 0 <= i < s.len() && i < s.len() && (#[trigger] s[i]).contains(id);
        lemma_nearest_anchor(s, i, id);
    }
}

/// An id that is neither a head nor an ancestor of a head has no place.
pub proof fn lemma_no_place(s: Flat, heads: Seq<Id>, id: Id)
    requires
        dag_wf(s),
        !reached(s, heads, id),
    ensures
        place_of(s, heads, id).is_none(),
{
    if location_from(s, heads, id).is_some() {
        lemma_location_from(s, heads, id);
        let head = location_from(s, heads, id).unwrap().0;
        let j = choose|j: int| 0 <= j < heads.len() && heads[j] == head;
        lemma_chain_reaches(s, head, id);
        assert(reaches(s, id, heads[j]));
    }
}

/// The least of `best` and of the parents, the head and the roots of
/// `seg` that are at or after `x`.
fn least_in(seg: &FlatSegment, x: Id, best: Id) -> (r: Id)
    requires
        x.0 <= best.0,
    ensures
        x.0 <= r.0 <= best.0,
        r == best || anchor_in(seg@, r),
        forall|z: Id| x.0 <= z.0 < r.0 ==> !anchor_in(seg@, z),
{
    let mut r = best;
    if x.0 <= seg.high.0 && seg.high.0 < r.0 {
        r = seg.high;
    }
    if seg.parents.len() == 0 && x.0 <= seg.low.0 && seg.low.0 < r.0 {
        r = seg.low;
    }
    let mut k: usize = 0;
    while k < seg.parents.len()
        invariant
            k <= seg.parents@.len(),
            x.0 <= r.0 <= best.0,
            r == best || anchor_in(seg@, r),
            !(x.0 <= seg@.high.0 < r.0),
            !(seg@.parents.len() == 0 && x.0 <= seg@.low.0 < r.0),
            forall|j: int| 0 <= j < k ==> !(x.0 <= (#[trigger] seg@.parents[j]).0 < r.0),
        decreases seg.parents@.len() - k,
    {
        let p = seg.parents[k];
        if x.0 <= p.0 && p.0 < r.0 {
            r = p;
            proof {
                assert(seg@.parents[k as int] == p);
                assert(seg@.parents.contains(p));
            }
        }
        k = k + 1;
    }
    proof {
        assert forall|z: Id| x.0 <= z.0 < r.0 implies !anchor_in(seg@, z) by {
            if seg@.parents.contains(z) {
                let j = choose|j: int| 0 <= j < seg@.parents.len() && seg@.parents[j] == z;
                assert(!(x.0 <= seg@.parents[j].0 < r.0));
            }
        }
    }
    r
}

impl IdDag {
    /// The nearest anchor at or after `id`, with the distance from it to
    /// `id`; `None` where no anchor comes at or after `id` in its group.
    pub fn nearest_anchor_of(&self, id: Id) -> (r: Option<(Id, u64)>)
        requires
            self.wf(),
        ensures
            match r {
                Some((y, n)) => nearest_anchor(self@, id) == Some((y, n as nat)),
                None => nearest_anchor(self@, id).is_none(),
            },
    {
        let ghost s = self@;
        let count = self.segment_count();
        let mut best: Option<Id> = None;
        let mut k: usize = 0;
        while k < count
            invariant
                s == self@,
                dag_wf(s),
                count == s.len(),
                k <= count,
                match best {
                    Some(b) => id.0 <= b.0 && b.spec_group() == id.spec_group() && anchor_upto(
                        s,
                        k as int,
                        b,
                    ) && forall|z: Id| id.0 <= z.0 < b.0 ==> !#[trigger] anchor_upto(s, k as int, z),
                    None => forall|z: Id|
                        id.0 <= z.0 && z.spec_group() == id.spec_group() ==> !#[trigger] anchor_upto(
                            s,
                            k as int,
                            z,
                        ),
                },
            decreases count - k,
        {
            let seg = self.flat_segment(k);
            let same = match (seg.low.group(), id.group()) {
                (Some(a), Some(b)) => a == b,
                (None, None) => true,
                _ => false,
            };
            let ghost before = best;
            if same {
                match best {
                    Some(b) => {
                        let r = least_in(&seg, id, b);
                        best = Some(r);
                    },
                    None => {
                        if id.0 <= seg.high.0 {
                            let r = least_in(&seg, id, seg.high);
                            best = Some(r);
                        }
                    },
                }
            }
            proof {
                let here = s[k as int];
                assert(here.ok());
                assert(seg@ == here);
                assert forall|z: Id| id.0 <= z.0 && id.0 > here.high.0 implies !anchor_in(
                    here,
                    z,
                ) by {
                    if here.parents.contains(z) {
                        let j = choose|j: int| 0 <= j < here.parents.len() && here.parents[j] == z;
                        assert(here.parents[j].0 < here.low.0);
                    }
                }
                match best {
                    Some(b) => {
                        assert forall|z: Id| id.0 <= z.0 <= b.0 implies z.spec_group()
                            == id.spec_group() by {
                            match before {
                                Some(c) => {
                                    lemma_group_between(id, z, c);
                                },
                                None => {
                                    lemma_group_between(id, z, here.high);
                                },
                            }
                        }
                    },
                    None => {},
                }
            }
            proof {
                assert forall|z: Id| #[trigger] anchor_upto(s, k + 1, z) <==> anchor_upto(
                    s,
                    k as int,
                    z,
                ) || (s[k as int].low.spec_group() == z.spec_group() && anchor_in(s[k as int], z)) by {
                    if anchor_upto(s, k + 1, z) {
                        let i = choose|i: int|
                            0 <= i < k + 1 && i < s.len() && (#[trigger] s[i]).low.spec_group()
                                == z.spec_group() && anchor_in(s[i], z);
                        if i < k {
                            assert(anchor_upto(s, k as int, z));
                        }
                    }
                    if anchor_upto(s, k as int, z) {
                        let i = choose|i: int|
                            0 <= i < k && i < s.len() && (#[trigger] s[i]).low.spec_group()
                                == z.spec_group() && anchor_in(s[i], z);
                        assert(0 <= i < k + 1 && s[i].low.spec_group() == z.spec_group()
                            && anchor_in(s[i], z));
                    }
                    if s[k as int].low.spec_group() == z.spec_group() && anchor_in(s[k as int], z) {
                        assert(0 <= k < k + 1 && s[k as int].low.spec_group() == z.spec_group()
                            && anchor_in(s[k as int], z));
                    }
                }
            }
            k = k + 1;
        }
        match best {
            Some(b) => {
                proof {
                    assert(is_nearest_anchor(s, id, b));
                    lemma_nearest_anchor_is_one(s, id, b);
                }
                Some((b, b.0 - id.0))
            },
            None => {
                proof {
                    if exists|y: Id| is_nearest_anchor(s, id, y) {
                        let y = choose|y: Id| is_nearest_anchor(s, id, y);
                        assert(anchor_upto(s, s.len() as int, y));
                    }
                }
                None
            },
        }
    }

    /// The place of `id` relative to `heads`: see `place_of`.
    pub fn place_from(&self, id: Id, heads: &[Id]) -> (r: Option<(Id, u64)>)
        requires
            self.wf(),
        ensures
            match r {
                Some((y, n)) => place_of(self@, heads@, id) == Some((y, n as nat)),
                None => place_of(self@, heads@, id).is_none(),
            },
    {
        match self.to_first_ancestor_nth(id, heads) {
            Some(place) => { return Some(place); },
            None => {},
        }
        let i = match self.segment_holding(id) {
            Some(i) => i,
            None => {
                proof {
                    if reached(self@, heads@, id) {
                        let h = choose|h: int|
                            0 <= h < heads@.len() && crate::iddag::reaches(
                                self@,
                                id,
                                #[trigger] heads@[h],
                            );
                        crate::iddag::lemma_reaches_le(self@, id, heads@[h]);
                    }
                }
                return None;
            },
        };
        let marks = self.reach_from(heads);
        proof {
            assert(mark_ok(self@, heads@, i as int, marks@[i as int]));
        }
        let is_reached = match marks[i] {
            Some(m) => id.0 <= m.0,
            None => false,
        };
        if !is_reached {
            return None;
        }
        self.nearest_anchor_of(id)
    }
}

} // verus!
