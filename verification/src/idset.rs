//! Sets of ids as runs of consecutive ids, the flat segments that hold
//! the ids of such a set, and the ancestors that two ids have in common.

use crate::id::Id;
use crate::iddag::covered;
use crate::iddag::dag_wf;
use crate::iddag::in_spans;
use crate::iddag::lemma_reaches_le;
use crate::iddag::lemma_segment_of;
use crate::iddag::lemma_sorted;
use crate::iddag::mark_ok;
use crate::iddag::parents_of;
use crate::iddag::reached;
use crate::iddag::reaches;
use crate::iddag::segment_of;
use crate::iddag::Flat;
use crate::iddag::FlatSegment;
use crate::iddag::FlatView;
use crate::iddag::IdDag;
use crate::segment::Span;
use vstd::prelude::*;

verus! {

/// Whether the runs `spans` come one after another: each ends before
/// the next starts.
pub open spec fn spans_ascending(spans: Seq<Span>) -> bool {
    forall|i: int, j: int|
        0 <= i < j < spans.len() ==> (#[trigger] spans[i]).high.0 < (#[trigger] spans[j]).low.0
}

/// Whether `p` is made of ids of the segment of `s` that holds its
/// first id, and has the parents of its first id.
pub open spec fn is_piece(s: Flat, p: FlatView) -> bool {
    &&& p.low.0 <= p.high.0
    &&& covered(s, p.low)
    &&& covered(s, p.high)
    &&& segment_of(s, p.low) == segment_of(s, p.high)
    &&& p.parents == parents_of(s, p.low)
}

/// Whether `pieces` are the ids of `spans` that the graph `s` has, as
/// flat segments: each piece lies in one segment of the graph and in
/// one of the runs, and where the runs come one after another, so do
/// the pieces.
pub open spec fn is_cut(s: Flat, spans: Seq<Span>, pieces: Flat) -> bool {
    &&& forall|id: Id| #[trigger] covered(pieces, id) <==> in_spans(spans, id) && covered(s, id)
    &&& forall|i: int| 0 <= i < pieces.len() ==> is_piece(s, #[trigger] pieces[i])
    &&& spans_ascending(spans) ==> forall|i: int, j: int|
        0 <= i < j < pieces.len() ==> (#[trigger] pieces[i]).high.0 < (#[trigger] pieces[j]).low.0
}

/// Whether `id` is held by one of the first `k` segments of `s` and by
/// one of `spans`, or by the segment numbered `k` and by one of the
/// first `j` of `spans`.
#[verifier::opaque]
pub open spec fn cut_upto(s: Flat, spans: Seq<Span>, k: int, j: int, id: Id) -> bool {
    exists|a: int, b: int|
        0 <= a < s.len() && 0 <= b < spans.len() && (a < k || (a == k && b < j)) && (
        #[trigger] s[a]).contains(id) && (#[trigger] spans[b]).spec_contains(id)
}

/// Nothing is held before the first segment.
proof fn lemma_cut_start(s: Flat, spans: Seq<Span>, id: Id)
    ensures
        !cut_upto(s, spans, 0, 0, id),
{
    reveal(cut_upto);
}

/// One run more of the segment numbered `k` adds the ids that both hold.
proof fn lemma_cut_step(s: Flat, spans: Seq<Span>, k: int, j: int, id: Id)
    requires
        0 <= k < s.len(),
        0 <= j < spans.len(),
    ensures
        cut_upto(s, spans, k, j + 1, id) <==> cut_upto(s, spans, k, j, id) || (s[k].contains(id)
            && spans[j].spec_contains(id)),
{
    reveal(cut_upto);
    if cut_upto(s, spans, k, j + 1, id) {
        let (a, b) = choose|a: int, b: int|
            0 <= a < s.len() && 0 <= b < spans.len() && (a < k || (a == k && b < j + 1)) && (
            #[trigger] s[a]).contains(id) && (#[trigger] spans[b]).spec_contains(id);
        if !(a == k && b == j) {
            assert(0 <= a < s.len() && 0 <= b < spans.len() && (a < k || (a == k && b < j))
                && s[a].contains(id) && spans[b].spec_contains(id));
        }
    }
    if cut_upto(s, spans, k, j, id) {
        let (a, b) = choose|a: int, b: int|
            0 <= a < s.len() && 0 <= b < spans.len() && (a < k || (a == k && b < j)) && (
            #[trigger] s[a]).contains(id) && (#[trigger] spans[b]).spec_contains(id);
        assert(0 <= a < s.len() && 0 <= b < spans.len() && (a < k || (a == k && b < j + 1))
            && s[a].contains(id) && spans[b].spec_contains(id));
    }
    if s[k].contains(id) && spans[j].spec_contains(id) {
        assert(0 <= k < s.len() && 0 <= j < spans.len() && (k < k || (k == k && j < j + 1))
            && s[k].contains(id) && spans[j].spec_contains(id));
    }
}

/// After the last run, the next segment starts.
proof fn lemma_cut_next(s: Flat, spans: Seq<Span>, k: int, id: Id)
    requires
        0 <= k < s.len(),
    ensures
        cut_upto(s, spans, k + 1, 0, id) <==> cut_upto(s, spans, k, spans.len() as int, id),
{
    reveal(cut_upto);
    if cut_upto(s, spans, k + 1, 0, id) {
        let (a, b) = choose|a: int, b: int|
            0 <= a < s.len() && 0 <= b < spans.len() && (a < k + 1 || (a == k + 1 && b < 0)) && (
            #[trigger] s[a]).contains(id) && (#[trigger] spans[b]).spec_contains(id);
        assert(0 <= a < s.len() && 0 <= b < spans.len() && (a < k || (a == k && b < spans.len()))
            && s[a].contains(id) && spans[b].spec_contains(id));
    }
    if cut_upto(s, spans, k, spans.len() as int, id) {
        let (a, b) = choose|a: int, b: int|
            0 <= a < s.len() && 0 <= b < spans.len() && (a < k || (a == k && b < spans.len())) && (
            #[trigger] s[a]).contains(id) && (#[trigger] spans[b]).spec_contains(id);
        assert(0 <= a < s.len() && 0 <= b < spans.len() && (a < k + 1 || (a == k + 1 && b < 0))
            && s[a].contains(id) && spans[b].spec_contains(id));
    }
}

/// After the last segment, the ids that are held are those of the runs
/// that the graph has.
proof fn lemma_cut_end(s: Flat, spans: Seq<Span>, id: Id)
    ensures
        cut_upto(s, spans, s.len() as int, 0, id) <==> in_spans(spans, id) && covered(s, id),
{
    reveal(cut_upto);
    if cut_upto(s, spans, s.len() as int, 0, id) {
        let (a, b) = choose|a: int, b: int|
            0 <= a < s.len() && 0 <= b < spans.len() && (a < s.len() || (a == s.len() && b < 0))
                && (#[trigger] s[a]).contains(id) && (#[trigger] spans[b]).spec_contains(id);
        assert(0 <= b < spans.len() && spans[b].spec_contains(id));
        assert(0 <= a < s.len() && s[a].contains(id));
    }
    if in_spans(spans, id) && covered(s, id) {
        let b = choose|b: int| 0 <= b < spans.len() && (#[trigger] spans[b]).spec_contains(id);
        let a = choose|a: int| 0 <= a < s.len() && a < s.len() && (#[trigger] s[a]).contains(id);
        assert(0 <= a < s.len() && 0 <= b < spans.len() && (a < s.len() || (a == s.len() && b < 0))
            && s[a].contains(id) && spans[b].spec_contains(id));
    }
}

/// One piece more holds the ids that were held, and its own.
proof fn lemma_covered_push(pieces: Flat, p: FlatView, id: Id)
    ensures
        covered(pieces.push(p), id) <==> covered(pieces, id) || p.contains(id),
{
    let more = pieces.push(p);
    if covered(more, id) {
        let i = choose|i: int|
            0 <= i < more.len() && i < more.len() && (#[trigger] more[i]).contains(id);
        if i < pieces.len() {
            assert(pieces[i].contains(id));
        }
    }
    if covered(pieces, id) {
        let i = choose|i: int|
            0 <= i < pieces.len() && i < pieces.len() && (#[trigger] pieces[i]).contains(id);
        assert(more[i].contains(id));
    }
    if p.contains(id) {
        assert(more[pieces.len() as int].contains(id));
    }
}

/// The ids that the segment `seg` and the run `span` both hold, with the
/// parents of the first of them.
fn overlap(seg: &FlatSegment, span: Span) -> (r: Option<FlatSegment>)
    requires
        seg@.ok(),
    ensures
        match r {
            Some(p) => {
                &&& p@.low.0 <= p@.high.0
                &&& seg@.contains(p@.low)
                &&& seg@.contains(p@.high)
                &&& span.spec_contains(p@.low)
                &&& span.spec_contains(p@.high)
                &&& p@.parents == (if p@.low == seg@.low {
                    seg@.parents
                } else {
                    seq![Id((p@.low.0 - 1) as u64)]
                })
                &&& forall|id: Id|
                    p@.contains(id) <==> seg@.contains(id) && span.spec_contains(id)
            },
            None => forall|id: Id| !(seg@.contains(id) && span.spec_contains(id)),
        },
{
    let low = if span.low.0 > seg.low.0 {
        span.low
    } else {
        seg.low
    };
    let high = if span.high.0 < seg.high.0 {
        span.high
    } else {
        seg.high
    };
    if low.0 > high.0 {
        return None;
    }
    let parents = if low.0 == seg.low.0 {
        vstd::slice::slice_to_vec(seg.parents.as_slice())
    } else {
        let mut one: Vec<Id> = Vec::new();
        one.push(Id(low.0 - 1));
        proof {
            assert(one@ =~= seq![Id((low.0 - 1) as u64)]);
        }
        one
    };
    Some(FlatSegment { low, high, parents })
}

impl IdDag {
    /// The ids of `spans` that the graph has, as flat segments: see `is_cut`.
    pub fn idset_to_flat_segments(&self, spans: &Vec<Span>) -> (pieces: Vec<FlatSegment>)
        requires
            self.wf(),
        ensures
            is_cut(self@, spans@, pieces.deep_view()),
    {
        let ghost s = self@;
        let mut pieces: Vec<FlatSegment> = Vec::new();
        let ghost mut origin: Seq<(int, int)> = Seq::empty();
        let count = self.segment_count();
        let mut k: usize = 0;
        proof {
            assert forall|id: Id| #[trigger]
                covered(pieces.deep_view(), id) <==> cut_upto(s, spans@, 0, 0, id) by {
                lemma_cut_start(s, spans@, id);
            }
        }
        while k < count
            invariant
                s == self@,
                dag_wf(s),
                count == s.len(),
                k <= count,
                origin.len() == pieces@.len(),
                forall|id: Id| #[trigger]
                    covered(pieces.deep_view(), id) <==> cut_upto(s, spans@, k as int, 0, id),
                forall|i: int|
                    0 <= i < pieces@.len() ==> is_piece(s, #[trigger] pieces.deep_view()[i]),
                forall|i: int|
                    0 <= i < origin.len() ==> {
                        let (a, b) = #[trigger] origin[i];
                        &&& 0 <= a < k
                        &&& 0 <= b < spans@.len()
                        &&& s[a].contains(pieces.deep_view()[i].low)
                        &&& s[a].contains(pieces.deep_view()[i].high)
                        &&& spans@[b].spec_contains(pieces.deep_view()[i].low)
                        &&& spans@[b].spec_contains(pieces.deep_view()[i].high)
                    },
                forall|i: int, j: int|
                    0 <= i < j < origin.len() ==> (#[trigger] origin[i]).0 < (
                    #[trigger] origin[j]).0 || (origin[i].0 == origin[j].0 && origin[i].1
                        < origin[j].1),
            decreases count - k,
        {
            let seg = self.flat_segment(k);
            let mut j: usize = 0;
            while j < spans.len()
                invariant
                    s == self@,
                    dag_wf(s),
                    count == s.len(),
                    k < count,
                    seg@ == s[k as int],
                    j <= spans@.len(),
                    origin.len() == pieces@.len(),
                    forall|id: Id| #[trigger]
                        covered(pieces.deep_view(), id) <==> cut_upto(
                            s,
                            spans@,
                            k as int,
                            j as int,
                            id,
                        ),
                    forall|i: int|
                        0 <= i < pieces@.len() ==> is_piece(s, #[trigger] pieces.deep_view()[i]),
                    forall|i: int|
                        0 <= i < origin.len() ==> {
                            let (a, b) = #[trigger] origin[i];
                            &&& 0 <= a <= k
                            &&& 0 <= b < spans@.len()
                            &&& a == k ==> b < j
                            &&& s[a].contains(pieces.deep_view()[i].low)
                            &&& s[a].contains(pieces.deep_view()[i].high)
                            &&& spans@[b].spec_contains(pieces.deep_view()[i].low)
                            &&& spans@[b].spec_contains(pieces.deep_view()[i].high)
                        },
                    forall|i: int, j: int|
                        0 <= i < j < origin.len() ==> (#[trigger] origin[i]).0 < (
                        #[trigger] origin[j]).0 || (origin[i].0 == origin[j].0 && origin[i].1
                            < origin[j].1),
                decreases spans@.len() - j,
            {
                let span = spans[j];
                proof {
                    assert(s[k as int].ok());
                }
                let ghost before = pieces.deep_view();
                match overlap(&seg, span) {
                    Some(piece) => {
                        let ghost p = piece@;
                        pieces.push(piece);
                        proof {
                            assert(pieces.deep_view() =~= before.push(p));
                            origin = origin.push((k as int, j as int));
                            lemma_segment_of(s, k as int, p.low);
                            lemma_segment_of(s, k as int, p.high);
                            assert forall|id: Id| #[trigger]
                                covered(pieces.deep_view(), id) <==> cut_upto(
                                    s,
                                    spans@,
                                    k as int,
                                    j + 1,
                                    id,
                                ) by {
                                lemma_covered_push(before, p, id);
                                lemma_cut_step(s, spans@, k as int, j as int, id);
                            }
                        }
                    },
                    None => {
                        proof {
                            assert forall|id: Id| #[trigger]
                                covered(pieces.deep_view(), id) <==> cut_upto(
                                    s,
                                    spans@,
                                    k as int,
                                    j + 1,
                                    id,
                                ) by {
                                lemma_cut_step(s, spans@, k as int, j as int, id);
                            }
                        }
                    },
                }
                j = j + 1;
            }
            proof {
                assert forall|id: Id| #[trigger]
                    covered(pieces.deep_view(), id) <==> cut_upto(s, spans@, k + 1, 0, id) by {
                    lemma_cut_next(s, spans@, k as int, id);
                }
            }
            k = k + 1;
        }
        proof {
            let all = pieces.deep_view();
            assert forall|id: Id| #[trigger] covered(all, id) <==> in_spans(spans@, id) && covered(
                s,
                id,
            ) by {
                lemma_cut_end(s, spans@, id);
            }
            if spans_ascending(spans@) {
                assert forall|i: int, j: int| 0 <= i < j < all.len() implies (
                #[trigger] all[i]).high.0 < (#[trigger] all[j]).low.0 by {
                    let (a, b) = origin[i];
                    let (c, d) = origin[j];
                    if a < c {
                        lemma_sorted(s, a, c);
                    }
                }
            }
        }
        pieces
    }
}

/// Whether `x` is an ancestor of both `a` and `b`, or one of them and an
/// ancestor of the other.
pub open spec fn is_common(s: Flat, a: Id, b: Id, x: Id) -> bool {
    reaches(s, x, a) && reaches(s, x, b)
}

/// Whether `g` is the last of the ancestors that `a` and `b` have in
/// common, or, where `g` is `None`, they have none.
pub open spec fn is_last_common(s: Flat, a: Id, b: Id, g: Option<Id>) -> bool {
    match g {
        Some(g) => is_common(s, a, b, g) && forall|x: Id| #[trigger]
            is_common(s, a, b, x) ==> x.0 <= g.0,
        None => forall|x: Id| !#[trigger] is_common(s, a, b, x),
    }
}

/// An ancestor that two ids have in common lies in a segment, under
/// the marks of both.
proof fn lemma_common_in_segment(
    s: Flat,
    a: Id,
    b: Id,
    x: Id,
    k: int,
    of_a: Option<Id>,
    of_b: Option<Id>,
)
    requires
        dag_wf(s),
        0 <= k < s.len(),
        s[k].contains(x),
        mark_ok(s, seq![a], k, of_a),
        mark_ok(s, seq![b], k, of_b),
    ensures
        is_common(s, a, b, x) <==> (of_a matches Some(m) && x.0 <= m.0) && (of_b matches Some(m)
            && x.0 <= m.0),
{
    let one = seq![a];
    let other = seq![b];
    assert(reached(s, one, x) <==> reaches(s, x, a)) by {
        if reached(s, one, x) {
            let h = choose|h: int| 0 <= h < one.len() && reaches(s, x, #[trigger] one[h]);
            assert(one[h] == a);
        }
        if reaches(s, x, a) {
            assert(reaches(s, x, one[0]));
        }
    }
    assert(reached(s, other, x) <==> reaches(s, x, b)) by {
        if reached(s, other, x) {
            let h = choose|h: int| 0 <= h < other.len() && reaches(s, x, #[trigger] other[h]);
            assert(other[h] == b);
        }
        if reaches(s, x, b) {
            assert(reaches(s, x, other[0]));
        }
    }
}

impl IdDag {
    /// The last of the ancestors that `a` and `b` have in common, each
    /// of the two counted among its own ancestors; `None` where they
    /// have none.
    pub fn common_ancestor(&self, a: Id, b: Id) -> (g: Option<Id>)
        requires
            self.wf(),
        ensures
            is_last_common(self@, a, b, g),
    {
        let ghost s = self@;
        let mut one: Vec<Id> = Vec::new();
        one.push(a);
        let mut other: Vec<Id> = Vec::new();
        other.push(b);
        let of_a = self.reach_from(one.as_slice());
        let of_b = self.reach_from(other.as_slice());
        proof {
            assert(one@ =~= seq![a]);
            assert(other@ =~= seq![b]);
        }
        let mut k: usize = self.segment_count();
        while k > 0
            invariant
                s == self@,
                dag_wf(s),
                k <= s.len(),
                of_a@.len() == s.len(),
                of_b@.len() == s.len(),
                forall|i: int| 0 <= i < s.len() ==> mark_ok(s, seq![a], i, #[trigger] of_a@[i]),
                forall|i: int| 0 <= i < s.len() ==> mark_ok(s, seq![b], i, #[trigger] of_b@[i]),
                forall|i: int, x: Id|
                    k <= i < s.len() && (#[trigger] s[i]).contains(x) ==> !#[trigger] is_common(
                        s,
                        a,
                        b,
                        x,
                    ),
            decreases k,
        {
            k = k - 1;
            let ghost ma = of_a@[k as int];
            let ghost mb = of_b@[k as int];
            proof {
                assert(mark_ok(s, seq![a], k as int, ma));
                assert(mark_ok(s, seq![b], k as int, mb));
            }
            match (of_a[k], of_b[k]) {
                (Some(m), Some(n)) => {
                    let g = if m.0 <= n.0 {
                        m
                    } else {
                        n
                    };
                    proof {
                        lemma_common_in_segment(s, a, b, g, k as int, ma, mb);
                        assert forall|x: Id| #[trigger] is_common(s, a, b, x) implies x.0
                            <= g.0 by {
                            lemma_reaches_le(s, x, a);
                            let i = choose|i: int|
                                0 <= i < s.len() && i < s.len() && (#[trigger] s[i]).contains(x);
                            if i == k {
                                lemma_common_in_segment(s, a, b, x, k as int, ma, mb);
                            } else if i < k {
                                lemma_sorted(s, i, k as int);
                            }
                        }
                    }
                    return Some(g);
                },
                _ => {
                    proof {
                        assert forall|x: Id| (#[trigger] s[k as int]).contains(x) implies !(
                        #[trigger] is_common(s, a, b, x)) by {
                            lemma_common_in_segment(s, a, b, x, k as int, ma, mb);
                        }
                    }
                },
            }
        }
        proof {
            assert forall|x: Id| !#[trigger] is_common(s, a, b, x) by {
                if is_common(s, a, b, x) {
                    lemma_reaches_le(s, x, a);
                    let i = choose|i: int|
                        0 <= i < s.len() && i < s.len() && (#[trigger] s[i]).contains(x);
                    assert(s[i].contains(x));
                }
            }
        }
        None
    }
}

} // verus!
