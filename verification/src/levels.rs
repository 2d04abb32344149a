//! Segments above the flat ones.
//!
//! A segment of a level above 0 stands for a run of segments of the level
//! below: segments that follow one another without a gap, and of which
//! every one but the last has its head among the parents of a later one,
//! so that the run has a single head. The runs are taken greedily: each
//! starts where the one before it ended and is the longest that has no
//! more than a given number of segments. The levels above 0 hold nothing
//! that the flat segments do not hold: they can be built again from them.

use crate::id::Group;
use crate::id::Id;
use crate::iddag::covered;
use crate::iddag::covered_before;
use crate::iddag::dag_wf;
use crate::iddag::holds;
use crate::iddag::lemma_parent_reaches;
use crate::iddag::lemma_reaches_in_segment;
use crate::iddag::lemma_reaches_le;
use crate::iddag::lemma_reaches_transitive;
use crate::iddag::lemma_segment_of;
use crate::iddag::lemma_stored_wf;
use crate::iddag::parents_of;
use crate::iddag::reaches;
use crate::iddag::stored;
use crate::iddag::Flat;
use crate::iddag::IdDag;
use crate::segment::Level;
use crate::segment::SegmentData;
use crate::segment::SegmentFlags;
use crate::segment::SegmentView;
use crate::segment::RESERVED_LEVEL;
use vstd::prelude::*;

verus! {

/// The segments of one level, in the order of their ids.
pub type Row = Seq<SegmentView>;

/// A row as a mathematical value.
pub open spec fn row_view(row: Seq<SegmentData>) -> Row {
    row.map_values(|d: SegmentData| d@)
}

/// Whether the `n` segments of `row` from the one numbered `start` on
/// follow one another without a gap.
pub open spec fn is_run(row: Row, start: int, n: int) -> bool {
    &&& 0 <= start
    &&& 1 <= n
    &&& start + n <= row.len()
    &&& forall|i: int|
        start < i < start + n ==> (#[trigger] row[i]).low.0 == row[i - 1].high.0 + 1
}

/// Whether the head of the segment numbered `j` is a parent of a segment
/// after it and before the one numbered `end`.
pub open spec fn named_later(row: Row, j: int, end: int) -> bool {
    exists|k: int| j < k < end && (#[trigger] row[k]).parents.contains(row[j].high)
}

/// Whether the `n` segments from the one numbered `start` on have a
/// single head: the head of each but the last is a parent of a later one.
pub open spec fn one_head(row: Row, start: int, n: int) -> bool {
    forall|j: int| start <= j < start + n - 1 ==> #[trigger] named_later(row, j, start + n)
}

/// Whether the `n` segments from the one numbered `start` on can stand
/// behind one segment of the level above, of which none stands for more
/// than `size` segments.
pub open spec fn fits(row: Row, start: int, size: int, n: int) -> bool {
    n <= size && is_run(row, start, n) && one_head(row, start, n)
}

/// Whether `n` is the greatest number of segments from the one numbered
/// `start` on that fit behind one segment.
pub open spec fn is_group_len(row: Row, start: int, size: int, n: int) -> bool {
    fits(row, start, size, n) && forall|m: int| n < m ==> !#[trigger] fits(row, start, size, m)
}

/// The greatest number of segments from the one numbered `start` on that
/// fit behind one segment.
pub open spec fn group_len(row: Row, start: int, size: int) -> int {
    choose|n: int| is_group_len(row, start, size, n)
}

/// Those of `ps` that come before `low`, in their order.
pub open spec fn outside(ps: Seq<Id>, low: Id) -> Seq<Id>
    decreases ps.len(),
{
    if ps.len() == 0 {
        Seq::empty()
    } else if ps.last().0 < low.0 {
        outside(ps.drop_last(), low).push(ps.last())
    } else {
        outside(ps.drop_last(), low)
    }
}

/// The parents of the `n` segments from the one numbered `start` on that
/// come before the first of their ids, in the order of the segments.
pub open spec fn outside_parents(row: Row, start: int, n: int) -> Seq<Id>
    decreases n,
{
    if n <= 0 {
        Seq::empty()
    } else {
        outside_parents(row, start, n - 1) + outside(row[start + n - 1].parents, row[start].low)
    }
}

/// The segment of `level` that stands for the `n` segments from the one
/// numbered `start` on. It has their ids and those of their parents that
/// are not among their ids, and is marked as holding a root where it has
/// no parents.
pub open spec fn group_of(row: Row, start: int, n: int, level: Level) -> SegmentView {
    let parents = outside_parents(row, start, n);
    SegmentView {
        flags: SegmentFlags { has_root: parents.len() == 0, only_head: false },
        level,
        low: row[start].low,
        high: row[start + n - 1].high,
        parents,
    }
}

/// The segments of `level` that stand for the segments of `row` from the
/// one numbered `start` on, none of them for more than `size`.
pub open spec fn grouped(row: Row, start: int, size: int, level: Level) -> Row
    decreases row.len() - start,
{
    if 0 <= start < row.len() && size >= 1 {
        let n = group_len(row, start, size);
        if 1 <= n <= row.len() - start {
            seq![group_of(row, start, n, level)] + grouped(row, start + n, size, level)
        } else {
            Seq::empty()
        }
    } else {
        Seq::empty()
    }
}

/// Only one number is the greatest that fits.
pub proof fn lemma_group_len(row: Row, start: int, size: int, n: int)
    requires
        is_group_len(row, start, size, n),
    ensures
        group_len(row, start, size) == n,
{
    let m = group_len(row, start, size);
    assert(is_group_len(row, start, size, m));
    if m < n {
        assert(fits(row, start, size, n));
    }
    if n < m {
        assert(fits(row, start, size, m));
    }
}

/// One segment more names the segments that were named, and those whose
/// head is among its parents.
pub proof fn lemma_named_step(row: Row, j: int, end: int)
    requires
        0 <= j < end < row.len(),
    ensures
        named_later(row, j, end + 1) <==> named_later(row, j, end) || row[end].parents.contains(
            row[j].high,
        ),
{
    if named_later(row, j, end + 1) {
        let k = choose|k: int| j < k < end + 1 && (#[trigger] row[k]).parents.contains(row[j].high);
        if k < end {
            assert(named_later(row, j, end));
        }
    }
    if named_later(row, j, end) {
        let k = choose|k: int| j < k < end && (#[trigger] row[k]).parents.contains(row[j].high);
        assert(j < k < end + 1 && row[k].parents.contains(row[j].high));
    }
    if row[end].parents.contains(row[j].high) {
        assert(j < end < end + 1 && row[end].parents.contains(row[j].high));
    }
}

/// What the segments of a row have in common: each is well-formed, and
/// all are of one group.
pub open spec fn row_ok(row: Row) -> bool {
    forall|i: int|
        0 <= i < row.len() ==> (#[trigger] row[i]).wf() && row[i].low.spec_group()
            == row[0].low.spec_group()
}

/// Whether one of the segments of `row` numbered from `from` up to, but
/// without, `upto` holds `id`.
pub open spec fn row_holds(row: Row, from: int, upto: int, id: Id) -> bool {
    exists|j: int| from <= j < upto && 0 <= j < row.len() && (#[trigger] row[j]).contains(id)
}

/// Whether no segment of `row` ends before it starts.
pub open spec fn spans_ok(row: Row) -> bool {
    forall|i: int| 0 <= i < row.len() ==> (#[trigger] row[i]).low.0 <= row[i].high.0
}

/// One segment alone fits behind a segment of the level above.
pub proof fn lemma_one_fits(row: Row, start: int, size: int)
    requires
        0 <= start < row.len(),
        size >= 1,
    ensures
        fits(row, start, size, 1),
{
}

/// Where nothing above `m` fits, some number up to `m` is the greatest
/// that fits.
proof fn lemma_greatest(row: Row, start: int, size: int, m: int)
    requires
        m >= 1,
        fits(row, start, size, 1),
        forall|k: int| m < k ==> !#[trigger] fits(row, start, size, k),
    ensures
        exists|n: int| is_group_len(row, start, size, n),
    decreases m,
{
    if fits(row, start, size, m) {
        assert(is_group_len(row, start, size, m));
    } else {
        lemma_greatest(row, start, size, m - 1);
    }
}

/// From every segment of a row on, some number of segments is the
/// greatest that fits behind one segment, and it is `group_len`.
pub proof fn lemma_group_exists(row: Row, start: int, size: int)
    requires
        0 <= start < row.len(),
        size >= 1,
    ensures
        is_group_len(row, start, size, group_len(row, start, size)),
        1 <= group_len(row, start, size) <= size,
        start + group_len(row, start, size) <= row.len(),
{
    lemma_one_fits(row, start, size);
    lemma_greatest(row, start, size, size);
}

/// The segments of a run come one after another.
pub proof fn lemma_run_bounds(row: Row, start: int, n: int, j: int)
    requires
        is_run(row, start, n),
        spans_ok(row),
        start <= j < start + n,
    ensures
        row[start].low.0 <= row[j].low.0,
    decreases j - start,
{
    if j > start {
        lemma_run_bounds(row, start, n, j - 1);
        assert(row[j].low.0 == row[j - 1].high.0 + 1);
    }
}

/// The ids from the first of a run to its last are the ids of its segments.
pub proof fn lemma_run_holds(row: Row, start: int, n: int, id: Id)
    requires
        is_run(row, start, n),
        spans_ok(row),
    ensures
        row[start].low.0 <= id.0 <= row[start + n - 1].high.0 <==> row_holds(
            row,
            start,
            start + n,
            id,
        ),
    decreases n,
{
    let end = start + n - 1;
    if n == 1 {
        if row_holds(row, start, start + n, id) {
            let j = choose|j: int|
                start <= j < start + n && 0 <= j < row.len() && (#[trigger] row[j]).contains(id);
            assert(j == start);
        }
        if row[start].contains(id) {
            assert(row_holds(row, start, start + n, id));
        }
    } else {
        assert(is_run(row, start, n - 1));
        lemma_run_holds(row, start, n - 1, id);
        lemma_run_bounds(row, start, n, end);
        assert(row[end].low.0 == row[end - 1].high.0 + 1);
        if row_holds(row, start, start + n, id) {
            let j = choose|j: int|
                start <= j < start + n && 0 <= j < row.len() && (#[trigger] row[j]).contains(id);
            if j < end {
                assert(row_holds(row, start, start + n - 1, id));
            }
        }
        if row[start].low.0 <= id.0 <= row[end].high.0 {
            if id.0 <= row[end - 1].high.0 {
                let j = choose|j: int|
                    start <= j < start + n - 1 && 0 <= j < row.len() && (
                    #[trigger] row[j]).contains(id);
                assert(start <= j < start + n && row[j].contains(id));
            } else {
                assert(row[end].contains(id));
            }
        }
    }
}

/// The segments of a level hold the ids that the segments of the level
/// below hold, and no others.
pub proof fn lemma_grouped_holds(row: Row, start: int, size: int, level: Level, id: Id)
    requires
        0 <= start <= row.len(),
        size >= 1,
        spans_ok(row),
    ensures
        row_holds(
            grouped(row, start, size, level),
            0,
            grouped(row, start, size, level).len() as int,
            id,
        ) <==> row_holds(row, start, row.len() as int, id),
    decreases row.len() - start,
{
    let g = grouped(row, start, size, level);
    if start < row.len() {
        lemma_group_exists(row, start, size);
        let n = group_len(row, start, size);
        let first = group_of(row, start, n, level);
        let rest = grouped(row, start + n, size, level);
        assert(g == seq![first] + rest);
        lemma_grouped_holds(row, start + n, size, level, id);
        lemma_run_holds(row, start, n, id);
        if row_holds(g, 0, g.len() as int, id) {
            let i = choose|i: int|
                0 <= i < g.len() && 0 <= i < g.len() && (#[trigger] g[i]).contains(id);
            if i == 0 {
                let j = choose|j: int|
                    start <= j < start + n && 0 <= j < row.len() && (#[trigger] row[j]).contains(
                        id,
                    );
                assert(start <= j < row.len() && row[j].contains(id));
            } else {
                assert(rest[i - 1] == g[i]);
                assert(row_holds(rest, 0, rest.len() as int, id));
                let j = choose|j: int|
                    start + n <= j < row.len() && 0 <= j < row.len() && (
                    #[trigger] row[j]).contains(id);
                assert(start <= j < row.len() && row[j].contains(id));
            }
        }
        if row_holds(row, start, row.len() as int, id) {
            let j = choose|j: int|
                start <= j < row.len() && 0 <= j < row.len() && (#[trigger] row[j]).contains(id);
            if j < start + n {
                assert(row_holds(row, start, start + n, id));
                assert(g[0].contains(id));
            } else {
                assert(row_holds(row, start + n, row.len() as int, id));
                let i = choose|i: int|
                    0 <= i < rest.len() && 0 <= i < rest.len() && (#[trigger] rest[i]).contains(id);
                assert(g[i + 1] == rest[i]);
                assert(0 <= i + 1 < g.len() && g[i + 1].contains(id));
            }
        }
    }
}

/// Those of some ids that come before an id are among them and come
/// before it.
pub proof fn lemma_outside(ps: Seq<Id>, low: Id, p: Id)
    ensures
        outside(ps, low).contains(p) <==> ps.contains(p) && p.0 < low.0,
    decreases ps.len(),
{
    if ps.len() > 0 {
        let rest = ps.drop_last();
        lemma_outside(rest, low, p);
        if outside(ps, low).contains(p) {
            let i = choose|i: int| 0 <= i < outside(ps, low).len() && outside(ps, low)[i] == p;
            if ps.last().0 < low.0 && i == outside(rest, low).len() {
                assert(ps[ps.len() - 1] == p);
            } else {
                assert(outside(rest, low)[i] == p);
                let j = choose|j: int| 0 <= j < rest.len() && rest[j] == p;
                assert(ps[j] == p);
            }
        }
        if ps.contains(p) && p.0 < low.0 {
            let j = choose|j: int| 0 <= j < ps.len() && ps[j] == p;
            if j == ps.len() - 1 {
                assert(outside(ps, low)[outside(rest, low).len() as int] == p);
            } else {
                assert(rest[j] == p);
                let i = choose|i: int| 0 <= i < outside(rest, low).len() && outside(rest, low)[i]
                    == p;
                assert(outside(ps, low)[i] == p);
            }
        }
    }
}

/// A parent of the segment that stands for a run is a parent of a
/// segment of the run and comes before the ids of the run.
pub proof fn lemma_outside_parents(row: Row, start: int, n: int, p: Id)
    requires
        0 <= start,
        0 <= n,
        start + n <= row.len(),
    ensures
        outside_parents(row, start, n).contains(p) <==> p.0 < row[start].low.0 && exists|j: int|
            start <= j < start + n && (#[trigger] row[j]).parents.contains(p),
    decreases n,
{
    if n > 0 {
        let before = outside_parents(row, start, n - 1);
        let last = outside(row[start + n - 1].parents, row[start].low);
        lemma_outside_parents(row, start, n - 1, p);
        lemma_outside(row[start + n - 1].parents, row[start].low, p);
        let all = outside_parents(row, start, n);
        assert(all == before + last);
        if all.contains(p) {
            let i = choose|i: int| 0 <= i < all.len() && all[i] == p;
            if i < before.len() {
                assert(before[i] == p);
                let j = choose|j: int|
                    start <= j < start + n - 1 && (#[trigger] row[j]).parents.contains(p);
                assert(start <= j < start + n && row[j].parents.contains(p));
            } else {
                assert(last[i - before.len()] == p);
                assert(row[start + n - 1].parents.contains(p));
            }
        }
        if p.0 < row[start].low.0 && exists|j: int|
            start <= j < start + n && (#[trigger] row[j]).parents.contains(p) {
            let j = choose|j: int|
                start <= j < start + n && (#[trigger] row[j]).parents.contains(p);
            if j < start + n - 1 {
                let i = choose|i: int| 0 <= i < before.len() && before[i] == p;
                assert(all[i] == p);
            } else {
                let i = choose|i: int| 0 <= i < last.len() && last[i] == p;
                assert(all[before.len() + i] == p);
            }
        }
    }
}

/// The segment that stands for a run of well-formed segments of one
/// group is well-formed, and its parents come before its ids.
pub proof fn lemma_group_wf(row: Row, start: int, n: int, level: Level)
    requires
        row_ok(row),
        is_run(row, start, n),
        level != 0,
        level != RESERVED_LEVEL,
        outside_parents(row, start, n).len() <= u64::MAX,
    ensures
        group_of(row, start, n, level).wf(),
        group_of(row, start, n, level).low.spec_group() == row[0].low.spec_group(),
        forall|k: int|
            0 <= k < group_of(row, start, n, level).parents.len() ==> (#[trigger] group_of(
                row,
                start,
                n,
                level,
            ).parents[k]).0 < row[start].low.0,
{
    let end = start + n - 1;
    assert(row[start].wf());
    assert(row[end].wf());
    lemma_run_bounds(row, start, n, end);
    let g = group_of(row, start, n, level);
    assert forall|k: int| 0 <= k < g.parents.len() implies (#[trigger] g.parents[k]).0
        < row[start].low.0 by {
        lemma_outside_parents(row, start, n, g.parents[k]);
    }
}

/// How many segments from the one numbered `start` on follow one another
/// without a gap, up to `size`.
fn run_limit(row: &Vec<SegmentData>, start: usize, size: usize) -> (limit: usize)
    requires
        start < row@.len(),
        size >= 1,
    ensures
        limit <= size,
        is_run(row_view(row@), start as int, limit as int),
        forall|m: int| limit < m <= size ==> !is_run(row_view(row@), start as int, m),
{
    let ghost r = row_view(row@);
    let mut n: usize = 1;
    while n < size && n < row.len() - start
        invariant
            r == row_view(row@),
            start < row@.len(),
            1 <= n <= size,
            start + n <= row@.len(),
            is_run(r, start as int, n as int),
        decreases size - n,
    {
        let prev = &row[start + n - 1];
        let next = &row[start + n];
        if prev.high.0 == u64::MAX || prev.high.0 + 1 != next.low.0 {
            proof {
                assert(r[start + n] == next@);
                assert(r[start + n - 1] == prev@);
                assert forall|m: int| n < m <= size implies !is_run(r, start as int, m) by {
                    if is_run(r, start as int, m) {
                        assert(r[start + n].low.0 == r[start + n - 1].high.0 + 1);
                    }
                }
            }
            return n;
        }
        proof {
            assert(r[start + n] == next@);
            assert(r[start + n - 1] == prev@);
        }
        n = n + 1;
    }
    n
}

/// The greatest number of segments from the one numbered `start` on that
/// fit behind one segment.
fn find_group(row: &Vec<SegmentData>, start: usize, size: usize) -> (best: usize)
    requires
        start < row@.len(),
        size >= 1,
    ensures
        is_group_len(row_view(row@), start as int, size as int, best as int),
{
    let ghost r = row_view(row@);
    let len = row.len();
    let limit = run_limit(row, start, size);
    let mut named: Vec<bool> = Vec::new();
    named.push(false);
    let mut first: usize = 0;
    let mut best: usize = 1;
    let mut n: usize = 1;
    proof {
        assert(!named_later(r, start as int, start + 1));
    }
    while n < limit
        invariant
            r == row_view(row@),
            len == row@.len(),
            1 <= n <= limit <= size,
            is_run(r, start as int, limit as int),
            named@.len() == n,
            forall|j: int|
                0 <= j < n ==> #[trigger] named@[j] == named_later(r, start + j, start + n),
            first < n,
            !named@[first as int],
            forall|j: int| 0 <= j < first ==> #[trigger] named@[j],
            1 <= best <= n,
            one_head(r, start as int, best as int),
            forall|m: int| best < m <= n ==> !one_head(r, start as int, m),
        decreases limit - n,
    {
        let member = &row[start + n];
        let ghost held = named@;
        let mut j: usize = 0;
        while j < n
            invariant
                r == row_view(row@),
                len == row@.len(),
                n < limit,
                forall|i: int| 0 <= i < n && held[i] ==> #[trigger] named@[i],
                is_run(r, start as int, limit as int),
                member == &row@[start + n],
                named@.len() == n,
                j <= n,
                forall|i: int|
                    0 <= i < j ==> #[trigger] named@[i] == named_later(
                        r,
                        start + i,
                        start + n + 1,
                    ),
                forall|i: int|
                    j <= i < n ==> #[trigger] named@[i] == named_later(r, start + i, start + n),
            decreases n - j,
        {
            let head = row[start + j].high;
            let is_parent = holds(&member.parents, head);
            proof {
                lemma_named_step(r, start + j, start + n);
                assert(r[start + n] == member@);
                assert(r[start + j] == row@[start + j]@);
            }
            if is_parent {
                named.set(j, true);
            }
            j = j + 1;
        }
        named.push(false);
        n = n + 1;
        proof {
            assert(!named_later(r, start + n - 1, start + n));
        }
        while named[first]
            invariant
                first < n,
                named@.len() == n,
                !named@[n - 1],
                forall|j: int| 0 <= j < first ==> #[trigger] named@[j],
            decreases n - first,
        {
            first = first + 1;
        }
        if first == n - 1 {
            best = n;
            proof {
                assert forall|j: int| start <= j < start + n - 1 implies #[trigger] named_later(
                    r,
                    j,
                    start + n,
                ) by {
                    assert(named@[j - start]);
                }
            }
        } else {
            proof {
                assert(named@[first as int] == named_later(r, start + first, start + n));
                assert(!one_head(r, start as int, n as int));
            }
        }
    }
    proof {
        assert forall|i: int| start < i < start + best implies (#[trigger] r[i]).low.0 == r[i
            - 1].high.0 + 1 by {}
        assert forall|m: int| best < m implies !#[trigger] fits(
            r,
            start as int,
            size as int,
            m,
        ) by {
            if m <= limit {
                assert(!one_head(r, start as int, m));
            } else if m <= size {
                assert(!is_run(r, start as int, m));
            }
        }
    }
    best
}

/// Adds to `out` those of `ps` that come before `low`.
fn push_outside(out: &mut Vec<Id>, ps: &Vec<Id>, low: Id)
    ensures
        final(out)@ == old(out)@ + outside(ps@, low),
{
    let ghost before = out@;
    let mut i: usize = 0;
    proof {
        assert(ps@.take(0) =~= Seq::<Id>::empty());
        assert(out@ =~= before + outside(ps@.take(0), low));
    }
    while i < ps.len()
        invariant
            i <= ps@.len(),
            out@ == before + outside(ps@.take(i as int), low),
        decreases ps@.len() - i,
    {
        let ghost held = out@;
        if ps[i].0 < low.0 {
            out.push(ps[i]);
        }
        proof {
            assert(ps@.take(i + 1).drop_last() =~= ps@.take(i as int));
            assert(ps@.take(i + 1).last() == ps@[i as int]);
            assert(out@ =~= before + outside(ps@.take(i + 1), low));
        }
        i = i + 1;
    }
    proof {
        assert(ps@.take(ps@.len() as int) =~= ps@);
    }
}

/// The segment of `level` that stands for the `n` segments from the one
/// numbered `start` on.
fn make_group(row: &Vec<SegmentData>, start: usize, n: usize, level: Level) -> (group: SegmentData)
    requires
        1 <= n,
        start + n <= row@.len(),
    ensures
        group@ == group_of(row_view(row@), start as int, n as int, level),
{
    let ghost r = row_view(row@);
    let len = row.len();
    let low = row[start].low;
    let high = row[start + n - 1].high;
    let mut parents: Vec<Id> = Vec::new();
    let mut k: usize = 0;
    proof {
        assert(parents@ =~= outside_parents(r, start as int, 0));
    }
    while k < n
        invariant
            r == row_view(row@),
            len == row@.len(),
            start + n <= row@.len(),
            k <= n,
            low == r[start as int].low,
            parents@ == outside_parents(r, start as int, k as int),
        decreases n - k,
    {
        proof {
            assert(r[start + k] == row@[start + k]@);
        }
        push_outside(&mut parents, &row[start + k].parents, low);
        k = k + 1;
    }
    proof {
        assert(r[start + n - 1] == row@[start + n - 1]@);
    }
    SegmentData {
        flags: SegmentFlags { has_root: parents.len() == 0, only_head: false },
        level,
        low,
        high,
        parents,
    }
}

/// Builds the segments of `level` from the segments `row` of the level
/// below, so that none stands for more than `size` of them.
pub fn build_level(row: &Vec<SegmentData>, level: Level, size: usize) -> (built: Vec<SegmentData>)
    ensures
        row_view(built@) == grouped(row_view(row@), 0, size as int, level),
        row_ok(row_view(row@)) && level != 0 && level != RESERVED_LEVEL ==> row_ok(
            row_view(built@),
        ),
{
    let ghost r = row_view(row@);
    let mut built: Vec<SegmentData> = Vec::new();
    if size == 0 {
        proof {
            assert(row_view(built@) =~= grouped(r, 0, 0, level));
        }
        return built;
    }
    let mut start: usize = 0;
    proof {
        assert(row_view(built@) + grouped(r, 0, size as int, level) =~= grouped(
            r,
            0,
            size as int,
            level,
        ));
    }
    while start < row.len()
        invariant
            r == row_view(row@),
            size >= 1,
            start <= row@.len(),
            row_view(built@) + grouped(r, start as int, size as int, level) == grouped(
                r,
                0,
                size as int,
                level,
            ),
            row_ok(r) && level != 0 && level != RESERVED_LEVEL ==> forall|k: int|
                0 <= k < built@.len() ==> (#[trigger] row_view(built@)[k]).wf() && row_view(
                    built@,
                )[k].low.spec_group() == r[0].low.spec_group(),
        decreases row@.len() - start,
    {
        let n = find_group(row, start, size);
        let group = make_group(row, start, n, level);
        let count_of_parents = group.parents.len();
        let ghost before = built@;
        built.push(group);
        proof {
            lemma_group_len(r, start as int, size as int, n as int);
            assert(row_view(built@) =~= row_view(before).push(group@));
            if row_ok(r) && level != 0 && level != RESERVED_LEVEL {
                assert(group@.parents.len() == count_of_parents);
                lemma_group_wf(r, start as int, n as int, level);
            }
            assert(row_view(built@) + grouped(r, start + n, size as int, level) =~= row_view(before)
                + grouped(r, start as int, size as int, level));
        }
        start = start + n;
    }
    proof {
        assert(row_view(built@) + grouped(r, start as int, size as int, level) =~= row_view(
            built@,
        ));
    }
    built
}

/// Whether `p` is a parent of one of the ids of the segment `v`.
pub open spec fn parent_within(s: Flat, v: SegmentView, p: Id) -> bool {
    exists|x: Id| #[trigger] v.contains(x) && parents_of(s, x).contains(p)
}

/// Whether the segment `v` says of the graph `s` what holds of it: each
/// of its ids is an ancestor of its head, and each of its parents is a
/// parent of one of its ids.
pub open spec fn sound(s: Flat, v: SegmentView) -> bool {
    &&& forall|x: Id| #[trigger] v.contains(x) ==> reaches(s, x, v.high)
    &&& forall|k: int| 0 <= k < v.parents.len() ==> parent_within(s, v, #[trigger] v.parents[k])
}

/// Whether the segments of `row` from the one numbered `from` up to, but
/// without, `upto` are sound.
pub open spec fn sound_within(s: Flat, row: Row, from: int, upto: int) -> bool {
    forall|j: int| from <= j < upto && 0 <= j < row.len() ==> sound(s, #[trigger] row[j])
}

/// In a run with a single head, the head of every segment is an
/// ancestor of the head of the last.
pub proof fn lemma_head_reaches(s: Flat, row: Row, start: int, n: int, j: int)
    requires
        dag_wf(s),
        is_run(row, start, n),
        one_head(row, start, n),
        spans_ok(row),
        sound_within(s, row, start, start + n),
        start <= j < start + n,
    ensures
        reaches(s, row[j].high, row[start + n - 1].high),
    decreases start + n - j,
{
    let end = start + n - 1;
    assert(sound(s, row[j]));
    assert(row[j].contains(row[j].high));
    if j < end {
        assert(named_later(row, j, start + n));
        let k = choose|k: int|
            j < k < start + n && (#[trigger] row[k]).parents.contains(row[j].high);
        let head = row[j].high;
        let at = choose|at: int| 0 <= at < row[k].parents.len() && row[k].parents[at] == head;
        assert(sound(s, row[k]));
        assert(parent_within(s, row[k], row[k].parents[at]));
        let x = choose|x: Id| #[trigger] row[k].contains(x) && parents_of(s, x).contains(head);
        let m = choose|m: int| 0 <= m < parents_of(s, x).len() && parents_of(s, x)[m] == head;
        assert(reaches(s, x, row[k].high));
        lemma_reaches_le(s, x, row[k].high);
        lemma_parent_reaches(s, x, m);
        lemma_head_reaches(s, row, start, n, k);
        lemma_reaches_transitive(s, head, x, row[k].high);
        lemma_reaches_transitive(s, head, row[k].high, row[end].high);
    }
}

/// The segment that stands for a run of sound segments with a single
/// head is sound.
pub proof fn lemma_group_sound(s: Flat, row: Row, start: int, n: int, level: Level)
    requires
        dag_wf(s),
        is_run(row, start, n),
        one_head(row, start, n),
        spans_ok(row),
        sound_within(s, row, start, start + n),
    ensures
        sound(s, group_of(row, start, n, level)),
{
    let g = group_of(row, start, n, level);
    let end = start + n - 1;
    assert forall|x: Id| #[trigger] g.contains(x) implies reaches(s, x, g.high) by {
        lemma_run_holds(row, start, n, x);
        let j = choose|j: int|
            start <= j < start + n && 0 <= j < row.len() && (#[trigger] row[j]).contains(x);
        assert(sound(s, row[j]));
        lemma_head_reaches(s, row, start, n, j);
        lemma_reaches_transitive(s, x, row[j].high, row[end].high);
    }
    assert forall|k: int| 0 <= k < g.parents.len() implies parent_within(
        s,
        g,
        #[trigger] g.parents[k],
    ) by {
        let p = g.parents[k];
        lemma_outside_parents(row, start, n, p);
        let j = choose|j: int| start <= j < start + n && (#[trigger] row[j]).parents.contains(p);
        let at = choose|at: int| 0 <= at < row[j].parents.len() && row[j].parents[at] == p;
        assert(sound(s, row[j]));
        assert(parent_within(s, row[j], row[j].parents[at]));
        let x = choose|x: Id| #[trigger] row[j].contains(x) && parents_of(s, x).contains(p);
        lemma_run_holds(row, start, n, x);
        assert(g.contains(x));
    }
}

/// The segments that stand for the runs of a row of sound segments are sound.
pub proof fn lemma_grouped_sound(s: Flat, row: Row, start: int, size: int, level: Level)
    requires
        dag_wf(s),
        0 <= start <= row.len(),
        size >= 1,
        spans_ok(row),
        sound_within(s, row, 0, row.len() as int),
    ensures
        sound_within(
            s,
            grouped(row, start, size, level),
            0,
            grouped(row, start, size, level).len() as int,
        ),
        spans_ok(grouped(row, start, size, level)),
    decreases row.len() - start,
{
    let g = grouped(row, start, size, level);
    if start < row.len() {
        lemma_group_exists(row, start, size);
        let n = group_len(row, start, size);
        let first = group_of(row, start, n, level);
        let rest = grouped(row, start + n, size, level);
        assert(g == seq![first] + rest);
        lemma_grouped_sound(s, row, start + n, size, level);
        lemma_group_sound(s, row, start, n, level);
        lemma_run_bounds(row, start, n, start + n - 1);
        assert forall|i: int| 0 <= i < g.len() implies sound(s, #[trigger] g[i]) && g[i].low.0
            <= g[i].high.0 by {
            if i > 0 {
                assert(g[i] == rest[i - 1]);
            }
        }
    }
}

/// A flat segment of a graph, as the segment store records it, is sound.
pub proof fn lemma_stored_sound(s: Flat, i: int)
    requires
        dag_wf(s),
        0 <= i < s.len(),
    ensures
        sound(s, stored(s, i)),
{
    let v = stored(s, i);
    assert(s[i].ok());
    assert forall|x: Id| #[trigger] v.contains(x) implies reaches(s, x, v.high) by {
        lemma_reaches_in_segment(s, i, x, v.high);
    }
    assert forall|k: int| 0 <= k < v.parents.len() implies parent_within(
        s,
        v,
        #[trigger] v.parents[k],
    ) by {
        lemma_segment_of(s, i, v.low);
        assert(v.contains(v.low));
        assert(parents_of(s, v.low)[k] == v.parents[k]);
    }
}

/// The flat segments of `group` among the first `upto` segments of `s`,
/// as the segment store records them.
pub open spec fn flat_row(s: Flat, upto: int, group: Group) -> Row
    decreases upto,
{
    if upto <= 0 {
        Seq::empty()
    } else if s[upto - 1].low.spec_group() == Some(group) {
        flat_row(s, upto - 1, group).push(stored(s, upto - 1))
    } else {
        flat_row(s, upto - 1, group)
    }
}

/// The segments of `level` of `group` in the graph `s`, where no segment
/// stands for more than `size` segments of the level below: the flat
/// segments at level 0, and above it what the level below is grouped to.
pub open spec fn level_row(s: Flat, group: Group, level: nat, size: int) -> Row
    decreases level,
{
    if level == 0 {
        flat_row(s, s.len() as int, group)
    } else {
        grouped(level_row(s, group, (level - 1) as nat, size), 0, size, level as Level)
    }
}

/// The flat segments of a group are sound.
pub proof fn lemma_flat_row_sound(s: Flat, upto: int, group: Group)
    requires
        dag_wf(s),
        0 <= upto <= s.len(),
    ensures
        sound_within(s, flat_row(s, upto, group), 0, flat_row(s, upto, group).len() as int),
        spans_ok(flat_row(s, upto, group)),
    decreases upto,
{
    if upto > 0 {
        lemma_flat_row_sound(s, upto - 1, group);
        lemma_stored_sound(s, upto - 1);
        assert(s[upto - 1].ok());
    }
}

/// The flat segments of a group hold the ids of the group that the
/// graph has.
pub proof fn lemma_flat_row_holds(s: Flat, upto: int, group: Group, id: Id)
    requires
        dag_wf(s),
        0 <= upto <= s.len(),
    ensures
        row_holds(flat_row(s, upto, group), 0, flat_row(s, upto, group).len() as int, id)
            <==> id.spec_group() == Some(group) && covered_before(s, upto, id),
    decreases upto,
{
    let row = flat_row(s, upto, group);
    if upto > 0 {
        let rest = flat_row(s, upto - 1, group);
        let last = s[upto - 1];
        lemma_flat_row_holds(s, upto - 1, group, id);
        assert(last.ok());
        let here = last.low.spec_group() == Some(group) && last.contains(id);
        assert(here ==> id.spec_group() == Some(group));
        assert(last.contains(id) ==> id.spec_group() == last.low.spec_group());
        assert(row_holds(row, 0, row.len() as int, id) <==> row_holds(
            rest,
            0,
            rest.len() as int,
            id,
        ) || here) by {
            if row_holds(row, 0, row.len() as int, id) {
                let i = choose|i: int|
                    0 <= i < row.len() && 0 <= i < row.len() && (#[trigger] row[i]).contains(id);
                if i < rest.len() {
                    assert(rest[i] == row[i]);
                }
            }
            if row_holds(rest, 0, rest.len() as int, id) {
                let i = choose|i: int|
                    0 <= i < rest.len() && 0 <= i < rest.len() && (#[trigger] rest[i]).contains(id);
                assert(row[i] == rest[i]);
            }
            if here {
                assert(row[row.len() - 1].contains(id));
            }
        }
        assert(covered_before(s, upto, id) <==> covered_before(s, upto - 1, id) || last.contains(
            id,
        )) by {
            if covered_before(s, upto, id) {
                let j = choose|j: int|
                    0 <= j < upto && j < s.len() && (#[trigger] s[j]).contains(id);
                if j < upto - 1 {
                    assert(covered_before(s, upto - 1, id));
                }
            }
            if covered_before(s, upto - 1, id) {
                let j = choose|j: int|
                    0 <= j < upto - 1 && j < s.len() && (#[trigger] s[j]).contains(id);
                assert(0 <= j < upto && s[j].contains(id));
            }
            if last.contains(id) {
                assert(s[upto - 1].contains(id));
            }
        }
    } else {
        if covered_before(s, upto, id) {
            let j = choose|j: int| 0 <= j < upto && j < s.len() && (#[trigger] s[j]).contains(id);
        }
    }
}

/// The segments of every level are sound: each id of a segment is an
/// ancestor of its head, and each parent of a segment is a parent of one
/// of its ids.
pub proof fn lemma_level_sound(s: Flat, group: Group, level: nat, size: int)
    requires
        dag_wf(s),
        size >= 1,
    ensures
        sound_within(
            s,
            level_row(s, group, level, size),
            0,
            level_row(s, group, level, size).len() as int,
        ),
        spans_ok(level_row(s, group, level, size)),
    decreases level,
{
    if level == 0 {
        lemma_flat_row_sound(s, s.len() as int, group);
    } else {
        let below = level_row(s, group, (level - 1) as nat, size);
        lemma_level_sound(s, group, (level - 1) as nat, size);
        lemma_grouped_sound(s, below, 0, size, level as Level);
    }
}

/// The segments of every level hold the ids of the group that the graph
/// has, and no others.
pub proof fn lemma_level_holds(s: Flat, group: Group, level: nat, size: int, id: Id)
    requires
        dag_wf(s),
        size >= 1,
    ensures
        row_holds(
            level_row(s, group, level, size),
            0,
            level_row(s, group, level, size).len() as int,
            id,
        ) <==> covered(s, id) && id.spec_group() == Some(group),
    decreases level,
{
    if level == 0 {
        lemma_flat_row_holds(s, s.len() as int, group, id);
    } else {
        let below = level_row(s, group, (level - 1) as nat, size);
        lemma_level_sound(s, group, (level - 1) as nat, size);
        lemma_level_holds(s, group, (level - 1) as nat, size, id);
        lemma_grouped_holds(below, 0, size, level as Level, id);
    }
}

impl IdDag {
    /// The flat segments of `group`, as the segment store records them.
    pub fn flat_level(&self, group: Group) -> (row: Vec<SegmentData>)
        requires
            self.wf(),
        ensures
            row_view(row@) == flat_row(self@, self@.len() as int, group),
            row_ok(row_view(row@)),
    {
        let ghost s = self@;
        let mut row: Vec<SegmentData> = Vec::new();
        let count = self.segment_count();
        let mut i: usize = 0;
        proof {
            assert(row_view(row@) =~= flat_row(s, 0, group));
        }
        while i < count
            invariant
                s == self@,
                self.wf(),
                count == s.len(),
                i <= count,
                row_view(row@) == flat_row(s, i as int, group),
                forall|k: int|
                    0 <= k < row@.len() ==> (#[trigger] row_view(row@)[k]).wf() && row_view(
                        row@,
                    )[k].low.spec_group() == Some(group),
            decreases count - i,
        {
            let seg = self.segment_data(i);
            let ghost before = row@;
            if group.contains(seg.low) {
                let count_of_parents = seg.parents.len();
                proof {
                    assert(s[i as int].parents.len() == count_of_parents);
                    lemma_stored_wf(s, i as int);
                }
                row.push(seg);
                proof {
                    assert(row_view(row@) =~= row_view(before).push(seg@));
                }
            }
            i = i + 1;
        }
        row
    }

    /// The segments of `level` of `group`, built from the flat segments
    /// so that no segment stands for more than `size` segments of the
    /// level below.
    pub fn level_segments(&self, group: Group, level: Level, size: usize) -> (row: Vec<
        SegmentData,
    >)
        requires
            self.wf(),
        ensures
            row_view(row@) == level_row(self@, group, level as nat, size as int),
            level < RESERVED_LEVEL ==> row_ok(row_view(row@)),
    {
        let ghost s = self@;
        let mut row = self.flat_level(group);
        let mut built: Level = 0;
        while built < level
            invariant
                built <= level,
                row_view(row@) == level_row(s, group, built as nat, size as int),
                level < RESERVED_LEVEL ==> row_ok(row_view(row@)),
            decreases level - built,
        {
            built = built + 1;
            row = build_level(&row, built, size);
        }
        row
    }
}

} // verus!
