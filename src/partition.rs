use vstd::prelude::*;

use vstd::arithmetic::div_mod::{lemma_div_is_ordered, lemma_div_multiples_vanish};
use vstd::arithmetic::mul::lemma_mul_inequality;

verus! {

/// The half-open interval `[start, end)` of candidates handed to one worker.
#[derive(Clone, Copy, Debug, PartialEq, Eq, Structural)]
pub struct SearchRange {
    pub start: usize,
    pub end: usize,
}

impl SearchRange {
    /// `x` lies in this range.
    pub open spec fn holds(self, x: int) -> bool {
        self.start <= x < self.end
    }
}

/// Some range of `rs` holds `x`.
pub open spec fn covered(rs: Seq<SearchRange>, x: int) -> bool {
    exists|i: int| 0 <= i < rs.len() && #[trigger] rs[i].holds(x)
}

/// The `i`-th cut point when `[3, limit)` is split into `worker_count` parts:
/// `3 + i * (limit - 3) / worker_count`, rounded down. Below 3 the interval is
/// empty and every cut point is 3.
pub open spec fn cut_point(limit: nat, worker_count: nat, i: nat) -> nat {
    if limit < 3 {
        3
    } else {
        3 + (i * (limit - 3) as nat) / worker_count
    }
}

/// The ranges between consecutive cut points, one per worker, in order.
pub open spec fn search_ranges(limit: nat, worker_count: nat) -> Seq<SearchRange> {
    Seq::new(
        worker_count,
        |i: int|
            SearchRange {
                start: cut_point(limit, worker_count, i as nat) as usize,
                end: cut_point(limit, worker_count, (i + 1) as nat) as usize,
            },
    )
}

/// Cut points grow with their index and the last one is `limit` (3 where `limit < 3`).
pub proof fn lemma_cut_points_ordered(limit: nat, worker_count: nat, i: nat, j: nat)
    requires
        worker_count >= 1,
        i <= j <= worker_count,
    ensures
        3 <= cut_point(limit, worker_count, i) <= cut_point(limit, worker_count, j),
        cut_point(limit, worker_count, j) <= if limit < 3 { 3 } else { limit },
        cut_point(limit, worker_count, worker_count) == if limit < 3 { 3 } else { limit },
{
    if limit >= 3 {
        let span = (limit - 3) as nat;
        lemma_mul_inequality(i as int, j as int, span as int);
        lemma_div_is_ordered((i * span) as int, (j * span) as int, worker_count as int);
        lemma_mul_inequality(j as int, worker_count as int, span as int);
        lemma_div_is_ordered((j * span) as int, (worker_count * span) as int, worker_count as int);
        lemma_div_multiples_vanish(span as int, worker_count as int);
    }
}

/// Computes `cut_point(limit, worker_count, i)` without overflow.
fn cut_point_at(limit: usize, worker_count: usize, i: usize) -> (r: usize)
    requires
        worker_count >= 1,
        i <= worker_count,
    ensures
        r == cut_point(limit as nat, worker_count as nat, i as nat),
{
    if limit < 3 {
        return 3;
    }
    proof {
        lemma_cut_points_ordered(limit as nat, worker_count as nat, i as nat, i as nat);
    }
    let span: u128 = (limit - 3) as u128;
    assert((i as u128) * span <= u128::MAX) by (nonlinear_arith)
        requires
            i <= usize::MAX,
            span <= usize::MAX,
            usize::MAX < 0x1_0000_0000_0000_0000,
    ;
    let offset: u128 = (i as u128) * span / (worker_count as u128);
    3 + offset as usize
}

/// Splits `[3, limit)` into `worker_count` contiguous, non-overlapping ranges of
/// near-equal size, in ascending order; the last one ends at `limit`. Where
/// `limit < 3` every range is the empty `[3, 3)`.
pub fn partition_search_range(limit: usize, worker_count: usize) -> (r: Vec<SearchRange>)
    requires
        worker_count >= 1,
    ensures
        r@ == search_ranges(limit as nat, worker_count as nat),
{
    let mut ranges: Vec<SearchRange> = Vec::new();
    let mut i: usize = 0;
    while i < worker_count
        invariant
            worker_count >= 1,
            i <= worker_count,
            ranges@ == search_ranges(limit as nat, worker_count as nat).take(i as int),
        decreases worker_count - i,
    {
        let start = cut_point_at(limit, worker_count, i);
        let end = cut_point_at(limit, worker_count, i + 1);
        ranges.push(SearchRange { start, end });
        i = i + 1;
        assert(ranges@ =~= search_ranges(limit as nat, worker_count as nat).take(i as int));
    }
    assert(ranges@ =~= search_ranges(limit as nat, worker_count as nat));
    ranges
}

/// The ranges that `partition_search_range` yields for `limit >= 3` and
/// `worker_count >= 1` are ordered, pairwise non-overlapping and together cover
/// `[3, limit)` exactly: the first starts at 3, each ends where the next starts, and
/// the last ends at `limit`.
pub proof fn lemma_partition_covers(limit: usize, worker_count: usize)
    requires
        limit >= 3,
        worker_count >= 1,
    ensures
        ({
            let rs = search_ranges(limit as nat, worker_count as nat);
            &&& rs.len() == worker_count
            &&& rs[0].start == 3
            &&& rs[worker_count - 1].end == limit
            &&& forall|i: int| 0 <= i < rs.len() ==> #[trigger] rs[i].start <= rs[i].end
            &&& forall|i: int| 0 <= i < rs.len() - 1 ==> #[trigger] rs[i].end == rs[i + 1].start
            &&& forall|i: int, j: int|
                0 <= i < j < rs.len() ==> #[trigger] rs[i].end <= #[trigger] rs[j].start
            &&& forall|i: int| 0 <= i < rs.len() ==> 3 <= #[trigger] rs[i].start && rs[i].end <= limit
            &&& forall|x: int| #[trigger] covered(rs, x) <==> 3 <= x < limit
        }),
{
    let l = limit as nat;
    let w = worker_count as nat;
    let rs = search_ranges(l, w);
    lemma_cut_points_ordered(l, w, 0, 0);
    lemma_cut_points_ordered(l, w, w, w);
    assert forall|i: int| 0 <= i < rs.len() implies #[trigger] rs[i].start <= rs[i].end by {
        lemma_cut_points_ordered(l, w, i as nat, (i + 1) as nat);
    }
    assert forall|i: int, j: int| 0 <= i < j < rs.len() implies #[trigger] rs[i].end
        <= #[trigger] rs[j].start by {
        lemma_cut_points_ordered(l, w, (i + 1) as nat, j as nat);
    }
    assert forall|i: int| 0 <= i < rs.len() implies 3 <= #[trigger] rs[i].start && rs[i].end
        <= limit by {
        lemma_cut_points_ordered(l, w, i as nat, (i + 1) as nat);
        lemma_cut_points_ordered(l, w, (i + 1) as nat, w);
    }
    assert forall|x: int| #[trigger] covered(rs, x) <==> 3 <= x < limit by {
        if 3 <= x < limit {
            lemma_point_in_some_range(l, w, w, x);
        }
        if covered(rs, x) {
            let i = choose|i: int| 0 <= i < rs.len() && #[trigger] rs[i].holds(x);
            lemma_cut_points_ordered(l, w, i as nat, (i + 1) as nat);
            lemma_cut_points_ordered(l, w, (i + 1) as nat, w);
        }
    }
}

/// A point below the `k`-th cut point lies in one of the first `k` ranges.
proof fn lemma_point_in_some_range(limit: nat, worker_count: nat, k: nat, x: int)
    requires
        limit >= 3,
        limit <= usize::MAX,
        worker_count >= 1,
        k <= worker_count,
        3 <= x < cut_point(limit, worker_count, k),
    ensures
        exists|i: int| 0 <= i < k && #[trigger] search_ranges(limit, worker_count)[i].holds(x),
    decreases k,
{
    let rs = search_ranges(limit, worker_count);
    if k == 0 {
        assert(cut_point(limit, worker_count, 0) == 3);
    } else {
        let p = (k - 1) as nat;
        lemma_cut_points_ordered(limit, worker_count, p, k);
        lemma_cut_points_ordered(limit, worker_count, k, worker_count);
        if x < cut_point(limit, worker_count, p) {
            lemma_point_in_some_range(limit, worker_count, p, x);
        } else {
            assert(rs[p as int].holds(x));
        }
    }
}

} // verus!
