use vstd::prelude::*;

use crate::partition::{
    cut_point, lemma_cut_points_ordered, partition_search_range, search_ranges, SearchRange,
};
use crate::primality::{
    generated_primes, is_odd_prime, lemma_even_not_prime, lemma_primes_in_members,
    lemma_primes_in_split, lemma_smallest_primes, primes_in, strictly_increasing,
};

verus! {

/// Number of workers that the parallel generator splits the search among by default.
pub const DEFAULT_WORKER_COUNT: usize = 10;

/// What the worker for `range` returns: 2 first if it is the worker that emits it,
/// then the primes of `range` in ascending order.
pub open spec fn worker_output(range: SearchRange, emit_two: bool) -> Seq<usize> {
    let head = if emit_two {
        seq![2usize]
    } else {
        Seq::<usize>::empty()
    };
    head + primes_in(range.start as nat, range.end as nat)
}

/// The ranges that the parallel generator hands out for `limit`: none where there is
/// nothing above 2 to search, else the partition of `[3, limit)`.
pub open spec fn planned_ranges(limit: nat, worker_count: nat) -> Seq<SearchRange> {
    if limit < 3 {
        Seq::empty()
    } else {
        search_ranges(limit, worker_count)
    }
}

/// What the workers for `rs` return, in range order; the worker of the first range
/// emits 2.
pub open spec fn worker_outputs(rs: Seq<SearchRange>) -> Seq<Seq<usize>> {
    Seq::new(rs.len(), |i: int| worker_output(rs[i], i == 0))
}

/// The views of a sequence of vectors.
pub open spec fn views(parts: Seq<Vec<usize>>) -> Seq<Seq<usize>> {
    parts.map_values(|v: Vec<usize>| v@)
}

/// The parallel generator's result from its workers' outputs: nothing below 2, just
/// 2 for `limit == 2`, else the outputs concatenated in range order.
pub open spec fn merged(limit: nat, parts: Seq<Seq<usize>>) -> Seq<usize> {
    if limit < 2 {
        Seq::empty()
    } else if limit == 2 {
        seq![2usize]
    } else {
        parts.flatten()
    }
}

/// What the parallel generator returns for `limit` when its workers do their work.
pub open spec fn parallel_primes(limit: nat, worker_count: nat) -> Seq<usize> {
    merged(limit, worker_outputs(planned_ranges(limit, worker_count)))
}

/// The ranges to hand to the workers for `limit`, one worker per range; empty where
/// `limit < 3`.
pub fn plan_search_ranges(limit: usize, worker_count: usize) -> (r: Vec<SearchRange>)
    requires
        worker_count >= 1,
    ensures
        r@ == planned_ranges(limit as nat, worker_count as nat),
        forall|i: int| 0 <= i < r@.len() ==> 3 <= #[trigger] r@[i].start <= r@[i].end <= limit,
{
    if limit < 3 {
        return Vec::new();
    }
    let ranges = partition_search_range(limit, worker_count);
    proof {
        assert forall|i: int| 0 <= i < ranges@.len() implies 3 <= #[trigger] ranges@[i].start
            <= ranges@[i].end <= limit by {
            lemma_cut_points_ordered(limit as nat, worker_count as nat, i as nat, (i + 1) as nat);
            lemma_cut_points_ordered(
                limit as nat,
                worker_count as nat,
                (i + 1) as nat,
                worker_count as nat,
            );
        }
    }
    ranges
}

/// Joins the workers' outputs, given in range order, into the generator's result.
pub fn merge_worker_outputs(limit: usize, outputs: Vec<Vec<usize>>) -> (r: Vec<usize>)
    ensures
        r@ == merged(limit as nat, views(outputs@)),
{
    if limit < 2 {
        return Vec::new();
    }
    if limit == 2 {
        return vec![2];
    }
    let ghost parts = views(outputs@);
    let count = outputs.len();
    let ghost n = count as nat;
    let mut outputs = outputs;
    let mut primes: Vec<usize> = Vec::new();
    let mut k: usize = 0;
    while outputs.len() > 0
        invariant
            n == parts.len(),
            n <= usize::MAX,
            k + outputs@.len() == n,
            views(outputs@) == parts.subrange(k as int, n as int),
            primes@ == parts.take(k as int).flatten(),
        decreases outputs@.len(),
    {
        let ghost before = outputs@;
        assert(views(before)[0] == parts[k as int]);
        let mut part = outputs.remove(0);
        assert forall|i: int| 0 <= i < outputs@.len() implies #[trigger] views(outputs@)[i]
            == parts[k + 1 + i] by {
            assert(outputs@[i] == before[i + 1]);
            assert(views(before)[i + 1] == parts.subrange(k as int, n as int)[i + 1]);
        }
        proof {
            assert(parts.take(k + 1) =~= parts.take(k as int).push(parts[k as int]));
            parts.take(k as int).lemma_flatten_push(parts[k as int]);
        }
        primes.append(&mut part);
        k = k + 1;
        assert(views(outputs@) =~= parts.subrange(k as int, n as int));
    }
    assert(parts.take(n as int) =~= parts);
    primes
}

/// One worker: tests each odd number of `range` by odd-divisor trial division,
/// after emitting 2 if asked to.
pub fn primes_in_search_range(range: SearchRange, emit_two: bool) -> (r: Vec<usize>)
    requires
        3 <= range.start,
    ensures
        r@ == worker_output(range, emit_two),
{
    let mut primes: Vec<usize> = Vec::new();
    if emit_two {
        primes.push(2);
    }
    let ghost head = primes@;
    let mut number: usize = range.start;
    while number < range.end
        invariant
            3 <= range.start <= number,
            number <= range.end || number == range.start,
            head == (if emit_two {
                seq![2usize]
            } else {
                Seq::<usize>::empty()
            }),
            primes@ == head + primes_in(range.start as nat, number as nat),
        decreases range.end - number,
    {
        if number % 2 == 0 {
            proof {
                lemma_even_not_prime(number as nat);
            }
        } else if is_odd_prime(number) {
            primes.push(number);
        }
        number = number + 1;
        assert(primes@ =~= head + primes_in(range.start as nat, number as nat));
    }
    assert(primes@ =~= worker_output(range, emit_two));
    primes
}

/// For every `limit` and `worker_count >= 1`, the parallel generator, with its
/// workers' outputs concatenated in range order, returns exactly what the
/// sequential generators return: the same primes in the same ascending order.
pub proof fn lemma_parallel_matches_sequential(limit: usize, worker_count: usize)
    requires
        worker_count >= 1,
    ensures
        parallel_primes(limit as nat, worker_count as nat) == generated_primes(limit as nat),
{
    lemma_smallest_primes();
    if limit >= 3 {
        let l = limit as nat;
        let w = worker_count as nat;
        let outs = worker_outputs(search_ranges(l, w));
        lemma_fan_in_prefix(l, w, w);
        assert(outs.take(w as int) =~= outs);
        lemma_cut_points_ordered(l, w, w, w);
        lemma_primes_in_split(0, 3, l);
    }
}

/// For `limit <= 2` both generators return nothing below 2 and just 2 at 2.
pub proof fn lemma_small_limits(limit: usize, worker_count: usize)
    requires
        limit <= 2,
        worker_count >= 1,
    ensures
        generated_primes(limit as nat) == (if limit == 2 {
            seq![2usize]
        } else {
            Seq::<usize>::empty()
        }),
        parallel_primes(limit as nat, worker_count as nat) == generated_primes(limit as nat),
{
    lemma_smallest_primes();
}

/// For every `limit`, what both generators return is strictly increasing, so free of
/// duplicates.
pub proof fn lemma_outputs_strictly_increasing(limit: usize, worker_count: usize)
    requires
        worker_count >= 1,
    ensures
        strictly_increasing(generated_primes(limit as nat)),
        strictly_increasing(parallel_primes(limit as nat, worker_count as nat)),
{
    lemma_primes_in_members(0, limit as nat);
    lemma_parallel_matches_sequential(limit, worker_count);
}

/// The first `k` workers' outputs, concatenated, are 2 followed by the primes of
/// `[3, cut_point(k))`.
proof fn lemma_fan_in_prefix(limit: nat, worker_count: nat, k: nat)
    requires
        3 <= limit <= usize::MAX,
        1 <= k <= worker_count,
    ensures
        worker_outputs(search_ranges(limit, worker_count)).take(k as int).flatten() == seq![2usize]
            + primes_in(3, cut_point(limit, worker_count, k)),
    decreases k,
{
    let rs = search_ranges(limit, worker_count);
    let outs = worker_outputs(rs);
    lemma_cut_points_ordered(limit, worker_count, 0, 0);
    lemma_cut_points_ordered(limit, worker_count, k, worker_count);
    if k == 1 {
        assert(outs.take(1) =~= seq![outs[0]]);
        seq![outs[0]].lemma_flatten_one_element();
    } else {
        let p = (k - 1) as nat;
        lemma_fan_in_prefix(limit, worker_count, p);
        lemma_cut_points_ordered(limit, worker_count, p, k);
        lemma_cut_points_ordered(limit, worker_count, 1, p);
        assert(outs.take(k as int) =~= outs.take(p as int).push(outs[p as int]));
        outs.take(p as int).lemma_flatten_push(outs[p as int]);
        assert(outs[p as int] =~= primes_in(
            cut_point(limit, worker_count, p),
            cut_point(limit, worker_count, k),
        ));
        lemma_primes_in_split(
            3,
            cut_point(limit, worker_count, p),
            cut_point(limit, worker_count, k),
        );
        assert(seq![2usize] + primes_in(3, cut_point(limit, worker_count, p)) + outs[p as int]
            =~= seq![2usize] + primes_in(3, cut_point(limit, worker_count, k)));
    }
}

} // verus!
