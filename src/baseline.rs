use vstd::prelude::*;

use crate::primality::{lemma_primes_in_members, lemma_primes_in_split, primes_below, primes_in};

verus! {

/// The primes up to and including `bound`, in ascending order.
pub open spec fn primes_through(bound: nat) -> Seq<usize> {
    primes_in(0, bound + 1)
}

/// `s` holds, in ascending order, the primes up to some bound no smaller than `limit`.
pub open spec fn primes_through_some_bound(s: Seq<usize>, limit: nat) -> bool {
    exists|bound: nat| limit <= bound <= usize::MAX && s == #[trigger] primes_through(bound)
}

/// Relies on `primal::Sieve::new(limit)`, whose upper bound is at least `limit`, and on
/// `Sieve::primes_from(0)`, which yields in ascending order every prime up to that
/// bound (2, 3 and 5 always): the primes up to some bound no smaller than `limit`.
#[verifier::external_body]
fn sieve_primes(limit: usize) -> (r: Vec<usize>)
    ensures
        primes_through_some_bound(r@, limit as nat),
{
    primal::Sieve::new(limit).primes_from(0).collect()
}

/// The trusted baseline: the primes below `limit` in ascending order, taken from a
/// sieve and cut off at `limit`.
pub fn generate_baseline(limit: usize) -> (r: Vec<usize>)
    ensures
        r@ == primes_below(limit as nat),
{
    let sieved = sieve_primes(limit);
    let ghost bound = choose|bound: nat|
        limit <= bound <= usize::MAX && sieved@ == primes_through(bound);
    let ghost below = primes_below(limit as nat);
    let ghost above = primes_in(limit as nat, bound + 1);
    proof {
        lemma_primes_in_split(0, limit as nat, bound + 1);
        lemma_primes_in_members(0, limit as nat);
        lemma_primes_in_members(limit as nat, bound + 1);
        assert(sieved@ == below + above);
    }
    let mut primes: Vec<usize> = Vec::new();
    let mut i: usize = 0;
    while i < sieved.len() && sieved[i] < limit
        invariant
            sieved@ == below + above,
            i <= below.len(),
            primes@ == below.take(i as int),
            forall|j: int| 0 <= j < below.len() ==> #[trigger] below[j] < limit,
            forall|j: int| 0 <= j < above.len() ==> #[trigger] above[j] >= limit,
        decreases sieved.len() - i,
    {
        proof {
            if i == below.len() {
                assert(sieved@[i as int] == above[0]);
            }
        }
        primes.push(sieved[i]);
        i = i + 1;
        assert(primes@ =~= below.take(i as int));
    }
    proof {
        if i < below.len() {
            assert(sieved@[i as int] == below[i as int]);
        }
    }
    assert(primes@ =~= below);
    primes
}

} // verus!
