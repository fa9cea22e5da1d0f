use vstd::prelude::*;

use crate::primality::{
    is_odd_prime, is_prime, is_prime_trial, lemma_even_not_prime, lemma_primes_in_members,
    generated_primes, lemma_smallest_primes, primes_below, strictly_increasing,
};

verus! {

/// The primes below `limit` in ascending order (just 2 for `limit == 2`), every
/// number from 3 on tested against all divisors from 2.
pub fn generate_primes_v1_0(limit: usize) -> (r: Vec<usize>)
    ensures
        r@ == generated_primes(limit as nat),
        strictly_increasing(r@),
{
    proof {
        lemma_smallest_primes();
        lemma_primes_in_members(0, limit as nat);
    }
    if limit < 2 {
        return Vec::new();
    }
    let mut primes: Vec<usize> = vec![2];
    let mut number: usize = 3;
    while number < limit
        invariant
            3 <= number <= limit || (number == 3 && limit == 2),
            primes@ == primes_below(number as nat),
        decreases limit - number,
    {
        if is_prime_trial(number) {
            primes.push(number);
        }
        number = number + 1;
    }
    if limit == 2 {
        proof {
            lemma_primes_in_members(0, 3);
        }
    }
    primes
}

/// The primes below `limit` in ascending order (just 2 for `limit == 2`): 2, then
/// each odd number from 3 on that the odd-divisor trial division accepts.
pub fn generate_primes_v1_1(limit: usize) -> (r: Vec<usize>)
    ensures
        r@ == generated_primes(limit as nat),
        strictly_increasing(r@),
{
    proof {
        lemma_smallest_primes();
        lemma_primes_in_members(0, limit as nat);
    }
    if limit < 2 {
        return Vec::new();
    }
    let mut primes: Vec<usize> = vec![2];
    let mut number: usize = 3;
    while number < limit
        invariant
            3 <= number <= limit || (number == 3 && limit == 2),
            primes@ == primes_below(number as nat),
        decreases limit - number,
    {
        if number % 2 == 0 {
            proof {
                lemma_even_not_prime(number as nat);
            }
        } else if is_odd_prime(number) {
            primes.push(number);
        }
        number = number + 1;
    }
    if limit == 2 {
        proof {
            lemma_primes_in_members(0, 3);
        }
    }
    primes
}

} // verus!
