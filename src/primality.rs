use vstd::prelude::*;

verus! {

/// `n` is a prime number: at least 2 and without a divisor strictly between 1 and `n`.
pub open spec fn is_prime(n: nat) -> bool {
    n >= 2 && forall|d: nat| 2 <= d < n ==> #[trigger] (n % d) != 0
}

/// The primes `p` with `lo <= p < hi`, in ascending order.
pub open spec fn primes_in(lo: nat, hi: nat) -> Seq<usize>
    decreases hi - lo,
{
    if hi <= lo {
        seq![]
    } else {
        let p = (hi - 1) as nat;
        if is_prime(p) {
            primes_in(lo, p).push(p as usize)
        } else {
            primes_in(lo, p)
        }
    }
}

/// The primes strictly below `limit`, in ascending order.
pub open spec fn primes_below(limit: nat) -> Seq<usize> {
    primes_in(0, limit)
}

/// What the trial-division generators return for `limit`: the primes below it, except
/// that 2 is always included once `limit` reaches 2.
pub open spec fn generated_primes(limit: nat) -> Seq<usize> {
    if limit == 2 {
        seq![2usize]
    } else {
        primes_below(limit)
    }
}

/// Every element of `s` is smaller than the next one.
pub open spec fn strictly_increasing(s: Seq<usize>) -> bool {
    forall|i: int, j: int| 0 <= i < j < s.len() ==> s[i] < s[j]
}

/// Decides primality of an odd `n >= 3` by trying the odd divisors `3, 5, 7, ...`,
/// stopping once three times the divisor exceeds `n`.
pub fn is_odd_prime(n: usize) -> (r: bool)
    requires
        n >= 3,
        n % 2 == 1,
    ensures
        r == (forall|d: nat| 3 <= d < n && d % 2 == 1 ==> #[trigger] ((n as nat) % d) != 0),
        r == is_prime(n as nat),
{
    let mut d: usize = 3;
    while d < n
        invariant_except_break
            3 <= d <= n,
            d % 2 == 1,
            forall|e: nat| 3 <= e < d && e % 2 == 1 ==> #[trigger] ((n as nat) % e) != 0,
        invariant
            n >= 3,
            n % 2 == 1,
        ensures
            forall|e: nat| 3 <= e < n && e % 2 == 1 ==> #[trigger] ((n as nat) % e) != 0,
        decreases n - d,
    {
        if n % d == 0 {
            return false;
        }
        if d > n / 3 {
            assert forall|e: nat| 3 <= e < n && e % 2 == 1 implies #[trigger] ((n as nat) % e)
                != 0 by {
                if e > d {
                    lemma_no_divisor_past_third(n as nat, d as nat, e);
                }
            }
            break;
        }
        d = d + 2;
    }
    proof {
        assert forall|e: nat| 2 <= e < n implies #[trigger] ((n as nat) % e) != 0 by {
            if e % 2 == 0 {
                lemma_odd_has_no_even_divisor(n as nat, e);
            }
        }
    }
    true
}

/// Decides primality of `n >= 3` by trying every divisor `2, 3, 4, ...`,
/// stopping once three times the divisor exceeds `n`.
pub fn is_prime_trial(n: usize) -> (r: bool)
    requires
        n >= 3,
    ensures
        r == is_prime(n as nat),
{
    let mut d: usize = 2;
    while d < n
        invariant_except_break
            2 <= d <= n,
            forall|e: nat| 2 <= e < d ==> #[trigger] ((n as nat) % e) != 0,
        invariant
            n >= 3,
        ensures
            forall|e: nat| 2 <= e < n ==> #[trigger] ((n as nat) % e) != 0,
        decreases n - d,
    {
        if n % d == 0 {
            return false;
        }
        if d > n / 3 {
            assert(n % 2 != 0);
            assert forall|e: nat| 2 <= e < n implies #[trigger] ((n as nat) % e) != 0 by {
                if e > d {
                    lemma_no_divisor_past_third(n as nat, d as nat, e);
                }
            }
            break;
        }
        d = d + 1;
    }
    true
}

/// An odd number has no even divisor.
proof fn lemma_odd_has_no_even_divisor(n: nat, e: nat)
    requires
        n % 2 == 1,
        e >= 2,
        e % 2 == 0 || n % e != 0,
    ensures
        n % e != 0,
{
    if e % 2 == 0 && n % e == 0 {
        let q = n / e;
        let m = e / 2;
        assert(n == e * q) by (nonlinear_arith)
            requires n % e == 0, e >= 2, q == n / e;
        assert(n == 2 * (m * q)) by (nonlinear_arith)
            requires n == e * q, e == 2 * m;
        assert(false);
    }
}

/// Past a third of an odd `n`, only `n / 2` could still divide it, and it does not.
proof fn lemma_no_divisor_past_third(n: nat, d: nat, e: nat)
    requires
        n % 2 == 1,
        d > n / 3,
        d < e < n,
    ensures
        n % e != 0,
{
    if n % e == 0 {
        let q = n / e;
        assert(n == e * q) by (nonlinear_arith)
            requires n % e == 0, e >= 1, q == n / e;
        assert(3 * e > n);
        if q >= 3 {
            assert(e * q >= e * 3) by (nonlinear_arith)
                requires q >= 3;
        } else if q == 2 {
            assert(n == 2 * e) by (nonlinear_arith)
                requires n == e * q, q == 2;
        } else if q == 1 {
            assert(n == e) by (nonlinear_arith)
                requires n == e * q, q == 1;
        } else {
            assert(n == 0) by (nonlinear_arith)
                requires n == e * q, q == 0;
        }
    }
}

/// Unfolds the definition of `is_prime` on the three smallest numbers.
pub proof fn lemma_smallest_primes()
    ensures
        !is_prime(0),
        !is_prime(1),
        is_prime(2),
        primes_below(0) == Seq::<usize>::empty(),
        primes_below(1) == Seq::<usize>::empty(),
        primes_below(2) == Seq::<usize>::empty(),
        primes_below(3) == seq![2usize],
        generated_primes(3) == seq![2usize],
        generated_primes(2) == seq![2usize],
{
    assert(forall|d: nat| 2 <= d < 2 ==> #[trigger] (2nat % d) != 0);
    reveal_with_fuel(primes_in, 4);
    assert(primes_below(3) =~= seq![2usize]);
}

/// An even number above 2 is not prime.
pub proof fn lemma_even_not_prime(n: nat)
    requires
        n > 2,
        n % 2 == 0,
    ensures
        !is_prime(n),
{
    assert((n % 2) == 0);
}

/// The primes of `[lo, mid)` followed by those of `[mid, hi)` are the primes of `[lo, hi)`.
pub proof fn lemma_primes_in_split(lo: nat, mid: nat, hi: nat)
    requires
        lo <= mid <= hi,
    ensures
        primes_in(lo, mid) + primes_in(mid, hi) == primes_in(lo, hi),
    decreases hi - mid,
{
    if hi == mid {
        assert(primes_in(lo, mid) + primes_in(mid, hi) =~= primes_in(lo, hi));
    } else {
        let p = (hi - 1) as nat;
        lemma_primes_in_split(lo, mid, p);
        if is_prime(p) {
            assert(primes_in(lo, mid) + primes_in(mid, p).push(p as usize) =~= (primes_in(lo, mid)
                + primes_in(mid, p)).push(p as usize));
        }
    }
}

/// The primes of `[lo, hi)` are exactly the primes in that interval, each once, in
/// ascending order.
pub proof fn lemma_primes_in_members(lo: nat, hi: nat)
    requires
        hi <= usize::MAX + 1,
    ensures
        strictly_increasing(primes_in(lo, hi)),
        forall|i: int|
            0 <= i < primes_in(lo, hi).len() ==> lo <= #[trigger] primes_in(lo, hi)[i] < hi
                && is_prime(primes_in(lo, hi)[i] as nat),
        forall|x: nat|
            lo <= x < hi && is_prime(x) ==> #[trigger] primes_in(lo, hi).contains(x as usize),
    decreases hi - lo,
{
    if hi > lo {
        let p = (hi - 1) as nat;
        lemma_primes_in_members(lo, p);
        let s = primes_in(lo, p);
        if is_prime(p) {
            let t = s.push(p as usize);
            assert forall|x: nat| lo <= x < hi && is_prime(x) implies #[trigger] t.contains(
                x as usize,
            ) by {
                if x == p {
                    assert(t[s.len() as int] == x as usize);
                } else {
                    assert(s.contains(x as usize));
                    let k = choose|k: int| 0 <= k < s.len() && s[k] == x as usize;
                    assert(t[k] == x as usize);
                }
            }
        }
    }
}

} // verus!
