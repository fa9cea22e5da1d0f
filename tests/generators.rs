use prime_bench::baseline::generate_baseline;
use prime_bench::parallel::{
    merge_worker_outputs, plan_search_ranges, primes_in_search_range, DEFAULT_WORKER_COUNT,
};
use prime_bench::primality::{is_odd_prime, is_prime_trial};
use prime_bench::sequential::{generate_primes_v1_0, generate_primes_v1_1};

fn run_partitioned(limit: usize, worker_count: usize) -> Vec<usize> {
    let ranges = plan_search_ranges(limit, worker_count);
    let outputs: Vec<Vec<usize>> = ranges
        .iter()
        .enumerate()
        .map(|(i, r)| primes_in_search_range(*r, i == 0))
        .collect();
    merge_worker_outputs(limit, outputs)
}

#[test]
fn limit_twenty_gives_primes_below_twenty() {
    let expected = vec![2, 3, 5, 7, 11, 13, 17, 19];
    assert_eq!(generate_primes_v1_0(20), expected);
    assert_eq!(generate_primes_v1_1(20), expected);
    assert_eq!(run_partitioned(20, DEFAULT_WORKER_COUNT), expected);
    assert_eq!(generate_baseline(20), expected);
}

#[test]
fn limits_zero_and_one_give_nothing() {
    for limit in [0usize, 1] {
        assert!(generate_primes_v1_0(limit).is_empty());
        assert!(generate_primes_v1_1(limit).is_empty());
        assert!(run_partitioned(limit, DEFAULT_WORKER_COUNT).is_empty());
        assert!(generate_baseline(limit).is_empty());
    }
}

#[test]
fn limit_two_gives_two() {
    assert_eq!(generate_primes_v1_0(2), vec![2]);
    assert_eq!(generate_primes_v1_1(2), vec![2]);
    assert_eq!(run_partitioned(2, DEFAULT_WORKER_COUNT), vec![2]);
    assert!(generate_baseline(2).is_empty());
}

#[test]
fn limit_three_gives_two() {
    assert_eq!(generate_primes_v1_0(3), vec![2]);
    assert_eq!(generate_primes_v1_1(3), vec![2]);
    assert_eq!(run_partitioned(3, DEFAULT_WORKER_COUNT), vec![2]);
    assert_eq!(generate_baseline(3), vec![2]);
}

#[test]
fn partitioned_matches_sequential() {
    for limit in 0usize..300 {
        let sequential = generate_primes_v1_1(limit);
        assert_eq!(generate_primes_v1_0(limit), sequential);
        for workers in [1usize, 2, 3, 7, 10, 64] {
            assert_eq!(run_partitioned(limit, workers), sequential, "limit {limit}");
        }
    }
}

#[test]
fn generators_match_baseline_above_two() {
    for limit in [3usize, 4, 10, 97, 100, 1000, 7919, 7920] {
        let baseline = generate_baseline(limit);
        assert_eq!(generate_primes_v1_0(limit), baseline);
        assert_eq!(generate_primes_v1_1(limit), baseline);
        assert_eq!(run_partitioned(limit, DEFAULT_WORKER_COUNT), baseline);
    }
}

#[test]
fn baseline_counts_primes() {
    assert_eq!(generate_baseline(100).len(), 25);
    assert_eq!(generate_baseline(1000).len(), 168);
    assert_eq!(generate_baseline(1000).last(), Some(&997));
    assert_eq!(generate_baseline(997).last(), Some(&991));
    assert_eq!(generate_baseline(8), vec![2, 3, 5, 7]);
}

#[test]
fn outputs_strictly_increasing() {
    for limit in [0usize, 2, 3, 50, 500, 2000] {
        for primes in [
            generate_primes_v1_0(limit),
            generate_primes_v1_1(limit),
            run_partitioned(limit, DEFAULT_WORKER_COUNT),
        ] {
            assert!(primes.windows(2).all(|w| w[0] < w[1]));
        }
    }
}

#[test]
fn repeated_calls_agree() {
    for limit in [0usize, 2, 30, 1234] {
        assert_eq!(generate_primes_v1_0(limit), generate_primes_v1_0(limit));
        assert_eq!(generate_primes_v1_1(limit), generate_primes_v1_1(limit));
        assert_eq!(
            run_partitioned(limit, DEFAULT_WORKER_COUNT),
            run_partitioned(limit, DEFAULT_WORKER_COUNT)
        );
    }
}

#[test]
fn large_limit_count() {
    assert_eq!(generate_primes_v1_1(10_000).len(), 1229);
    assert_eq!(run_partitioned(10_000, DEFAULT_WORKER_COUNT).len(), 1229);
}

#[test]
fn odd_trial_division_decides() {
    let primes = [3usize, 5, 7, 11, 13, 97, 7919];
    let composites = [9usize, 15, 21, 25, 27, 49, 91, 121, 7917];
    for n in primes {
        assert!(is_odd_prime(n));
        assert!(is_prime_trial(n));
    }
    for n in composites {
        assert!(!is_odd_prime(n));
        assert!(!is_prime_trial(n));
    }
    assert!(!is_prime_trial(4));
    assert!(!is_prime_trial(6));
}
