use prime_bench::parallel::{merge_worker_outputs, plan_search_ranges, primes_in_search_range};
use prime_bench::partition::{partition_search_range, SearchRange};

fn covers_exactly(ranges: &[SearchRange], limit: usize) {
    assert_eq!(ranges.first().unwrap().start, 3);
    assert_eq!(ranges.last().unwrap().end, limit);
    for pair in ranges.windows(2) {
        assert_eq!(pair[0].end, pair[1].start);
    }
    for r in ranges {
        assert!(r.start <= r.end);
    }
}

#[test]
fn partition_cut_points() {
    let ranges = partition_search_range(23, 4);
    let bounds: Vec<(usize, usize)> = ranges.iter().map(|r| (r.start, r.end)).collect();
    assert_eq!(bounds, vec![(3, 8), (8, 13), (13, 18), (18, 23)]);
}

#[test]
fn partition_rounds_down() {
    let ranges = partition_search_range(13, 3);
    let bounds: Vec<(usize, usize)> = ranges.iter().map(|r| (r.start, r.end)).collect();
    assert_eq!(bounds, vec![(3, 6), (6, 9), (9, 13)]);
}

#[test]
fn partition_covers_interval() {
    for limit in 3usize..200 {
        for workers in [1usize, 2, 5, 10, 33, 250] {
            let ranges = partition_search_range(limit, workers);
            assert_eq!(ranges.len(), workers);
            covers_exactly(&ranges, limit);
        }
    }
}

#[test]
fn partition_single_worker_takes_all() {
    assert_eq!(partition_search_range(50, 1), vec![SearchRange { start: 3, end: 50 }]);
}

#[test]
fn partition_below_three_is_empty() {
    for limit in [0usize, 1, 2] {
        let ranges = partition_search_range(limit, 4);
        assert_eq!(ranges, vec![SearchRange { start: 3, end: 3 }; 4]);
    }
}

#[test]
fn partition_huge_limit_no_overflow() {
    let ranges = partition_search_range(usize::MAX, 7);
    covers_exactly(&ranges, usize::MAX);
}

#[test]
fn plan_is_empty_below_three() {
    assert!(plan_search_ranges(0, 10).is_empty());
    assert!(plan_search_ranges(2, 10).is_empty());
    assert_eq!(plan_search_ranges(3, 2).len(), 2);
}

#[test]
fn worker_emits_two_only_when_asked() {
    assert_eq!(primes_in_search_range(SearchRange { start: 3, end: 10 }, true), vec![2, 3, 5, 7]);
    assert_eq!(primes_in_search_range(SearchRange { start: 3, end: 10 }, false), vec![3, 5, 7]);
    assert_eq!(
        primes_in_search_range(SearchRange { start: 10, end: 20 }, false),
        vec![11, 13, 17, 19]
    );
    assert!(primes_in_search_range(SearchRange { start: 3, end: 3 }, false).is_empty());
    assert_eq!(primes_in_search_range(SearchRange { start: 3, end: 3 }, true), vec![2]);
}

#[test]
fn merge_keeps_range_order() {
    let outputs = vec![vec![2, 3, 5], vec![], vec![7, 11]];
    assert_eq!(merge_worker_outputs(12, outputs), vec![2, 3, 5, 7, 11]);
    assert!(merge_worker_outputs(1, vec![vec![2]]).is_empty());
    assert_eq!(merge_worker_outputs(2, Vec::new()), vec![2]);
}
