use gamecov_core::bktree::{hamming, BKTreeInner};
use gamecov_core::monitor::CoverageTrackerInner;
use gamecov_core::unionfind::UnionFindInner;

fn next(state: &mut u64) -> u64 {
    // xorshift64*
    let mut x = *state;
    x ^= x >> 12;
    x ^= x << 25;
    x ^= x >> 27;
    *state = x;
    x.wrapping_mul(0x2545_F491_4F6C_DD1D)
}

fn sample(seed: u64, n: usize, mask: u64) -> Vec<u64> {
    let mut state = seed;
    (0..n).map(|_| next(&mut state) & mask).collect()
}

#[test]
fn bktree_find_self() {
    for x in sample(1, 50, u64::MAX) {
        let mut tree = BKTreeInner::new();
        tree.add(x);
        assert!(tree.any_within(x, 0));
        let results = tree.find_all_within(x, 0);
        assert!(results.contains(&x));
    }
}

#[test]
fn bktree_no_false_negatives() {
    for (seed, radius) in [(2u64, 0u32), (3, 3), (4, 9)] {
        let values = sample(seed, 49, u64::MAX);
        let mut tree = BKTreeInner::new();
        for &v in &values {
            tree.add(v);
        }
        for &v in &values {
            let results = tree.find_all_within(v, radius);
            assert!(results.contains(&v));
        }
    }
}

#[test]
fn bktree_results_within_radius() {
    for (seed, mask, radius) in [(5u64, 0xFFu64, 2u32), (6, 0xFFFF, 5), (7, u64::MAX, 19), (8, u64::MAX, 30)] {
        let values = sample(seed, 49, mask);
        let query = sample(seed + 100, 1, mask)[0];
        let mut tree = BKTreeInner::new();
        for &v in &values {
            tree.add(v);
        }
        for r in tree.find_all_within(query, radius) {
            assert!(hamming(query, r) <= radius);
        }
    }
}

#[test]
fn bktree_completeness() {
    for (seed, mask) in [(9u64, 0xFu64), (10, 0xFF), (11, 0xFFF), (12, u64::MAX)] {
        for radius in [0u32, 1, 2, 4, 9, 31, 33, 64] {
            let values = sample(seed, 60, mask);
            let query = sample(seed + 100, 1, mask)[0];
            let mut tree = BKTreeInner::new();
            for &v in &values {
                tree.add(v);
            }
            let results = tree.find_all_within(query, radius);

            let mut expected: Vec<u64> =
                values.iter().copied().filter(|&v| hamming(query, v) <= radius).collect();
            expected.sort();
            expected.dedup();

            let mut got = results.clone();
            got.sort();
            // no duplicates among the results
            let before = got.len();
            got.dedup();
            assert_eq!(got.len(), before);

            assert_eq!(got, expected);
            assert_eq!(tree.any_within(query, radius), !expected.is_empty());
        }
    }
}

#[test]
fn uf_component_count_nonnegative() {
    for seed in [13u64, 14, 15] {
        let mut values = sample(seed, 40, 0xFF);
        values.sort();
        values.dedup();
        let mut uf = UnionFindInner::new();
        for &v in &values {
            uf.make_set(v);
        }
        let picks = sample(seed + 100, 60, u64::MAX);
        for pair in picks.chunks(2) {
            let a = values[(pair[0] % values.len() as u64) as usize];
            let b = values[(pair[1] % values.len() as u64) as usize];
            uf.union(a, b);
            assert!(uf.component_count() <= values.len());
            assert!(uf.component_count() >= 1);
            assert_eq!(uf.find(a), uf.find(b));
        }
    }
}

#[test]
fn uf_union_is_symmetric() {
    let values = sample(16, 40, u64::MAX);
    for pair in values.chunks(2) {
        let (a, b) = (pair[0], pair[1]);
        if a == b {
            continue;
        }
        let mut uf1 = UnionFindInner::new();
        uf1.make_set(a);
        uf1.make_set(b);
        uf1.union(a, b);

        let mut uf2 = UnionFindInner::new();
        uf2.make_set(a);
        uf2.make_set(b);
        uf2.union(b, a);

        assert_eq!(uf1.find(a), uf1.find(b));
        assert_eq!(uf2.find(a), uf2.find(b));
        assert_eq!(uf1.component_count(), uf2.component_count());
    }
}

#[test]
fn tracker_total_unique_monotone() {
    for (seed, radius) in [(17u64, 1u32), (18, 4), (19, 9)] {
        let hashes = sample(seed, 99, 0xFFF);
        let mut tracker = CoverageTrackerInner::new(radius);
        let mut prev_unique = 0usize;
        for &h in &hashes {
            tracker.add_hash(h);
            assert!(tracker.total_unique() >= prev_unique);
            prev_unique = tracker.total_unique();
        }
    }
}

#[test]
fn tracker_coverage_leq_unique() {
    for (seed, radius) in [(20u64, 1u32), (21, 4), (22, 9)] {
        let hashes = sample(seed, 99, 0xFFFF);
        let mut tracker = CoverageTrackerInner::new(radius);
        for &h in &hashes {
            tracker.add_hash(h);
            assert!(tracker.coverage_count() <= tracker.total_unique());
        }
    }
}

#[test]
fn tracker_reset_clears_state() {
    for seed in [23u64, 24] {
        let hashes = sample(seed, 49, u64::MAX);
        let mut tracker = CoverageTrackerInner::new(5);
        for &h in &hashes {
            tracker.add_hash(h);
        }
        tracker.reset();
        assert_eq!(tracker.coverage_count(), 0);
        assert_eq!(tracker.total_unique(), 0);
    }
}

fn components_by_search(values: &[u64], radius: u32) -> usize {
    let mut seen = vec![false; values.len()];
    let mut count = 0;
    for start in 0..values.len() {
        if seen[start] {
            continue;
        }
        count += 1;
        let mut stack = vec![start];
        seen[start] = true;
        while let Some(i) = stack.pop() {
            for j in 0..values.len() {
                if !seen[j] && hamming(values[i], values[j]) <= radius {
                    seen[j] = true;
                    stack.push(j);
                }
            }
        }
    }
    count
}

#[test]
fn tracker_counts_connected_components() {
    for (seed, mask, radius) in [(25u64, 0xFFu64, 1u32), (26, 0xFFF, 2), (27, 0xFFFF, 3), (28, u64::MAX, 24)] {
        let hashes = sample(seed, 80, mask);
        let mut tracker = CoverageTrackerInner::new(radius);
        let mut unique: Vec<u64> = Vec::new();
        for &h in &hashes {
            let is_new = tracker.add_hash(h);
            assert_eq!(is_new, !unique.contains(&h));
            if is_new {
                unique.push(h);
            }
            assert_eq!(tracker.total_unique(), unique.len());
            assert_eq!(tracker.coverage_count(), components_by_search(&unique, radius));
        }
    }
}
