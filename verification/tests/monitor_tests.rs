use gamecov_core::monitor::CoverageTrackerInner;

#[test]
fn test_empty_tracker() {
    let tracker = CoverageTrackerInner::new(5);
    assert_eq!(tracker.coverage_count(), 0);
    assert_eq!(tracker.total_unique(), 0);
}

#[test]
fn test_single_hash() {
    let mut tracker = CoverageTrackerInner::new(5);
    assert!(tracker.add_hash(42));
    assert_eq!(tracker.coverage_count(), 1);
    assert_eq!(tracker.total_unique(), 1);
}

#[test]
fn test_exact_duplicate() {
    let mut tracker = CoverageTrackerInner::new(5);
    assert!(tracker.add_hash(42));
    assert!(!tracker.add_hash(42)); // duplicate
    assert_eq!(tracker.total_unique(), 1);
    assert_eq!(tracker.coverage_count(), 1);
}

#[test]
fn test_nearby_hashes_merge() {
    let mut tracker = CoverageTrackerInner::new(2);
    // 0b0000 and 0b0001 have Hamming distance 1 (<= radius 2)
    tracker.add_hash(0b0000);
    tracker.add_hash(0b0001);
    assert_eq!(tracker.total_unique(), 2);
    assert_eq!(tracker.coverage_count(), 1); // merged into one component
}

#[test]
fn test_distant_hashes_separate() {
    let mut tracker = CoverageTrackerInner::new(1);
    // 0b0000 and 0b0111 have Hamming distance 3 (> radius 1)
    tracker.add_hash(0b0000);
    tracker.add_hash(0b0111);
    assert_eq!(tracker.total_unique(), 2);
    assert_eq!(tracker.coverage_count(), 2); // separate components
}

#[test]
fn test_bridging_reduces_components() {
    let mut tracker = CoverageTrackerInner::new(1);
    // A: 0b0000, B: 0b0011 (distance 2 from A, separate)
    // C: 0b0001 (distance 1 from A, distance 1 from B -> bridges them)
    tracker.add_hash(0b0000);
    tracker.add_hash(0b0011);
    assert_eq!(tracker.coverage_count(), 2);

    tracker.add_hash(0b0001); // bridges A and B
    assert_eq!(tracker.coverage_count(), 1);
}

#[test]
fn test_reset() {
    let mut tracker = CoverageTrackerInner::new(5);
    tracker.add_hash(1);
    tracker.add_hash(2);
    tracker.reset();
    assert_eq!(tracker.coverage_count(), 0);
    assert_eq!(tracker.total_unique(), 0);
}

#[test]
fn neighbours_at_radius_one_share_a_cluster() {
    let mut tracker = CoverageTrackerInner::new(1);
    assert!(tracker.add_hash(0b0000));
    assert!(tracker.add_hash(0b0001));
    assert_eq!(tracker.total_unique(), 2);
    assert_eq!(tracker.coverage_count(), 1);
}

#[test]
fn repeat_changes_neither_count() {
    let mut tracker = CoverageTrackerInner::new(1);
    tracker.add_hash(0b0000);
    assert!(!tracker.add_hash(0b0000));
    tracker.add_hash(0b0011);
    assert!(!tracker.add_hash(0b0000));
    assert_eq!(tracker.total_unique(), 2);
    assert_eq!(tracker.coverage_count(), 2);
    tracker.add_hash(0b0001);
    assert!(!tracker.add_hash(0b0000));
    assert!(!tracker.add_hash(0b0011));
    assert!(!tracker.add_hash(0b0001));
    assert_eq!(tracker.total_unique(), 3);
    assert_eq!(tracker.coverage_count(), 1);
}

#[test]
fn radius_zero_keeps_every_hash_apart() {
    let mut tracker = CoverageTrackerInner::new(0);
    for h in [0u64, 1, 2, 3, 1, 0] {
        tracker.add_hash(h);
    }
    assert_eq!(tracker.total_unique(), 4);
    assert_eq!(tracker.coverage_count(), 4);
}

#[test]
fn unbounded_radius_gives_one_cluster() {
    for radius in [64u32, 65, u32::MAX] {
        let mut tracker = CoverageTrackerInner::new(radius);
        for h in [0u64, u64::MAX, 0xFFFF, 0xABCD_0000_0000_0000, 17] {
            assert!(tracker.add_hash(h));
        }
        assert_eq!(tracker.total_unique(), 5);
        assert_eq!(tracker.coverage_count(), 1);
    }
}

#[test]
fn one_hash_can_join_several_clusters() {
    let mut tracker = CoverageTrackerInner::new(1);
    // three hashes, pairwise at distance 2
    tracker.add_hash(0b0001);
    tracker.add_hash(0b0010);
    tracker.add_hash(0b0100);
    tracker.add_hash(0b1111_0000);
    assert_eq!(tracker.coverage_count(), 4);
    // 0 is within 1 of the first three
    assert!(tracker.add_hash(0b0000));
    assert_eq!(tracker.total_unique(), 5);
    assert_eq!(tracker.coverage_count(), 2);
}

#[test]
fn tracker_works_again_after_reset_with_its_radius() {
    let mut tracker = CoverageTrackerInner::new(1);
    tracker.add_hash(0b0000);
    tracker.add_hash(0b0001);
    tracker.reset();
    assert!(tracker.add_hash(0b0000));
    assert!(tracker.add_hash(0b0111));
    assert!(tracker.add_hash(0b0001));
    assert_eq!(tracker.total_unique(), 3);
    assert_eq!(tracker.coverage_count(), 2);
}
