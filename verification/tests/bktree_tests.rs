use gamecov_core::bktree::{hamming, BKTreeInner};

#[test]
fn test_empty_tree() {
    let tree = BKTreeInner::new();
    assert!(tree.is_empty());
    assert!(!tree.any_within(42, 5));
    assert!(tree.find_all_within(42, 5).is_empty());
}

#[test]
fn test_add_and_exact_duplicate() {
    let mut tree = BKTreeInner::new();
    assert!(tree.add(100));
    assert!(!tree.add(100)); // exact duplicate
    assert_eq!(tree.len(), 1);
}

#[test]
fn test_any_within() {
    let mut tree = BKTreeInner::new();
    // 0b0000 and 0b0011 have Hamming distance 2
    tree.add(0b0000);
    assert!(tree.any_within(0b0011, 2));
    assert!(tree.any_within(0b0011, 3));
    assert!(!tree.any_within(0b0011, 1));
}

#[test]
fn test_find_all_within() {
    let mut tree = BKTreeInner::new();
    tree.add(0b0000);
    tree.add(0b0001); // distance 1 from 0b0000
    tree.add(0b0011); // distance 2 from 0b0000
    tree.add(0b0111); // distance 3 from 0b0000
    tree.add(0b1111); // distance 4 from 0b0000

    let results = tree.find_all_within(0b0000, 2);
    assert_eq!(results.len(), 3); // 0b0000, 0b0001, 0b0011
    assert!(results.contains(&0b0000));
    assert!(results.contains(&0b0001));
    assert!(results.contains(&0b0011));
}

#[test]
fn test_hamming_distance() {
    assert_eq!(hamming(0, 0), 0);
    assert_eq!(hamming(0b1111, 0b0000), 4);
    assert_eq!(hamming(0b1010, 0b0101), 4);
    assert_eq!(hamming(0b1100, 0b1010), 2);
    assert_eq!(hamming(u64::MAX, 0), 64);
}

#[test]
fn hamming_counts_differing_bits_not_values() {
    // the distance of a value to zero is its number of set bits, not the value
    assert_eq!(hamming(0b1000_0000, 0), 1);
    assert_eq!(hamming(0xFFFF_0000_0000_0000, 0), 16);
    assert_eq!(hamming(1 << 63, 1), 2);
    assert_eq!(hamming(7, 7), 0);
    assert_eq!(hamming(0x0F0F, 0xF0F0), 16);
}

#[test]
fn hamming_is_symmetric_and_obeys_triangle() {
    let values = [0u64, 1, 0b1011, 0xFFFF, u64::MAX, 0xDEAD_BEEF_0000_1234];
    for &a in &values {
        for &b in &values {
            assert_eq!(hamming(a, b), hamming(b, a));
            assert_eq!(hamming(a, b) == 0, a == b);
            for &c in &values {
                assert!(hamming(a, c) <= hamming(a, b) + hamming(b, c));
            }
        }
    }
}

#[test]
fn first_value_becomes_root_and_size_counts_nodes() {
    let mut tree = BKTreeInner::new();
    assert_eq!(tree.len(), 0);
    assert!(tree.add(5));
    assert!(!tree.is_empty());
    assert!(tree.add(6));
    assert!(tree.add(7));
    assert!(!tree.add(6));
    assert_eq!(tree.len(), 3);
}

#[test]
fn values_that_share_a_distance_to_the_root_descend() {
    let mut tree = BKTreeInner::new();
    // 1, 2 and 4 are all at distance 1 from the root 0
    assert!(tree.add(0));
    assert!(tree.add(1));
    assert!(tree.add(2));
    assert!(tree.add(4));
    assert!(!tree.add(2));
    assert!(!tree.add(4));
    assert_eq!(tree.len(), 4);
    let mut found = tree.find_all_within(0, 1);
    found.sort();
    assert_eq!(found, vec![0, 1, 2, 4]);
    let mut exact = tree.find_all_within(4, 0);
    exact.sort();
    assert_eq!(exact, vec![4]);
}

#[test]
fn radius_zero_means_exact_match_only() {
    let mut tree = BKTreeInner::new();
    tree.add(0b1010);
    tree.add(0b1011);
    assert_eq!(tree.find_all_within(0b1010, 0), vec![0b1010]);
    assert!(tree.any_within(0b1011, 0));
    assert!(!tree.any_within(0b1000, 0));
    assert!(tree.find_all_within(0b1000, 0).is_empty());
}

#[test]
fn radius_above_64_finds_everything() {
    let mut tree = BKTreeInner::new();
    let values = [0u64, u64::MAX, 0xFF, 0xFF00, 0x1234_5678_9ABC_DEF0, 3, 5];
    for &v in &values {
        tree.add(v);
    }
    for radius in [64u32, 65, 1000, u32::MAX - 1, u32::MAX] {
        let mut found = tree.find_all_within(0xAAAA, radius);
        found.sort();
        let mut expected = values.to_vec();
        expected.sort();
        assert_eq!(found, expected);
        assert!(tree.any_within(0xAAAA, radius));
    }
}

#[test]
fn query_on_empty_index_is_no_error() {
    let tree = BKTreeInner::new();
    assert_eq!(tree.len(), 0);
    assert!(tree.find_all_within(0, 0).is_empty());
    assert!(tree.find_all_within(0, u32::MAX).is_empty());
    assert!(!tree.any_within(0, u32::MAX));
}
