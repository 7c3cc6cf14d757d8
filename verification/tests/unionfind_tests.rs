use gamecov_core::unionfind::UnionFindInner;

#[test]
fn test_empty() {
    let uf = UnionFindInner::new();
    assert_eq!(uf.component_count(), 0);
}

#[test]
fn test_make_set() {
    let mut uf = UnionFindInner::new();
    uf.make_set(10);
    uf.make_set(20);
    uf.make_set(10); // duplicate, no-op
    assert_eq!(uf.component_count(), 2);
}

#[test]
fn test_find_self() {
    let mut uf = UnionFindInner::new();
    uf.make_set(42);
    assert_eq!(uf.find(42), 42);
}

#[test]
fn test_union() {
    let mut uf = UnionFindInner::new();
    uf.make_set(1);
    uf.make_set(2);
    uf.make_set(3);
    assert_eq!(uf.component_count(), 3);

    uf.union(1, 2);
    assert_eq!(uf.component_count(), 2);
    assert_eq!(uf.find(1), uf.find(2));

    uf.union(2, 3);
    assert_eq!(uf.component_count(), 1);
    assert_eq!(uf.find(1), uf.find(3));
}

#[test]
fn test_union_idempotent() {
    let mut uf = UnionFindInner::new();
    uf.make_set(1);
    uf.make_set(2);
    uf.union(1, 2);
    uf.union(1, 2); // no-op
    assert_eq!(uf.component_count(), 1);
}

#[test]
fn contains_tells_registered_keys() {
    let mut uf = UnionFindInner::new();
    assert!(!uf.contains(7));
    uf.make_set(7);
    assert!(uf.contains(7));
    assert!(!uf.contains(8));
    uf.make_set(u64::MAX);
    assert!(uf.contains(u64::MAX));
}

#[test]
fn equal_ranks_keep_the_first_representative() {
    let mut uf = UnionFindInner::new();
    uf.make_set(10);
    uf.make_set(20);
    // both have rank 0: the representative of the first argument survives
    uf.union(10, 20);
    assert_eq!(uf.find(10), 10);
    assert_eq!(uf.find(20), 10);

    let mut other = UnionFindInner::new();
    other.make_set(10);
    other.make_set(20);
    other.union(20, 10);
    assert_eq!(other.find(10), 20);
    assert_eq!(other.find(20), 20);
}

#[test]
fn higher_rank_survives() {
    let mut uf = UnionFindInner::new();
    for k in [1u64, 2, 3] {
        uf.make_set(k);
    }
    uf.union(1, 2); // 1 now has rank 1
    uf.union(3, 1); // 3 has rank 0 and goes under 1
    assert_eq!(uf.find(3), 1);
    assert_eq!(uf.find(2), 1);
    assert_eq!(uf.find(1), 1);
    assert_eq!(uf.component_count(), 1);
}

#[test]
fn find_does_not_change_the_sets() {
    let mut uf = UnionFindInner::new();
    for k in 0u64..8 {
        uf.make_set(k);
    }
    uf.union(0, 1);
    uf.union(2, 3);
    uf.union(0, 2);
    uf.union(4, 5);
    uf.union(6, 7);
    uf.union(4, 6);
    uf.union(0, 4);
    let first: Vec<u64> = (0u64..8).map(|k| uf.find(k)).collect();
    let second: Vec<u64> = (0u64..8).map(|k| uf.find(k)).collect();
    assert_eq!(first, second);
    assert_eq!(first, vec![0; 8]);
    assert_eq!(uf.component_count(), 1);
}

#[test]
fn union_of_a_key_with_itself_is_a_no_op() {
    let mut uf = UnionFindInner::new();
    uf.make_set(5);
    uf.make_set(6);
    uf.union(5, 5);
    assert_eq!(uf.component_count(), 2);
    assert_eq!(uf.find(5), 5);
    assert_eq!(uf.find(6), 6);
}

#[test]
fn count_is_registrations_minus_successful_unions() {
    let mut uf = UnionFindInner::new();
    for k in 0u64..10 {
        uf.make_set(k * 1000);
    }
    assert_eq!(uf.component_count(), 10);
    uf.union(0, 1000);
    uf.union(1000, 0); // no-op
    uf.union(2000, 3000);
    uf.union(3000, 0);
    uf.union(2000, 1000); // no-op
    assert_eq!(uf.component_count(), 7);
    assert_eq!(uf.find(3000), uf.find(0));
    assert!(uf.find(4000) != uf.find(0));
}
