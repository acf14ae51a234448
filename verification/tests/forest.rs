use mincut::disjoint_set::DisjointSetForest;
use union_find::{QuickUnionUf, UnionByRank, UnionFind};

#[test]
fn new_forest_has_singletons() {
    let mut forest = DisjointSetForest::new(5);
    assert_eq!(forest.len(), 5);
    assert_eq!(forest.set_count(), 5);
    for x in 0..5 {
        assert_eq!(forest.find(x), x);
    }
}

#[test]
fn empty_forest_has_no_sets() {
    let forest = DisjointSetForest::new(0);
    assert_eq!(forest.len(), 0);
    assert_eq!(forest.set_count(), 0);
}

#[test]
fn union_of_equal_ranks_keeps_the_first_root() {
    let mut forest = DisjointSetForest::new(4);
    assert!(forest.union(2, 3));
    assert_eq!(forest.find(2), 2);
    assert_eq!(forest.find(3), 2);
    assert_eq!(forest.set_count(), 3);
}

#[test]
fn union_puts_the_lower_rank_under_the_higher() {
    let mut forest = DisjointSetForest::new(4);
    assert!(forest.union(0, 1));
    // The set of 0 now has rank one, that of 2 rank zero.
    assert!(forest.union(2, 0));
    assert_eq!(forest.find(2), 0);
    assert!(forest.union(3, 1));
    assert_eq!(forest.find(3), 0);
    assert_eq!(forest.set_count(), 1);
}

#[test]
fn union_within_one_set_changes_nothing() {
    let mut forest = DisjointSetForest::new(3);
    assert!(forest.union(0, 1));
    assert!(!forest.union(1, 0));
    assert!(!forest.union(0, 0));
    assert_eq!(forest.set_count(), 2);
    assert_eq!(forest.find(2), 2);
}

#[test]
fn same_set_follows_the_unions() {
    let mut forest = DisjointSetForest::new(6);
    assert!(!forest.same_set(0, 5));
    forest.union(0, 1);
    forest.union(4, 5);
    assert!(forest.same_set(1, 0));
    assert!(forest.same_set(5, 4));
    assert!(!forest.same_set(1, 4));
    forest.union(1, 5);
    assert!(forest.same_set(0, 4));
    assert!(!forest.same_set(0, 2));
    assert_eq!(forest.set_count(), 3);
}

#[test]
fn find_is_stable_between_unions() {
    let mut forest = DisjointSetForest::new(8);
    forest.union(0, 1);
    forest.union(2, 3);
    forest.union(0, 2);
    forest.union(4, 5);
    forest.union(6, 7);
    forest.union(4, 6);
    forest.union(0, 4);
    let first: Vec<usize> = (0..8).map(|x| forest.find(x)).collect();
    let second: Vec<usize> = (0..8).map(|x| forest.find(x)).collect();
    assert_eq!(first, second);
    assert_eq!(first, vec![0; 8]);
    assert_eq!(forest.set_count(), 1);
}

#[test]
fn forest_agrees_with_quick_union_by_rank() {
    let n: usize = 40;
    let mut forest = DisjointSetForest::new(n);
    let mut other = QuickUnionUf::<UnionByRank>::new(n);
    let mut state: usize = 12345;
    let mut sets = n;
    for _ in 0..200 {
        state = state.wrapping_mul(6364136223846793005).wrapping_add(1442695040888963407);
        let x = (state >> 33) % n;
        state = state.wrapping_mul(6364136223846793005).wrapping_add(1442695040888963407);
        let y = (state >> 33) % n;
        let merged = forest.union(x, y);
        assert_eq!(merged, other.union(x, y));
        if merged {
            sets -= 1;
        }
        assert_eq!(forest.set_count(), sets);
        for z in 0..n {
            assert_eq!(forest.find(z), other.find(z));
        }
    }
}
