use algokit::union_find::WeightedQuickUnionUF;

#[test]
fn new_has_singletons() {
    let uf = WeightedQuickUnionUF::new(5);
    assert_eq!(uf.count(), 5);
    for i in 0..5 {
        assert_eq!(uf.find(i), i);
    }
    assert!(!uf.connected(0, 1));
    assert!(uf.connected(3, 3));
}

#[test]
fn empty_structure() {
    let uf = WeightedQuickUnionUF::new(0);
    assert_eq!(uf.count(), 0);
}

#[test]
fn union_joins_two_sets() {
    let mut uf = WeightedQuickUnionUF::new(4);
    uf.union(0, 1);
    assert_eq!(uf.count(), 3);
    assert!(uf.connected(0, 1));
    assert!(uf.connected(1, 0));
    assert!(!uf.connected(0, 2));
    // Sets of one size: the representative of the first argument stays.
    assert_eq!(uf.find(0), 0);
    assert_eq!(uf.find(1), 0);
}

#[test]
fn union_of_connected_elements_changes_nothing() {
    let mut uf = WeightedQuickUnionUF::new(3);
    uf.union(0, 1);
    uf.union(1, 0);
    uf.union(0, 0);
    assert_eq!(uf.count(), 2);
    assert_eq!(uf.find(1), 0);
    assert_eq!(uf.find(2), 2);
}

#[test]
fn smaller_set_takes_the_representative_of_the_larger() {
    let mut uf = WeightedQuickUnionUF::new(6);
    uf.union(3, 4);
    uf.union(3, 5);
    // {3, 4, 5} has the representative 3; {0} joins it.
    uf.union(0, 4);
    assert_eq!(uf.find(0), 3);
    assert_eq!(uf.find(5), 3);
    uf.union(1, 2);
    // {1, 2} is smaller than {0, 3, 4, 5}.
    uf.union(4, 2);
    assert_eq!(uf.find(1), 3);
    assert_eq!(uf.find(2), 3);
    assert_eq!(uf.count(), 1);
}

#[test]
fn connected_is_transitive_along_a_chain() {
    let mut uf = WeightedQuickUnionUF::new(10);
    for i in 0..9 {
        assert!(!uf.connected(0, i + 1));
        uf.union(i, i + 1);
        assert!(uf.connected(0, i + 1));
        assert_eq!(uf.count(), 9 - i);
    }
    let root = uf.find(0);
    for i in 0..10 {
        assert_eq!(uf.find(i), root);
    }
}

#[test]
fn find_returns_a_representative_of_itself() {
    let mut uf = WeightedQuickUnionUF::new(8);
    uf.union(0, 1);
    uf.union(2, 3);
    uf.union(1, 3);
    uf.union(6, 7);
    for i in 0..8 {
        let root = uf.find(i);
        assert_eq!(uf.find(root), root);
    }
    assert_eq!(uf.count(), 4);
}

#[test]
fn validate_tells_elements_from_other_numbers() {
    let uf = WeightedQuickUnionUF::new(3);
    assert!(uf.validate(0));
    assert!(uf.validate(2));
    assert!(!uf.validate(3));
    assert!(!WeightedQuickUnionUF::new(0).validate(0));
}
