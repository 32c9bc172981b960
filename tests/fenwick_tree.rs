use stock_analyser::fenwick_tree::FenwickTree;

#[test]
fn empty_trie_reports_zero() {
    let t = FenwickTree::new();
    assert!(t.is_empty());
    assert_eq!(t.find_min(), 0);
    assert_eq!(t.find_max(), 0);
    assert_eq!(t.find_num(12345), (0, 0));
}

#[test]
fn rank_counts_below_and_up_to_a_key() {
    let mut t = FenwickTree::new();
    t.insert(10, 3);
    t.insert(20, 5);
    t.insert(10, 2);
    t.insert(7, 1);
    assert_eq!(t.find_num(10), (1, 6));
    assert_eq!(t.find_num(15), (6, 6));
    assert_eq!(t.find_num(20), (6, 11));
    assert_eq!(t.find_num(0), (0, 0));
    assert_eq!(t.find_num(i64::MAX), (11, 11));
    assert_eq!(t.find_min(), 7);
    assert_eq!(t.find_max(), 20);
}

#[test]
fn removing_all_weight_of_a_key_drops_it() {
    let mut t = FenwickTree::new();
    t.insert(10, 3);
    t.insert(20, 5);
    t.insert(20, -5);
    assert_eq!(t.find_max(), 10);
    assert_eq!(t.find_num(20), (3, 3));
    t.insert(10, -3);
    assert!(t.is_empty());
    assert_eq!(t.find_min(), 0);
}

#[test]
fn add_then_remove_leaves_an_empty_trie() {
    let mut t = FenwickTree::new();
    t.insert(123456789, 7);
    t.insert(123456789, -7);
    assert!(t.is_empty());
    assert_eq!(t.find_num(123456789), (0, 0));
    assert_eq!(t.find_max(), 0);
}

#[test]
fn key_zero_and_the_largest_key() {
    let mut t = FenwickTree::new();
    t.insert(0, 4);
    t.insert(i64::MAX, 1);
    assert_eq!(t.find_min(), 0);
    assert_eq!(t.find_max(), i64::MAX);
    assert_eq!(t.find_num(0), (0, 4));
    assert_eq!(t.find_num(i64::MAX), (4, 5));
}

#[test]
fn rank_inverse_finds_the_key_that_passes_a_rank() {
    let mut t = FenwickTree::new();
    t.insert(5, 2);
    t.insert(9, 3);
    assert_eq!(t.find_rank(0), 5);
    assert_eq!(t.find_rank(1), 5);
    assert_eq!(t.find_rank(2), 9);
    assert_eq!(t.find_rank(4), 9);
}
