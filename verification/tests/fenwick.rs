use market_feed::FenwickTree;

#[test]
fn insert_and_rank_queries() {
    let mut t = FenwickTree::new();
    t.insert(5, 2);
    t.insert(3, 1);
    t.insert(9, 1);

    // keys below 5: just the single 3; at-or-below 5 adds both copies of 5
    assert_eq!(t.find_num(5), (1, 3));
    assert_eq!(t.find_num(3), (0, 1));
    assert_eq!(t.find_num(9), (3, 4));
    assert_eq!(t.find_num(4), (1, 1));

    assert_eq!(t.find_nth(0), 3);
    assert_eq!(t.find_nth(1), 5);
    assert_eq!(t.find_nth(2), 5);
    assert_eq!(t.find_nth(3), 9);
}

#[test]
fn find_nth_is_non_decreasing() {
    let mut t = FenwickTree::new();
    let keys = [41u64, 7, 7, 1000000007, 52, 41, 3, 999, 999, 999];
    for k in keys {
        t.insert(k, 1);
    }
    let mut prev = t.find_nth(0);
    for r in 1..keys.len() as u64 {
        let cur = t.find_nth(r);
        assert!(prev <= cur);
        prev = cur;
    }
    assert_eq!(t.find_nth(0), 3);
    assert_eq!(t.find_nth(9), 1000000007);
}

#[test]
fn weighted_insert_counts_multiplicity() {
    let mut t = FenwickTree::new();
    t.insert(10, 5);
    t.insert(20, 2);
    assert_eq!(t.find_num(20), (5, 7));
    assert_eq!(t.find_nth(4), 10);
    assert_eq!(t.find_nth(5), 20);
}

#[test]
fn insert_then_delete_restores_queries() {
    let mut t = FenwickTree::new();
    t.insert(100, 3);
    t.insert(250, 1);
    t.insert(777, 2);

    let probes = [0u64, 1, 99, 100, 101, 250, 500, 777, 778, u64::MAX];
    let before: Vec<(u64, u64)> = probes.iter().map(|&k| t.find_num(k)).collect();
    let nth_before: Vec<u64> = (0..6).map(|r| t.find_nth(r)).collect();

    // round trip: add copies of a key, then remove the same copies
    t.insert(300, 4);
    t.insert(300, -4);

    let after: Vec<(u64, u64)> = probes.iter().map(|&k| t.find_num(k)).collect();
    let nth_after: Vec<u64> = (0..6).map(|r| t.find_nth(r)).collect();
    assert_eq!(before, after);
    assert_eq!(nth_before, nth_after);
}

#[test]
fn removing_last_copy_leaves_no_trace() {
    let mut t = FenwickTree::new();
    t.insert(42, 1);
    t.insert(42, -1);
    assert_eq!(t.find_num(42), (0, 0));
    assert_eq!(t.find_num(u64::MAX), (0, 0));
}
