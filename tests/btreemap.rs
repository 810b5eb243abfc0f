use std::collections::BTreeMap as StdMap;
use tiny_collections::btreemap::map::BTreeMap;
use tiny_collections::btreemap::node::{InsertionResult, Node, SearchResult};

/// Checks the B-tree rules below `node` and returns its number of entries.
fn assert_btree_rules(
    node: &Node<u64>,
    b: usize,
    is_root: bool,
    levels: usize,
    lo: Option<u64>,
    hi: Option<u64>,
) -> usize {
    let n = node.len();
    assert!(n <= 2 * b - 1);
    if !is_root {
        assert!(n >= b - 1);
    }
    assert_eq!(node.capacity(), 2 * b - 1);
    for i in 0..n {
        let k = *node.key(i).unwrap();
        if i > 0 {
            assert!(*node.key(i - 1).unwrap() < k);
        }
        if let Some(l) = lo {
            assert!(l < k);
        }
        if let Some(h) = hi {
            assert!(k < h);
        }
    }
    if levels == 1 {
        assert!(node.is_leaf());
        return n;
    }
    assert!(!node.is_leaf());
    assert!(node.edge(n).is_some());
    assert!(node.edge(n + 1).is_none());
    let mut total = n;
    for i in 0..=n {
        let clo = if i == 0 { lo } else { node.key(i - 1).copied() };
        let chi = if i == n { hi } else { node.key(i).copied() };
        total += assert_btree_rules(node.edge(i).unwrap(), b, false, levels - 1, clo, chi);
    }
    total
}

fn assert_map_rules(map: &BTreeMap<u64>, b: usize) {
    let total = assert_btree_rules(map.root(), b, true, map.depth(), None, None);
    assert_eq!(total, map.len());
}

#[test]
fn small_test1() {
    let mut bt = BTreeMap::new();
    (0..100).for_each(|i| {
        bt.insert(i, i);
    });

    (0..100).for_each(|i| {
        assert_eq!(Some(&i), bt.find(&i));
    });
}

#[test]
fn ascending_inserts_all_found() {
    let mut bt = BTreeMap::with_b(6);
    for i in 0..100u64 {
        assert_eq!(bt.insert(i, i * 10), None);
    }
    for i in 0..100u64 {
        assert_eq!(bt.find(&i), Some(&(i * 10)));
    }
    assert_eq!(bt.find(&100), None);
    assert_eq!(bt.len(), 100);
    assert_map_rules(&bt, 6);
}

#[test]
fn remove_evens() {
    let mut bt = BTreeMap::new();
    for i in 0..100u64 {
        bt.insert(i, i + 1000);
    }
    for i in (0..100u64).step_by(2) {
        assert_eq!(bt.remove(&i), Some(i + 1000));
        assert_map_rules(&bt, 6);
    }
    for i in 0..100u64 {
        if i % 2 == 0 {
            assert_eq!(bt.find(&i), None);
        } else {
            assert_eq!(bt.find(&i), Some(&(i + 1000)));
        }
    }
    assert_eq!(bt.len(), 50);
}

#[test]
fn single_key_insert_remove_reinsert() {
    let mut bt = BTreeMap::new();
    assert_eq!(bt.insert(7, 70), None);
    assert_eq!(bt.remove(&7), Some(70));
    assert_eq!(bt.len(), 0);
    assert_eq!(bt.depth(), 1);
    assert!(bt.root().is_leaf());
    assert_eq!(bt.root().len(), 0);
    assert_eq!(bt.find(&7), None);
    assert_eq!(bt.insert(7, 71), None);
    assert_eq!(bt.find(&7), Some(&71));
    assert_eq!(bt.len(), 1);
    assert_eq!(bt.depth(), 1);
}

#[test]
fn minimum_branching_grows_deep() {
    let mut bt = BTreeMap::with_b(2);
    let mut i = 0u64;
    while bt.depth() < 3 {
        bt.insert(i, i);
        assert_map_rules(&bt, 2);
        i += 1;
    }
    assert!(i >= 7);
    for _ in 0..50 {
        bt.insert(i, i);
        assert_map_rules(&bt, 2);
        i += 1;
    }
    assert!(bt.depth() >= 4);
    for k in 0..i {
        assert_eq!(bt.find(&k), Some(&k));
    }
}

#[test]
fn overwrite_keeps_length() {
    let mut bt = BTreeMap::new();
    for i in 0..30u64 {
        bt.insert(i, i);
    }
    assert_eq!(bt.insert(17, 500), Some(17));
    assert_eq!(bt.len(), 30);
    assert_eq!(bt.find(&17), Some(&500));
    assert_eq!(bt.insert(17, 600), Some(500));
    assert_eq!(bt.find(&17), Some(&600));
    assert_map_rules(&bt, 6);
}

#[test]
fn deletion_keeps_other_keys() {
    let mut bt = BTreeMap::with_b(3);
    for i in 0..60u64 {
        bt.insert(i * 3, i);
    }
    assert_eq!(bt.remove(&30), Some(10));
    assert_eq!(bt.find(&30), None);
    assert_eq!(bt.len(), 59);
    for i in 0..60u64 {
        if i != 10 {
            assert_eq!(bt.find(&(i * 3)), Some(&i));
        }
    }
    assert_map_rules(&bt, 3);
}

#[test]
fn removing_absent_key_changes_nothing() {
    let mut bt = BTreeMap::with_b(2);
    for i in 0..20u64 {
        bt.insert(i * 2, i);
    }
    let depth = bt.depth();
    assert_eq!(bt.remove(&5), None);
    assert_eq!(bt.remove(&1000), None);
    assert_eq!(bt.len(), 20);
    assert_eq!(bt.depth(), depth);
    for i in 0..20u64 {
        assert_eq!(bt.find(&(i * 2)), Some(&i));
    }
    let mut empty: BTreeMap<u64> = BTreeMap::new();
    assert_eq!(empty.remove(&3), None);
    assert_eq!(empty.len(), 0);
}

#[test]
fn mixed_operations_match_std_map() {
    for b in 2..6usize {
        let mut bt = BTreeMap::with_b(b);
        let mut reference = StdMap::new();
        let mut x: u64 = 12345;
        for step in 0..2000u64 {
            x = x.wrapping_mul(6364136223846793005).wrapping_add(1442695040888963407);
            let key = (x >> 33) % 200;
            if step % 3 == 2 {
                assert_eq!(bt.remove(&key), reference.remove(&key));
            } else {
                assert_eq!(bt.insert(key, step), reference.insert(key, step));
            }
            assert_eq!(bt.len(), reference.len());
        }
        assert_map_rules(&bt, b);
        for key in 0..200u64 {
            assert_eq!(bt.find(&key), reference.get(&key));
        }
        for key in 0..200u64 {
            assert_eq!(bt.remove(&key), reference.remove(&key));
            assert_map_rules(&bt, b);
        }
        assert_eq!(bt.len(), 0);
        assert_eq!(bt.depth(), 1);
    }
}

#[test]
fn descending_inserts_and_removals() {
    let mut bt = BTreeMap::with_b(2);
    for i in (0..64u64).rev() {
        bt.insert(i, i + 1);
        assert_map_rules(&bt, 2);
    }
    for i in (0..64u64).rev() {
        assert_eq!(bt.remove(&i), Some(i + 1));
        assert_map_rules(&bt, 2);
    }
    assert_eq!(bt.depth(), 1);
}

#[test]
fn largest_keys() {
    let mut bt = BTreeMap::new();
    assert_eq!(bt.insert(u64::MAX, 1), None);
    assert_eq!(bt.insert(0, 2), None);
    assert_eq!(bt.find(&u64::MAX), Some(&1));
    assert_eq!(bt.remove(&u64::MAX), Some(1));
    assert_eq!(bt.find(&0), Some(&2));
}

#[test]
fn default_is_empty() {
    let bt: BTreeMap<u64> = Default::default();
    assert_eq!(bt.len(), 0);
    assert_eq!(bt.depth(), 1);
    assert_eq!(bt.find(&0), None);
}

fn leaf_with(keys: &[u64]) -> Node<u64> {
    let mut n = Node::new_leaf(5);
    for (i, k) in keys.iter().enumerate() {
        match n.insert_as_leaf(i, *k, *k * 10) {
            InsertionResult::Fit => {}
            InsertionResult::Split(..) => panic!("leaf overflowed"),
        }
    }
    n
}

#[test]
fn search_positions() {
    let n = leaf_with(&[10, 20, 30]);
    assert!(matches!(n.search(&20), SearchResult::Found(1)));
    assert!(matches!(n.search(&5), SearchResult::GoDown(0)));
    assert!(matches!(n.search(&25), SearchResult::GoDown(2)));
    assert!(matches!(n.search(&40), SearchResult::GoDown(3)));
    for k in 0..45u64 {
        let a = match n.search(&k) {
            SearchResult::Found(i) => (true, i),
            SearchResult::GoDown(i) => (false, i),
        };
        let b = match n.search_binary(&k) {
            SearchResult::Found(i) => (true, i),
            SearchResult::GoDown(i) => (false, i),
        };
        assert_eq!(a, b);
    }
}

#[test]
fn full_leaf_splits_around_middle() {
    let mut n = leaf_with(&[10, 20, 30, 40, 50]);
    assert!(n.is_full());
    match n.insert_as_leaf(5, 60, 600) {
        InsertionResult::Fit => panic!("expected a split"),
        InsertionResult::Split(k, v, right) => {
            assert_eq!((k, v), (30, 300));
            assert_eq!(n.keys, vec![10, 20]);
            assert_eq!(right.keys, vec![40, 50, 60]);
            assert_eq!(right.vals, vec![400, 500, 600]);
        }
    }
    let mut m = leaf_with(&[10, 20, 30, 40, 50]);
    match m.insert_as_leaf(0, 5, 50) {
        InsertionResult::Fit => panic!("expected a split"),
        InsertionResult::Split(k, _, right) => {
            assert_eq!(k, 30);
            assert_eq!(m.keys, vec![5, 10, 20]);
            assert_eq!(right.keys, vec![40, 50]);
        }
    }
}

#[test]
fn underflow_rotates_or_merges() {
    // Parent [40] over [10, 20, 30] and an empty leaf: the empty child takes
    // a pair through the parent from its left sibling.
    let mut parent = leaf_with(&[10, 20, 30]);
    Node::make_internal_root(&mut parent, 3, 40, 400, Node::new_leaf(5));
    assert_eq!(parent.edge(1).unwrap().len(), 0);
    parent.handle_underflow(1);
    assert_eq!(parent.keys, vec![30]);
    assert_eq!(parent.vals, vec![300]);
    assert_eq!(parent.edge(0).unwrap().keys, vec![10, 20]);
    assert_eq!(parent.edge(1).unwrap().keys, vec![40]);
    assert_eq!(parent.edge(1).unwrap().vals, vec![400]);

    // Parent [30] over [10, 20] and [40]: the left child has no pair to
    // spare above the minimum load of 2, so the two merge.
    parent.handle_underflow(1);
    assert_eq!(parent.len(), 0);
    assert_eq!(parent.edge(0).unwrap().keys, vec![10, 20, 30, 40]);
    assert!(parent.pop_edge().is_some());
    assert!(parent.pop_edge().is_none());

    // Parent [20] over [] and [30, 40, 50]: the empty child takes from the right.
    let mut p2 = Node::new_leaf(5);
    Node::make_internal_root(&mut p2, 3, 20, 200, leaf_with(&[30, 40, 50]));
    p2.handle_underflow(0);
    assert_eq!(p2.keys, vec![30]);
    assert_eq!(p2.edge(0).unwrap().keys, vec![20]);
    assert_eq!(p2.edge(1).unwrap().keys, vec![40, 50]);
}

#[test]
fn underflow_prefers_right_rotation_to_merge() {
    // Parent [30, 60] over [10, 20], [40] and [70, 80, 90]: the left sibling
    // is at the minimum load of 2, the right one has a pair to spare.
    let mut parent = leaf_with(&[10, 20]);
    Node::make_internal_root(&mut parent, 3, 30, 300, leaf_with(&[40]));
    assert!(matches!(
        parent.insert_as_internal(1, 60, 600, leaf_with(&[70, 80, 90])),
        InsertionResult::Fit
    ));
    parent.handle_underflow(1);
    assert_eq!(parent.keys, vec![30, 70]);
    assert_eq!(parent.vals, vec![300, 700]);
    assert_eq!(parent.edge(0).unwrap().keys, vec![10, 20]);
    assert_eq!(parent.edge(1).unwrap().keys, vec![40, 60]);
    assert_eq!(parent.edge(1).unwrap().vals, vec![400, 600]);
    assert_eq!(parent.edge(2).unwrap().keys, vec![80, 90]);
}

#[test]
fn remove_as_leaf_returns_pair() {
    let mut n = leaf_with(&[1, 2, 3]);
    assert_eq!(n.remove_as_leaf(1), (2, 20));
    assert_eq!(n.keys, vec![1, 3]);
    assert!(!n.is_underfull());
    assert_eq!(n.remove_as_leaf(0), (1, 10));
    assert!(n.is_underfull());
    *n.val_mut(0).unwrap() = 99;
    assert_eq!(n.val(0), Some(&99));
    assert_eq!(n.key(5), None);
    assert!(n.key_mut(1).is_none());
    *n.key_mut(0).unwrap() = 4;
    assert_eq!(n.key(0), Some(&4));
}
