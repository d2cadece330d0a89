use multiway_tree::{ConfigError, Node, Tree};

/// Walks the tree and asserts the six structural invariants: ordering,
/// shape, separator containment, depth consistency, capacity and minimum
/// occupancy (root exempt).
fn check_node(n: &Node, order: usize, lo: Option<u32>, hi: Option<u32>, depth: u64, is_root: bool) {
    assert_eq!(n.depth, depth);
    for w in n.entries.windows(2) {
        assert!(w[0].key < w[1].key, "ordering violated");
    }
    for e in &n.entries {
        assert_eq!(e.depth, depth, "entry depth label stale");
        if let Some(l) = lo {
            assert!(e.key > l, "separator containment violated (low)");
        }
        if let Some(h) = hi {
            assert!(e.key < h, "separator containment violated (high)");
        }
    }
    assert!(n.entries.len() <= order, "capacity violated");
    if !is_root {
        assert!(n.entries.len() >= order / 2, "occupancy violated");
    }
    assert!(
        n.children.is_empty() || n.children.len() == n.entries.len() + 1,
        "shape violated"
    );
    for (i, c) in n.children.iter().enumerate() {
        let clo = if i == 0 { lo } else { Some(n.entries[i - 1].key) };
        let chi = if i == n.entries.len() { hi } else { Some(n.entries[i].key) };
        check_node(c, order, clo, chi, depth + 1, false);
    }
}

fn check_invariants(t: &Tree) {
    check_node(&t.root, t.order, None, None, 1, true);
}

/// The descent rule: a matching key at the current node wins; otherwise
/// follow the unique child whose key range contains the key.
fn descend<'a>(n: &'a Node, key: u32) -> Option<&'a String> {
    if let Some(e) = n.entries.iter().find(|e| e.key == key) {
        return Some(&e.value);
    }
    if n.children.is_empty() {
        return None;
    }
    let i = n
        .entries
        .iter()
        .position(|e| e.key > key)
        .unwrap_or(n.entries.len());
    descend(&n.children[i], key)
}

/// A structural snapshot: (depth label, entries, child count) per node, in
/// depth-first order.
fn snapshot(n: &Node, out: &mut Vec<(u64, Vec<(u32, String, u64)>, usize)>) {
    out.push((
        n.depth,
        n.entries
            .iter()
            .map(|e| (e.key, e.value.clone(), e.depth))
            .collect(),
        n.children.len(),
    ));
    for c in &n.children {
        snapshot(c, out);
    }
}

#[test]
fn order_below_three_is_rejected() {
    for order in [0usize, 1, 2] {
        match Tree::new(order) {
            Err(e) => assert_eq!(e, ConfigError::OrderTooSmall),
            Ok(_) => panic!("order {} must be rejected", order),
        }
    }
    assert!(Tree::new(3).is_ok());
    assert!(Tree::new(4).is_ok());
}

#[test]
fn new_tree_is_empty() {
    let t = Tree::new(4).unwrap();
    assert_eq!(t.order, 4);
    assert_eq!(t.count, 0);
    assert!(t.root.entries.is_empty());
    assert!(t.root.children.is_empty());
    assert_eq!(t.root.depth, 1);
    let s = t.stats();
    assert_eq!(s.total_nodes, 1);
    assert_eq!(s.height, 1);
    assert_eq!(s.total_keys, 0);
    assert_eq!(s.leaf_nodes, 1);
    assert_eq!(s.internal_nodes, 0);
    assert!(t.collect_pairs().is_empty());
}

#[test]
fn median_split_at_order_four() {
    let mut t = Tree::new(4).unwrap();
    for k in [10u32, 20, 30, 40, 50] {
        t.insert(k, format!("v{}", k));
    }
    assert_eq!(t.count, 5);
    assert_eq!(t.root.depth, 1);
    assert_eq!(t.root.entries.len(), 1);
    assert_eq!(t.root.entries[0].key, 30);
    assert_eq!(t.root.entries[0].depth, 1);
    assert_eq!(t.root.children.len(), 2);
    let left = &t.root.children[0];
    let right = &t.root.children[1];
    assert_eq!(
        left.entries.iter().map(|e| e.key).collect::<Vec<_>>(),
        vec![10, 20]
    );
    assert_eq!(
        right.entries.iter().map(|e| e.key).collect::<Vec<_>>(),
        vec![40, 50]
    );
    assert_eq!(left.depth, 2);
    assert_eq!(right.depth, 2);
    for e in left.entries.iter().chain(right.entries.iter()) {
        assert_eq!(e.depth, 2);
    }
    check_invariants(&t);
}

#[test]
fn median_split_at_order_three() {
    let mut t = Tree::new(3).unwrap();
    for k in [1u32, 2, 3, 4] {
        t.insert(k, format!("v{}", k));
    }
    assert_eq!(t.root.entries.iter().map(|e| e.key).collect::<Vec<_>>(), vec![3]);
    assert_eq!(t.root.children.len(), 2);
    assert_eq!(
        t.root.children[0].entries.iter().map(|e| e.key).collect::<Vec<_>>(),
        vec![1, 2]
    );
    assert_eq!(
        t.root.children[1].entries.iter().map(|e| e.key).collect::<Vec<_>>(),
        vec![4]
    );
    check_invariants(&t);
}

#[test]
fn duplicate_key_overwrites() {
    let mut t = Tree::new(4).unwrap();
    t.insert(5, String::from("first"));
    t.insert(5, String::from("second"));
    assert_eq!(t.count, 2);
    let pairs = t.collect_pairs();
    assert_eq!(pairs.len(), 1);
    assert_eq!(pairs[0].0, 5);
    assert_eq!(pairs[0].1, "second");
    assert_eq!(descend(&t.root, 5).unwrap(), "second");
    check_invariants(&t);
}

#[test]
fn sequential_inserts_hold_invariants() {
    let mut t = Tree::new(3).unwrap();
    for k in 1..=30u32 {
        t.insert(k, format!("v{}", k));
        check_invariants(&t);
    }
    assert_eq!(t.count, 30);
    let mut keys: Vec<u32> = t.collect_pairs().into_iter().map(|p| p.0).collect();
    keys.sort();
    assert_eq!(keys, (1..=30).collect::<Vec<_>>());
}

#[test]
fn thousand_random_inserts_hold_invariants() {
    let mut t = Tree::new(8).unwrap();
    let mut expected: std::collections::BTreeMap<u32, String> = std::collections::BTreeMap::new();
    let mut x: u64 = 0x1234_5678_9abc_def0;
    for _ in 0..1000 {
        x = x
            .wrapping_mul(6364136223846793005)
            .wrapping_add(1442695040888963407);
        let key = 1 + ((x >> 33) % 50_000) as u32;
        let value = format!("v{}", x % 97);
        expected.insert(key, value.clone());
        t.insert(key, value);
    }
    assert_eq!(t.count, 1000);
    check_invariants(&t);
    let mut got: Vec<(u32, String)> = t.collect_pairs();
    got.sort();
    let want: Vec<(u32, String)> = expected.iter().map(|(k, v)| (*k, v.clone())).collect();
    assert_eq!(got, want, "traversal must recover exactly the inserted keys");
    for (k, v) in &expected {
        assert_eq!(descend(&t.root, *k), Some(v));
    }
    let s = t.stats();
    assert_eq!(s.total_keys as usize, expected.len());
    assert_eq!(s.total_nodes, s.leaf_nodes + s.internal_nodes);
}

#[test]
fn fix_up_is_idempotent() {
    let mut t = Tree::new(4).unwrap();
    for k in [10u32, 20, 30, 40, 50, 15, 25, 35, 45, 55, 5] {
        t.insert(k, format!("v{}", k));
    }
    check_invariants(&t);
    let mut before = Vec::new();
    snapshot(&t.root, &mut before);
    let count_before = t.count;
    t.fix_up();
    let mut after = Vec::new();
    snapshot(&t.root, &mut after);
    assert_eq!(before, after, "fix-up on a consistent tree must change nothing");
    assert_eq!(t.count, count_before);
    t.fix_up();
    let mut again = Vec::new();
    snapshot(&t.root, &mut again);
    assert_eq!(after, again);
}

#[test]
fn inserted_keys_reachable_by_descent() {
    let mut t = Tree::new(4).unwrap();
    let keys = [42u32, 7, 99, 1, 65535, 12, 13, 14, 15, 16, 17];
    for k in keys {
        t.insert(k, format!("v{}", k));
        assert_eq!(descend(&t.root, k).unwrap(), &format!("v{}", k));
    }
    for k in keys {
        assert_eq!(descend(&t.root, k).unwrap(), &format!("v{}", k));
    }
    assert_eq!(descend(&t.root, 1000), None);
}

#[test]
fn stats_after_median_split() {
    let mut t = Tree::new(4).unwrap();
    for k in [10u32, 20, 30, 40, 50] {
        t.insert(k, format!("v{}", k));
    }
    let s = t.stats();
    assert_eq!(s.total_nodes, 3);
    assert_eq!(s.height, 2);
    assert_eq!(s.total_keys, 5);
    assert_eq!(s.leaf_nodes, 2);
    assert_eq!(s.internal_nodes, 1);
}

#[test]
fn extreme_keys_accepted() {
    let mut t = Tree::new(4).unwrap();
    t.insert(0, String::from("low"));
    t.insert(u32::MAX, String::from("high"));
    assert_eq!(descend(&t.root, 0).unwrap(), "low");
    assert_eq!(descend(&t.root, u32::MAX).unwrap(), "high");
    check_invariants(&t);
}
