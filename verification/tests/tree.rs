use near_collections::store::Store;
use near_collections::tree_map::TreeMap;

#[test]
fn tree_range_window() {
    let mut store = Store::new();
    let mut tree = TreeMap::new(vec![20], &mut store);
    for key in [5u64, 3, 8, 1, 4] {
        tree.insert(&mut store, key, key * 10);
    }
    assert_eq!(tree.range(&store, 2, 6), vec![(3, 30), (4, 40), (5, 50)]);
    assert_eq!(tree.range(&store, 6, 2), vec![]);
    assert_eq!(tree.range(&store, 0, 2), vec![(1, 10)]);
}

#[test]
fn tree_insert_get_len() {
    let mut store = Store::new();
    let mut tree = TreeMap::new(vec![21], &mut store);
    assert_eq!(tree.len(&store), 0);
    assert_eq!(tree.get(&store, 7), None);
    assert_eq!(tree.insert(&mut store, 7, 70), None);
    assert_eq!(tree.insert(&mut store, 2, 20), None);
    assert_eq!(tree.insert(&mut store, 7, 71), Some(70));
    assert_eq!(tree.len(&store), 2);
    assert_eq!(tree.get(&store, 7), Some(71));
    assert_eq!(tree.get(&store, 2), Some(20));
    assert!(tree.contains(&store, 2));
    assert!(!tree.contains(&store, 3));
}

#[test]
fn tree_walk_is_sorted() {
    let mut store = Store::new();
    let mut tree = TreeMap::new(vec![22], &mut store);
    for key in [9u64, 1, 7, 3, 5, 2, 8, 0, 6, 4, u64::MAX] {
        tree.insert(&mut store, key, key);
    }
    let pairs = tree.to_vec(&store);
    assert_eq!(pairs.len(), 11);
    for window in pairs.windows(2) {
        assert!(window[0].0 < window[1].0);
    }
    assert_eq!(pairs[0], (0, 0));
    assert_eq!(pairs[10], (u64::MAX, u64::MAX));
}

#[test]
fn tree_ordered_queries() {
    let mut store = Store::new();
    let mut tree = TreeMap::new(vec![23], &mut store);
    assert_eq!(tree.min(&store), None);
    assert_eq!(tree.max(&store), None);
    assert_eq!(tree.floor(&store, 10), None);
    assert_eq!(tree.ceiling(&store, 10), None);
    for key in [5u64, 3, 8, 1, 4] {
        tree.insert(&mut store, key, 0);
    }
    assert_eq!(tree.min(&store), Some(1));
    assert_eq!(tree.max(&store), Some(8));
    assert_eq!(tree.floor(&store, 4), Some(4));
    assert_eq!(tree.floor(&store, 7), Some(5));
    assert_eq!(tree.floor(&store, 0), None);
    assert_eq!(tree.ceiling(&store, 4), Some(4));
    assert_eq!(tree.ceiling(&store, 6), Some(8));
    assert_eq!(tree.ceiling(&store, 9), None);
}

#[test]
fn tree_remove_all_shapes() {
    let mut store = Store::new();
    let mut tree = TreeMap::new(vec![24], &mut store);
    for key in [5u64, 3, 8, 1, 4, 7, 9] {
        tree.insert(&mut store, key, key * 10);
    }
    assert_eq!(tree.remove(&mut store, 1), Some(10));
    assert_eq!(tree.remove(&mut store, 8), Some(80));
    assert_eq!(tree.remove(&mut store, 5), Some(50));
    assert_eq!(tree.len(&store), 4);
    assert_eq!(tree.get(&store, 5), None);
    assert_eq!(
        tree.to_vec(&store),
        vec![(3, 30), (4, 40), (7, 70), (9, 90)]
    );
}

#[test]
fn tree_remove_absent_is_a_no_op() {
    let mut store = Store::new();
    let mut tree = TreeMap::new(vec![25], &mut store);
    tree.insert(&mut store, 2, 20);
    let keys_before = store.key_count();
    assert_eq!(tree.remove(&mut store, 99), None);
    assert_eq!(store.key_count(), keys_before);
    assert_eq!(tree.len(&store), 1);
    assert_eq!(tree.get(&store, 2), Some(20));
}
