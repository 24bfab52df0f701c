use near_collections::codec::{decode_str, decode_u64, encode_str, encode_u64};
use near_collections::lazy_option::LazyOption;
use near_collections::lookup_set::LookupSet;
use near_collections::unordered_set::UnorderedSet;
use near_collections::lookup_map::LookupMap;
use near_collections::store::Store;
use near_collections::unordered_map::UnorderedMap;
use near_collections::vector::Vector;

#[test]
fn codec_round_trips() {
    for v in [0u64, 1, 255, 256, 0xDEAD_BEEF, u64::MAX] {
        assert_eq!(decode_u64(&encode_u64(v)), Some(v));
    }
    assert_eq!(encode_u64(1), vec![1, 0, 0, 0, 0, 0, 0, 0]);
    for s in ["", "a", "hello", "naïve ünïcode 🌳", "\u{0}\u{1f}"] {
        assert_eq!(decode_str(&encode_str(s)).as_deref(), Some(s));
    }
    assert_eq!(decode_str(&vec![1, 2, 3]), None);
    assert_eq!(decode_u64(&vec![1, 2, 3]), None);
}

#[test]
fn vector_push_swap_remove_iterate() {
    let mut store = Store::new();
    let mut vector = Vector::new(vec![1], &mut store);
    vector.push(&mut store, "a");
    vector.push(&mut store, "b");
    vector.push(&mut store, "c");
    assert_eq!(vector.len(), 3);
    assert_eq!(vector.swap_remove(&mut store, 0).as_deref(), Some("a"));
    assert_eq!(vector.to_vec(&store), vec!["c".to_string(), "b".to_string()]);
}

#[test]
fn vector_len_tracks_live_elements() {
    let mut store = Store::new();
    let mut vector = Vector::new(vec![1], &mut store);
    assert_eq!(vector.get(&store, 0), None);
    vector.push(&mut store, "x");
    vector.push(&mut store, "y");
    assert_eq!(vector.len(), 2);
    assert!(vector.get(&store, 0).is_some());
    assert!(vector.get(&store, 1).is_some());
    assert_eq!(vector.get(&store, 2), None);
    vector.swap_remove(&mut store, 1);
    assert_eq!(vector.len(), 1);
    assert_eq!(vector.get(&store, 1), None);
    vector.pop(&mut store);
    assert_eq!(vector.len(), 0);
    assert_eq!(vector.get(&store, 0), None);
}

#[test]
fn vector_set_and_clear() {
    let mut store = Store::new();
    let mut vector = Vector::new(vec![1], &mut store);
    vector.push(&mut store, "a");
    vector.push(&mut store, "b");
    vector.set(&mut store, 0, "z");
    assert_eq!(vector.get(&store, 0).as_deref(), Some("z"));
    vector.clear(&mut store);
    assert_eq!(vector.len(), 0);
    assert_eq!(store.key_count(), 1);
}

#[test]
fn lookup_map_basics() {
    let mut store = Store::new();
    let mut map = LookupMap::new(vec![2], &store);
    assert_eq!(map.get(&store, "a"), None);
    assert_eq!(map.insert(&mut store, "a", 7), None);
    assert_eq!(map.insert(&mut store, "a", 8), Some(7));
    assert_eq!(map.get(&store, "a"), Some(8));
    assert!(map.contains(&store, "a"));
    assert_eq!(map.remove(&mut store, "a"), Some(8));
    assert_eq!(map.remove(&mut store, "a"), None);
    assert!(!map.contains(&store, "a"));
}

#[test]
fn unordered_map_overwrite_keeps_len() {
    let mut store = Store::new();
    let mut map = UnorderedMap::new(vec![3], &mut store);
    map.insert(&mut store, "x", 1);
    map.insert(&mut store, "x", 2);
    assert_eq!(map.len(&store), 1);
    assert_eq!(map.get(&store, "x"), Some(2));
}

#[test]
fn unordered_map_remove_middle_keeps_bijection() {
    let mut store = Store::new();
    let mut map = UnorderedMap::new(vec![4], &mut store);
    map.insert(&mut store, "a", 1);
    map.insert(&mut store, "b", 2);
    map.insert(&mut store, "c", 3);
    assert_eq!(map.remove(&mut store, "b"), Some(2));
    assert_eq!(map.len(&store), 2);
    let pairs = map.to_vec(&store);
    assert_eq!(pairs.len(), 2);
    for (key, value) in &pairs {
        assert_eq!(map.get(&store, key), Some(*value));
    }
    assert_eq!(map.get(&store, "a"), Some(1));
    assert_eq!(map.get(&store, "c"), Some(3));
    assert_eq!(map.get(&store, "b"), None);
}

#[test]
fn unordered_map_remove_absent_is_a_no_op() {
    let mut store = Store::new();
    let mut map = UnorderedMap::new(vec![5], &mut store);
    map.insert(&mut store, "a", 1);
    let keys_before = store.key_count();
    assert_eq!(map.remove(&mut store, "missing"), None);
    assert_eq!(store.key_count(), keys_before);
    assert_eq!(map.len(&store), 1);
    assert_eq!(map.get(&store, "a"), Some(1));
}

#[test]
fn collections_share_one_store() {
    let mut store = Store::new();
    let mut vector = Vector::new(vec![10], &mut store);
    let mut map = UnorderedMap::new(vec![11], &mut store);
    vector.push(&mut store, "v");
    map.insert(&mut store, "k", 9);
    vector.push(&mut store, "w");
    map.remove(&mut store, "k");
    assert_eq!(vector.to_vec(&store), vec!["v".to_string(), "w".to_string()]);
    assert_eq!(map.len(&store), 0);
}

#[test]
fn store_primitives() {
    let mut store = Store::new();
    assert_eq!(store.get(b"k"), None);
    assert_eq!(store.set(b"k", b"v1"), None);
    assert_eq!(store.set(b"k", b"v2"), Some(b"v1".to_vec()));
    assert!(store.has(b"k"));
    assert_eq!(store.key_count(), 1);
    assert_eq!(store.remove(b"k"), Some(b"v2".to_vec()));
    assert!(!store.has(b"k"));
    assert_eq!(store.key_count(), 0);
}

#[test]
fn key_helpers_concatenate() {
    assert_eq!(near_collections::keys::append(b"ab", 7), vec![97, 98, 7]);
    assert_eq!(
        near_collections::keys::append_slice(b"ab", b"cd"),
        b"abcd".to_vec()
    );
}

#[test]
fn lookup_set_membership() {
    let mut store = Store::new();
    let mut set = LookupSet::new(vec![6], &store);
    assert!(!set.contains(&store, "a"));
    assert!(set.insert(&mut store, "a"));
    assert!(!set.insert(&mut store, "a"));
    assert!(set.contains(&store, "a"));
    assert!(set.remove(&mut store, "a"));
    assert!(!set.remove(&mut store, "a"));
    assert!(!set.contains(&store, "a"));
}

#[test]
fn unordered_set_swap_removal() {
    let mut store = Store::new();
    let mut set = UnorderedSet::new(vec![7], &mut store);
    assert!(set.insert(&mut store, "a"));
    assert!(set.insert(&mut store, "b"));
    assert!(set.insert(&mut store, "c"));
    assert!(!set.insert(&mut store, "b"));
    assert_eq!(set.len(&store), 3);
    assert!(set.remove(&mut store, "a"));
    assert_eq!(set.to_vec(&store), vec!["c".to_string(), "b".to_string()]);
    assert!(!set.remove(&mut store, "a"));
    assert_eq!(set.len(&store), 2);
}

#[test]
fn lazy_option_holds_one_value() {
    let mut store = Store::new();
    let mut opt = LazyOption::new(vec![8], &store);
    assert!(!opt.is_some(&store));
    assert_eq!(opt.get(&store), None);
    opt.set(&mut store, "first");
    opt.set(&mut store, "second");
    assert!(opt.is_some(&store));
    assert_eq!(opt.get(&store).as_deref(), Some("second"));
    assert_eq!(opt.take(&mut store).as_deref(), Some("second"));
    assert_eq!(opt.get(&store), None);
    assert_eq!(store.key_count(), 0);
}
