use polymap::map::{PolyMap, Released};
use polymap::storable::{Handle, Storable};
use std::collections::HashSet;

/// Releases the handed-back handles: each adds its number to the total.
fn release_all(released: &[Released]) -> u64 {
    let mut total = 0;
    for r in released {
        assert_eq!(r.tag, Handle::type_tag());
        total += Handle::decode(&r.bytes, 0).0;
    }
    total
}

#[test]
fn test_contains() {
    let mut map = PolyMap::new();

    map.insert("a", 1);
    assert!(map.contains_key(&"a"));
    assert!(!map.contains_key(&"b"));

    assert!(map.contains_key_of::<i32>(&"a"));
    assert!(!map.contains_key_of::<()>(&"a"));
    assert!(!map.contains_key_of::<i32>(&"b"));
}

#[test]
fn test_drop() {
    let mut map = PolyMap::new();
    map.insert(0, Handle(1));
    map.insert(1, Handle(2));
    map.insert(2, Handle(3));

    let released = map.clear();
    assert_eq!(release_all(&released), 6);
}

#[test]
fn test_keys() {
    let mut map = PolyMap::new();

    map.insert(0u32, 0xaa_u8);
    map.insert(1u32, 0xbb_u8);
    map.insert(2u32, 0xcc_u8);
    map.insert(3u32, 0xdd_u8);

    let mut keys: HashSet<u32> = HashSet::new();
    let mut it = map.keys();
    while let Some(k) = it.next() {
        keys.insert(*k);
    }
    assert_eq!(keys, vec![0, 1, 2, 3].into_iter().collect());
}

#[test]
fn test_packing() {
    let mut map = PolyMap::new();

    map.insert("a", 0xAA_u8);
    map.insert("b", 0xBBBB_u16);
    map.insert("c", 0xCC_u8);

    assert_eq!(map.get(&"a"), Some(0xAA_u8));
    assert_eq!(map.get(&"b"), Some(0xBBBB_u16));
    assert_eq!(map.get(&"c"), Some(0xCC_u8));

    assert_eq!(map.data_size(), 4);

    let mut map = PolyMap::new();

    map.insert("a", 0xAAAA_u16);
    map.insert("b", 0xBBBBBBBB_u32);
    map.insert("c", 0xCC_u8);
    map.insert("d", 0xDD_u8);

    assert_eq!(map.get(&"a"), Some(0xAAAA_u16));
    assert_eq!(map.get(&"b"), Some(0xBBBBBBBB_u32));
    assert_eq!(map.get(&"c"), Some(0xCC_u8));
    assert_eq!(map.get(&"d"), Some(0xDD_u8));

    assert_eq!(map.data_size(), 8);
}

#[test]
fn test_replace() {
    let mut map = PolyMap::new();

    map.insert("a", 0xAAAAAAAA_u32);
    assert_eq!(map.insert("a", 0xBBBBBBBB_u32), Some(0xAAAAAAAA_u32));
    assert_eq!(map.get(&"a"), Some(0xBBBBBBBB_u32));

    map.insert("b", 0xCCCCCCCC_u32);
    assert_eq!(map.remove(&"b"), Some(0xCCCCCCCC_u32));
    assert_eq!(map.insert("c", 0xDDDDDDDDDDDDDDDD_u64), None);
}

#[test]
fn test_reuse() {
    let mut map = PolyMap::new();

    map.insert("a", 0xAAAAAAAA_u32);
    map.insert("b", 0xBBBBBBBB_u32);

    assert_eq!(map.get(&"b"), Some(0xBBBBBBBB_u32));
    assert_eq!(map.remove(&"a"), Some(0xAAAAAAAA_u32));

    map.insert("c", 0xCCCCCCCC_u32);

    assert_eq!(map.get(&"c"), Some(0xCCCCCCCC_u32));
    assert_eq!(map.data_size(), 8);
}

#[test]
fn test_insert() {
    let mut map = PolyMap::new();

    assert_eq!(map.insert("a", 0x12345678_u32), None);
    assert_eq!(map.insert("b", 0x12345678_u32), None);
    assert_eq!(map.get(&"a"), Some(0x12345678_u32));
    assert_eq!(map.get(&"b"), Some(0x12345678_u32));
    assert_eq!(map.get(&"c"), None::<u32>);
}

#[test]
fn test_zero_size() {
    let mut map = PolyMap::new();

    map.insert("a", ());
    map.insert("b", ());
    map.insert("c", ());

    assert_eq!(map.get(&"a"), Some(()));
    assert_eq!(map.get(&"b"), Some(()));
    assert_eq!(map.get(&"c"), Some(()));
    assert_eq!(map.data_size(), 3);
    assert_eq!(map.len(), 3);
}

#[test]
fn test_remove() {
    let mut map = PolyMap::new();

    map.insert("a", 0x87654321_u32);
    assert_eq!(map.remove(&"a"), Some(0x87654321_u32));
    assert_eq!(map.get::<u32>(&"a"), None);
}
