use polymap::layout::align;
use polymap::{Handle, PolyMap, Storable};

#[test]
fn align_rounds_up_to_multiple() {
    assert_eq!(align(0, 8), 0);
    assert_eq!(align(5, 4), 8);
    assert_eq!(align(8, 4), 8);
    assert_eq!(align(1, 2), 2);
    assert_eq!(align(7, 1), 7);
}

#[test]
fn type_check_follows_insert_type() {
    let mut map = PolyMap::new();
    map.insert(1u64, -7i32);
    assert!(map.contains_key_of::<i32>(&1));
    assert!(!map.contains_key_of::<u32>(&1));
    assert!(!map.contains_key_of::<u8>(&1));
    assert_eq!(map.get::<i32>(&1), Some(-7));
    assert_eq!(map.insert(1u64, 9i32), Some(-7));
    assert_eq!(map.remove::<i32>(&1), Some(9));
}

#[test]
fn integers_round_trip_through_buffer() {
    let mut map = PolyMap::new();
    map.insert("u8", 0xFE_u8);
    map.insert("u16", 0xBEEF_u16);
    map.insert("u32", 0xDEADBEEF_u32);
    map.insert("u64", 0x0123456789ABCDEF_u64);
    map.insert("i32", i32::MIN);
    assert_eq!(map.get(&"u8"), Some(0xFE_u8));
    assert_eq!(map.get(&"u16"), Some(0xBEEF_u16));
    assert_eq!(map.get(&"u32"), Some(0xDEADBEEF_u32));
    assert_eq!(map.get(&"u64"), Some(0x0123456789ABCDEF_u64));
    assert_eq!(map.get(&"i32"), Some(i32::MIN));
}

#[test]
fn encodings_are_little_endian() {
    assert_eq!(0x0102_u16.encode(), vec![0x02, 0x01]);
    assert_eq!(0x01020304_u32.encode(), vec![0x04, 0x03, 0x02, 0x01]);
    assert_eq!((-2i32).encode(), vec![0xFE, 0xFF, 0xFF, 0xFF]);
    assert_eq!(<u32 as Storable>::decode(&[0, 0x04, 0x03, 0x02, 0x01], 1), 0x01020304);
    assert_eq!(Handle(5).encode(), vec![5, 0, 0, 0, 0, 0, 0, 0]);
}

#[test]
fn length_tracks_inserts_and_removes() {
    let mut map = PolyMap::new();
    assert_eq!(map.len(), 0);
    map.insert(1u32, 1u8);
    map.insert(2u32, 2u16);
    map.insert(3u32, 3u32);
    assert_eq!(map.len(), 3);
    map.insert(2u32, 20u16);
    assert_eq!(map.len(), 3);
    assert_eq!(map.remove::<u16>(&2), Some(20));
    assert_eq!(map.len(), 2);
    assert_eq!(map.remove::<u16>(&2), None);
    assert_eq!(map.len(), 2);
    assert!(!map.contains_key(&2));
}

#[test]
fn neighbours_survive_mixed_inserts_and_removes() {
    let mut map = PolyMap::new();
    map.insert(0u32, 0x11_u8);
    map.insert(1u32, 0x2222_u16);
    map.insert(2u32, 0x33333333_u32);
    map.insert(3u32, 0x4444444444444444_u64);
    map.insert(4u32, 0x55_u8);
    assert_eq!(map.remove::<u16>(&1), Some(0x2222));
    map.insert(5u32, 0x66_u8);
    map.insert(6u32, 0x7777_u16);
    assert_eq!(map.get(&0u32), Some(0x11_u8));
    assert_eq!(map.get(&2u32), Some(0x33333333_u32));
    assert_eq!(map.get(&3u32), Some(0x4444444444444444_u64));
    assert_eq!(map.get(&4u32), Some(0x55_u8));
    assert_eq!(map.get(&5u32), Some(0x66_u8));
    assert_eq!(map.get(&6u32), Some(0x7777_u16));
    assert_eq!(map.get::<u16>(&1u32), None);
}

#[test]
fn gap_before_first_field_is_reused() {
    let mut map = PolyMap::new();
    map.insert("a", 1u32);
    map.insert("b", 2u32);
    assert_eq!(map.remove::<u32>(&"a"), Some(1));
    map.insert("c", 3u8);
    map.insert("d", 4u16);
    assert_eq!(map.data_size(), 8);
    assert_eq!(map.get(&"b"), Some(2u32));
    assert_eq!(map.get(&"c"), Some(3u8));
    assert_eq!(map.get(&"d"), Some(4u16));
}

#[test]
fn removed_handle_is_not_released() {
    let mut map = PolyMap::new();
    map.insert("x", Handle(10));
    map.insert("y", Handle(20));
    map.insert("z", Handle(30));
    map.insert("n", 99u32);
    assert_eq!(map.remove::<Handle>(&"y"), Some(Handle(20)));
    let released = map.clear();
    assert_eq!(released.len(), 2);
    let mut total = 0;
    for r in &released {
        assert_eq!(r.tag, Handle::type_tag());
        total += Handle::decode(&r.bytes, 0).0;
    }
    assert_eq!(total, 40);
}

#[test]
fn clear_releases_from_highest_offset_down() {
    let mut map = PolyMap::new();
    map.insert(1u8, Handle(1));
    map.insert(2u8, Handle(2));
    map.insert(3u8, Handle(3));
    let released = map.clear();
    let order: Vec<u64> = released.iter().map(|r| Handle::decode(&r.bytes, 0).0).collect();
    assert_eq!(order, vec![3, 2, 1]);
}

#[test]
fn clear_empties_map_and_keeps_buffer() {
    let mut map = PolyMap::new();
    map.insert("a", 1u32);
    map.insert("b", 2u64);
    let size = map.data_size();
    let released = map.clear();
    assert!(released.is_empty());
    assert_eq!(map.len(), 0);
    assert!(!map.contains_key(&"a"));
    assert_eq!(map.get::<u32>(&"a"), None);
    assert_eq!(map.data_size(), size);
    map.insert("a", 5u32);
    assert_eq!(map.get(&"a"), Some(5u32));
    assert_eq!(map.data_size(), size);
}

#[test]
fn string_keys() {
    let mut map = PolyMap::new();
    map.insert("a".to_string(), 1u32);
    map.insert("b".to_string(), 2u32);
    assert_eq!(map.get::<u32>(&"a".to_string()), Some(1));
    assert_eq!(map.get::<u32>(&"b".to_string()), Some(2));
}

#[test]
fn keys_run_out() {
    let mut map = PolyMap::new();
    map.insert(7u16, ());
    let mut it = map.keys();
    assert_eq!(it.next(), Some(&7u16));
    assert_eq!(it.next(), None);
    assert_eq!(it.next(), None);
}

#[test]
fn capacity_operations_keep_values() {
    let mut map: PolyMap<u32> = PolyMap::with_capacity(4, 64);
    assert!(map.data_capacity() >= 64);
    assert_eq!(map.data_size(), 0);
    map.insert(1, 0xABCD_u16);
    map.reserve_data(100);
    assert!(map.data_capacity() >= 102);
    map.reserve_data_exact(200);
    assert!(map.data_capacity() >= 202);
    map.reserve_fields(10);
    map.reserve_fields_exact(20);
    map.shrink_data_to_fit();
    assert!(map.data_capacity() >= map.data_size());
    assert_eq!(map.get(&1), Some(0xABCD_u16));
    assert_eq!(map.data_size(), 2);
}

#[test]
fn mismatched_type_leaves_map_unchanged() {
    let mut map = PolyMap::new();
    map.insert("a", 0x11_u8);
    map.insert("b", 0x2222_u16);
    assert_eq!(map.get::<u64>(&"a"), None);
    assert_eq!(map.insert("a", 0xFFFFFFFF_u32), None);
    assert_eq!(map.remove::<i32>(&"a"), None);
    assert_eq!(map.len(), 2);
    assert_eq!(map.get(&"a"), Some(0x11_u8));
    assert_eq!(map.get(&"b"), Some(0x2222_u16));
    assert_eq!(map.data_size(), 4);
}
