use probe_hash_map::{InsertionError, ProbeHashMap, ProbeHashMapEntry};

#[test]
fn insert_works() {
    let mut hash_map: ProbeHashMap<String, i32, 200> = ProbeHashMap::new();

    hash_map.insert(String::from("abc"), 5).unwrap();

    assert!(matches!(hash_map.get("abc"), Some(5)));
}

#[test]
fn update_works() {
    let mut hash_map: ProbeHashMap<String, i32, 200> = ProbeHashMap::new();

    hash_map.insert(String::from("abc"), 5).unwrap();
    hash_map.insert(String::from("abc"), 10).unwrap();

    assert!(matches!(hash_map.get("abc"), Some(10)));
}

#[test]
fn remove_works() {
    let mut hash_map: ProbeHashMap<String, i32, 200> = ProbeHashMap::new();

    hash_map.insert(String::from("abc"), 5).unwrap();
    hash_map.remove("abc");

    assert!(matches!(hash_map.get("abc"), None));
}

#[test]
fn get_first_works() {
    let mut hash_map: ProbeHashMap<String, i32, 200> = ProbeHashMap::new();

    hash_map.insert(String::from("abc"), 5).unwrap();
    assert!(hash_map.get_first().is_some());
    assert!(matches!(hash_map.get_first().unwrap().key.as_str(), "abc"));
    assert!(matches!(hash_map.get_first().unwrap().value, 5));

    // A new entry leaves the oldest one in place.
    hash_map.insert(String::from("bcd"), 10).unwrap();
    assert!(hash_map.get_first().is_some());
    assert!(matches!(hash_map.get_first().unwrap().key.as_str(), "abc"));
    assert!(matches!(hash_map.get_first().unwrap().value, 5));

    // Removing the oldest entry makes the next one the oldest.
    hash_map.remove("abc");
    assert!(hash_map.get_first().is_some());
    assert!(matches!(hash_map.get_first().unwrap().key.as_str(), "bcd"));
    assert!(matches!(hash_map.get_first().unwrap().value, 10));

    // Updating bcd makes it the newest, so cdf becomes the oldest.
    hash_map.insert(String::from("cdf"), 15).unwrap();
    hash_map.insert(String::from("bcd"), 20).unwrap();
    assert!(hash_map.get_first().is_some());
    assert!(matches!(hash_map.get_first().unwrap().key.as_str(), "cdf"));
    assert!(matches!(hash_map.get_first().unwrap().value, 15));
}

#[test]
fn get_last_works() {
    let mut hash_map: ProbeHashMap<String, i32, 200> = ProbeHashMap::new();

    hash_map.insert(String::from("abc"), 5).unwrap();
    assert!(hash_map.get_last().is_some());
    assert!(matches!(hash_map.get_last().unwrap().key.as_str(), "abc"));
    assert!(matches!(hash_map.get_last().unwrap().value, 5));

    hash_map.insert(String::from("bcd"), 15).unwrap();
    assert!(hash_map.get_last().is_some());
    assert!(matches!(hash_map.get_last().unwrap().key.as_str(), "bcd"));
    assert!(matches!(hash_map.get_last().unwrap().value, 15));

    // Updating abc makes it the newest again.
    hash_map.insert(String::from("abc"), 10).unwrap();
    assert!(hash_map.get_last().is_some());
    assert!(matches!(hash_map.get_last().unwrap().key.as_str(), "abc"));
    assert!(matches!(hash_map.get_last().unwrap().value, 10));

    // Removing the newest entry makes bcd the newest.
    hash_map.remove("abc");
    assert!(hash_map.get_last().is_some());
    assert!(matches!(hash_map.get_last().unwrap().key.as_str(), "bcd"));
    assert!(matches!(hash_map.get_last().unwrap().value, 15));
}

#[test]
fn empty_map_has_no_entries() {
    let hash_map: ProbeHashMap<String, i32, 8> = ProbeHashMap::new();
    assert!(hash_map.get("abc").is_none());
    assert!(hash_map.get_first().is_none());
    assert!(hash_map.get_last().is_none());
}

#[test]
fn update_keeps_a_single_entry() {
    let mut hash_map: ProbeHashMap<String, i32, 200> = ProbeHashMap::new();
    hash_map.insert(String::from("abc"), 5).unwrap();
    hash_map.insert(String::from("abc"), 10).unwrap();
    assert_eq!(hash_map.get("abc"), Some(&10));
    // One entry only: it is both the oldest and the newest.
    assert_eq!(hash_map.get_first().unwrap().key, "abc");
    assert_eq!(hash_map.get_last().unwrap().key, "abc");
    hash_map.remove("abc");
    assert!(hash_map.get("abc").is_none());
    assert!(hash_map.get_first().is_none());
    assert!(hash_map.get_last().is_none());
}

#[test]
fn update_of_single_entry_keeps_head() {
    let mut hash_map: ProbeHashMap<String, i32, 4> = ProbeHashMap::new();
    hash_map.insert(String::from("x"), 1).unwrap();
    hash_map.insert(String::from("x"), 2).unwrap();
    let first = hash_map.get_first().unwrap();
    assert_eq!((first.key.as_str(), first.value), ("x", 2));
    let last = hash_map.get_last().unwrap();
    assert_eq!((last.key.as_str(), last.value), ("x", 2));
}

#[test]
fn round_trip_keeps_latest_values() {
    let mut hash_map: ProbeHashMap<String, u32, 16> = ProbeHashMap::new();
    for (i, word) in ["a", "b", "c", "d", "e"].iter().enumerate() {
        hash_map.insert(String::from(*word), i as u32).unwrap();
    }
    hash_map.insert(String::from("c"), 42).unwrap();
    hash_map.remove("d");
    assert_eq!(hash_map.get("a"), Some(&0));
    assert_eq!(hash_map.get("b"), Some(&1));
    assert_eq!(hash_map.get("c"), Some(&42));
    assert_eq!(hash_map.get("d"), None);
    assert_eq!(hash_map.get("e"), Some(&4));
    assert_eq!(hash_map.get("f"), None);
}

#[test]
fn order_follows_most_recent_touch() {
    let mut hash_map: ProbeHashMap<String, i32, 16> = ProbeHashMap::new();
    hash_map.insert(String::from("a"), 1).unwrap();
    hash_map.insert(String::from("b"), 2).unwrap();
    hash_map.insert(String::from("c"), 3).unwrap();
    hash_map.insert(String::from("a"), 4).unwrap();
    // Order is now b, c, a.
    assert_eq!(hash_map.get_first().unwrap().key, "b");
    assert_eq!(hash_map.get_last().unwrap().key, "a");
    hash_map.remove("b");
    // Order is now c, a.
    assert_eq!(hash_map.get_first().unwrap().key, "c");
    assert_eq!(hash_map.get_first().unwrap().value, 3);
    hash_map.remove("a");
    // Only c is left.
    assert_eq!(hash_map.get_first().unwrap().key, "c");
    assert_eq!(hash_map.get_last().unwrap().key, "c");
}

#[test]
fn removal_keeps_colliding_key_reachable() {
    // With two slots the keys' probe paths overlap whatever the hash.
    let mut hash_map: ProbeHashMap<String, i32, 2> = ProbeHashMap::new();
    hash_map.insert(String::from("first"), 1).unwrap();
    hash_map.insert(String::from("second"), 2).unwrap();
    hash_map.remove("first");
    assert_eq!(hash_map.get("first"), None);
    assert_eq!(hash_map.get("second"), Some(&2));
    hash_map.remove("second");
    assert_eq!(hash_map.get("second"), None);
    assert!(hash_map.get_first().is_none());
}

#[test]
fn single_slot_map() {
    let mut hash_map: ProbeHashMap<String, i32, 1> = ProbeHashMap::new();
    assert!(hash_map.insert(String::from("a"), 1).is_ok());
    assert_eq!(hash_map.insert(String::from("b"), 2), Err(InsertionError::ContainerFull));
    assert!(hash_map.insert(String::from("a"), 3).is_ok());
    assert_eq!(hash_map.get("a"), Some(&3));
    assert_eq!(hash_map.get("b"), None);
}

#[test]
fn exhaustion_after_capacity_distinct_keys() {
    let mut hash_map: ProbeHashMap<String, usize, 4> = ProbeHashMap::new();
    for i in 0..4 {
        assert!(hash_map.insert(format!("key{}", i), i).is_ok());
    }
    assert_eq!(hash_map.insert(String::from("key4"), 4), Err(InsertionError::ContainerFull));
    // The failed insert changed nothing; present keys can still be updated.
    assert_eq!(hash_map.get("key4"), None);
    assert_eq!(hash_map.get_last().unwrap().key, "key3");
    assert!(hash_map.insert(String::from("key0"), 9).is_ok());
    assert_eq!(hash_map.get("key0"), Some(&9));
    for i in 1..4 {
        assert_eq!(hash_map.get(&format!("key{}", i)), Some(&i));
    }
}

#[test]
fn table_without_unused_slot_refuses_new_keys() {
    let mut hash_map: ProbeHashMap<String, i32, 2> = ProbeHashMap::new();
    hash_map.insert(String::from("a"), 1).unwrap();
    hash_map.insert(String::from("b"), 2).unwrap();
    hash_map.remove("a");
    // Every slot is live or a tombstone: the probe finds no unused slot.
    assert_eq!(hash_map.insert(String::from("c"), 3), Err(InsertionError::ContainerFull));
    assert_eq!(hash_map.get("b"), Some(&2));
}

#[test]
fn tombstone_is_reused() {
    let mut hash_map: ProbeHashMap<String, i32, 3> = ProbeHashMap::new();
    hash_map.insert(String::from("a"), 1).unwrap();
    hash_map.insert(String::from("b"), 2).unwrap();
    hash_map.remove("a");
    assert!(hash_map.insert(String::from("c"), 3).is_ok());
    assert_eq!(hash_map.get("b"), Some(&2));
    assert_eq!(hash_map.get("c"), Some(&3));
    assert_eq!(hash_map.get_first().unwrap().key, "b");
    assert_eq!(hash_map.get_last().unwrap().key, "c");
}

#[test]
fn non_ascii_keys() {
    let mut hash_map: ProbeHashMap<String, i32, 8> = ProbeHashMap::new();
    hash_map.insert(String::from("stra\u{df}e"), 1).unwrap();
    hash_map.insert(String::from("strasse"), 2).unwrap();
    assert_eq!(hash_map.get("stra\u{df}e"), Some(&1));
    assert_eq!(hash_map.get("strasse"), Some(&2));
    assert_eq!(hash_map.get("stra"), None);
}

#[test]
fn container_full_message() {
    assert_eq!(InsertionError::ContainerFull.message(), "The container is full.");
}

#[test]
fn entry_new_builds() {
    let _slot: ProbeHashMapEntry<String, i32> = ProbeHashMapEntry::new();
}

#[test]
fn byte_string_keys() {
    let mut hash_map: ProbeHashMap<Vec<u8>, i32, 8> = ProbeHashMap::new();
    hash_map.insert(vec![1u8, 2, 3], 7).unwrap();
    hash_map.insert(vec![], 8).unwrap();
    assert_eq!(hash_map.get(&[1u8, 2, 3][..]), Some(&7));
    assert_eq!(hash_map.get(&vec![1u8, 2, 3]), Some(&7));
    assert_eq!(hash_map.get(&[][..]), Some(&8));
    assert_eq!(hash_map.get(&[1u8, 2][..]), None);
    assert_eq!(hash_map.get_first().unwrap().key, vec![1u8, 2, 3]);
}

#[test]
fn string_key_found_by_owned_and_borrowed_lookup() {
    let mut hash_map: ProbeHashMap<String, i32, 8> = ProbeHashMap::new();
    hash_map.insert(String::from("abc"), 1).unwrap();
    assert_eq!(hash_map.get(&String::from("abc")), Some(&1));
    assert_eq!(hash_map.get("abc"), Some(&1));
    hash_map.remove(&String::from("abc"));
    assert_eq!(hash_map.get("abc"), None);
}
