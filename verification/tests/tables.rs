use striped_maps::hashmap::StripedHashTable;
use striped_maps::hashmaps::striped::StripedHashTable as GrowingTable;
use striped_maps::striped_hash_table::HashTable;
use striped_maps::collections::striped::StripedHashMapTable;

#[test]
fn fixed_table_reads_what_was_written() {
    let mut t = StripedHashTable::with_capacity(4);
    assert_eq!(t.get(5), Err(0));
    assert_eq!(t.insert_or_update(5, 10), Ok(0));
    assert_eq!(t.get(5), Ok(10));
    assert_eq!(t.insert_or_update(5, 11), Ok(0));
    assert_eq!(t.get(5), Ok(11));
}

#[test]
fn fixed_table_keys_sharing_a_bucket_stay_apart() {
    let mut t = StripedHashTable::with_capacity(4);
    t.insert_or_update(1, 100).unwrap();
    t.insert_or_update(5, 500).unwrap();
    t.insert_or_update(9, 900).unwrap();
    assert_eq!(t.get(1), Ok(100));
    assert_eq!(t.get(5), Ok(500));
    assert_eq!(t.get(9), Ok(900));
    assert_eq!(t.get(13), Err(0));
}

#[test]
fn fixed_table_remove_then_reinsert() {
    let mut t = StripedHashTable::with_capacity(3);
    assert_eq!(t.remove(7), Err(0));
    t.insert_or_update(7, 70).unwrap();
    assert_eq!(t.remove(7), Ok(0));
    assert_eq!(t.get(7), Err(0));
    assert_eq!(t.remove(7), Err(0));
    t.insert_or_update(7, 71).unwrap();
    assert_eq!(t.get(7), Ok(71));
}

#[test]
fn fixed_table_with_one_bucket_holds_many_keys() {
    let mut t = StripedHashTable::with_capacity(1);
    for k in 0..50usize {
        t.insert_or_update(k, k * 2).unwrap();
    }
    for k in 0..50usize {
        assert_eq!(t.get(k), Ok(k * 2));
    }
}

#[test]
fn growing_table_doubles_when_a_bucket_fills() {
    let mut t = GrowingTable::with_capacity(2);
    assert_eq!(t.bucket_count(), 2);
    t.insert_or_update(0, 1).unwrap();
    t.insert_or_update(2, 3).unwrap();
    assert_eq!(t.bucket_count(), 2);
    assert!(t.insert_would_end(4));
    t.insert_or_update(4, 5).unwrap();
    assert_eq!(t.bucket_count(), 4);
    assert_eq!(t.get(0), Ok(1));
    assert_eq!(t.get(2), Ok(3));
    assert_eq!(t.get(4), Ok(5));
    assert_eq!(t.get(6), Err(0));
}

#[test]
fn growing_table_keeps_removed_slots_when_growing() {
    let mut t = GrowingTable::with_capacity(2);
    t.insert_or_update(0, 1).unwrap();
    t.insert_or_update(2, 3).unwrap();
    assert_eq!(t.remove(0), Ok(0));
    assert_eq!(t.bucket_count(), 2);
    assert_eq!(t.remove(0), Err(0));
    assert_eq!(t.bucket_count(), 2);
    t.insert_or_update(4, 5).unwrap();
    assert_eq!(t.bucket_count(), 4);
    assert_eq!(t.get(0), Err(0));
    assert_eq!(t.get(2), Ok(3));
    assert_eq!(t.get(4), Ok(5));
}

#[test]
fn growing_table_insert_that_would_loop_is_detected() {
    let mut t = GrowingTable::with_capacity(2);
    t.insert_or_update(1, 1).unwrap();
    t.insert_or_update(3, 3).unwrap();
    assert!(!t.insert_would_end(5));
    assert!(t.insert_would_end(0));
}

#[test]
fn growing_table_many_keys() {
    let mut t = GrowingTable::with_capacity(1);
    for k in 0..64usize {
        if t.insert_would_end(k) {
            t.insert_or_update(k, k + 1).unwrap();
        }
    }
    for k in 0..64usize {
        if let Ok(v) = t.get(k) {
            assert_eq!(v, k + 1);
        }
    }
    assert_eq!(t.get(0), Ok(1));
}

#[test]
fn hash_table_new_has_stripes_and_no_bucket() {
    let _t = HashTable::new(8);
    let _empty = HashTable::new(0);
}

#[test]
fn collection_insert_update_remove() {
    let mut c = StripedHashMapTable::with_capacity(4);
    assert!(!c.get(&9));
    assert!(!c.update(&9));
    assert!(c.insert(&9));
    assert!(c.insert(&9));
    assert!(c.get(&9));
    assert!(c.update(&9));
    assert!(c.remove(&9));
    assert!(!c.remove(&9));
    assert!(!c.get(&9));
}

#[test]
fn collection_value_of() {
    let mut c = StripedHashMapTable::with_capacity(2);
    assert_eq!(c.value_of(&3), None);
    c.insert(&3);
    c.update(&3);
    assert_eq!(c.value_of(&3), Some(1));
}
