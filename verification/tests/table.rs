use symbol_table::hash_table::HashTable;

#[test]
fn empty_table_misses_everything() {
    let mut t: HashTable<u64, i32> = HashTable::new();
    assert_eq!(t.len(), 0);
    assert_eq!(t.get(&0), None);
    assert!(!t.contains_key(&0));
    assert_eq!(t.remove(&0), None);
    assert!(t.get_mut(&0).is_none());
    assert!(t.iter().is_empty());
}

#[test]
fn insert_then_get() {
    let mut t: HashTable<u64, i32> = HashTable::new();
    assert_eq!(t.insert(5, 50), None);
    assert_eq!(t.get(&5), Some(&50));
    assert!(t.contains_key(&5));
    assert_eq!(t.get(&6), None);
    assert!(!t.contains_key(&6));
    assert_eq!(t.len(), 1);
}

#[test]
fn insert_same_key_twice() {
    let mut t: HashTable<u64, i32> = HashTable::new();
    assert_eq!(t.insert(7, 1), None);
    let len_before: usize = t.len();
    assert_eq!(t.insert(7, 2), Some(1));
    assert_eq!(t.len(), len_before);
    assert_eq!(t.get(&7), Some(&2));
}

#[test]
fn resize_keeps_entries() {
    let mut t: HashTable<u64, i32> = HashTable::new();
    // 60 entries force a growth past the 3/4 load factor of the initial
    // 64-slot storage; everything must stay retrievable with its value.
    let mut k: u64 = 0;
    while k < 60 {
        assert_eq!(t.insert(k, (k as i32) * 10), None);
        k += 1;
    }
    assert_eq!(t.len(), 60);
    let mut k: u64 = 0;
    while k < 60 {
        assert_eq!(t.get(&k), Some(&((k as i32) * 10)));
        k += 1;
    }
}

#[test]
fn remove_keeps_colliding_chain() {
    let mut t: HashTable<u64, i32> = HashTable::new();
    // With the identity hash and 64 slots, 0, 64 and 128 all probe from
    // slot 0: removing the head of the chain must not cut off the others.
    assert_eq!(t.insert(0, 1), None);
    assert_eq!(t.insert(64, 2), None);
    assert_eq!(t.insert(128, 3), None);
    assert_eq!(t.remove(&0), Some(1));
    assert_eq!(t.get(&64), Some(&2));
    assert_eq!(t.get(&128), Some(&3));
    assert_eq!(t.len(), 2);
    assert_eq!(t.get(&0), None);
}

#[test]
fn remove_absent_is_noop() {
    let mut t: HashTable<u64, i32> = HashTable::new();
    assert_eq!(t.remove(&3), None);
    assert_eq!(t.insert(1, 10), None);
    assert_eq!(t.remove(&3), None);
    assert_eq!(t.len(), 1);
    assert_eq!(t.get(&1), Some(&10));
}

#[test]
fn reinsert_after_remove() {
    let mut t: HashTable<u64, i32> = HashTable::new();
    assert_eq!(t.insert(64, 2), None);
    assert_eq!(t.remove(&64), Some(2));
    assert_eq!(t.get(&64), None);
    assert_eq!(t.insert(64, 5), None);
    assert_eq!(t.get(&64), Some(&5));
    assert_eq!(t.len(), 1);
}

#[test]
fn get_mut_updates_value() {
    let mut t: HashTable<u64, i32> = HashTable::new();
    t.insert(9, 1);
    match t.get_mut(&9) {
        Some(v) => *v = 99,
        None => panic!("key must be present"),
    }
    assert_eq!(t.get(&9), Some(&99));
    assert!(t.get_mut(&10).is_none());
}

#[test]
fn iter_lists_all_pairs_once() {
    let mut t: HashTable<u64, i32> = HashTable::new();
    t.insert(1, 10);
    t.insert(2, 20);
    t.insert(3, 30);
    t.remove(&2);
    let pairs = t.iter();
    assert_eq!(pairs.len(), 2);
    let mut seen1 = false;
    let mut seen3 = false;
    for (k, v) in pairs {
        match *k {
            1 => {
                assert_eq!(*v, 10);
                seen1 = true;
            }
            3 => {
                assert_eq!(*v, 30);
                seen3 = true;
            }
            _ => panic!("unexpected key"),
        }
    }
    assert!(seen1 && seen3);
}

#[test]
fn string_keys_work() {
    let mut t: HashTable<String, i32> = HashTable::new();
    assert_eq!(t.insert("alpha".to_string(), 1), None);
    assert_eq!(t.insert("beta".to_string(), 2), None);
    assert_eq!(t.get(&"alpha".to_string()), Some(&1));
    assert_eq!(t.get(&"beta".to_string()), Some(&2));
    assert_eq!(t.get(&"gamma".to_string()), None);
    assert_eq!(t.insert("alpha".to_string(), 7), Some(1));
    assert_eq!(t.get(&"alpha".to_string()), Some(&7));
    assert_eq!(t.len(), 2);
}
