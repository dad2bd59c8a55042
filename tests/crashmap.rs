use std::hash::Hasher;

use rust_colors::crashmap::{CrashMap, CrashSet};

#[test]
fn test_map_contains_key() {
    let mut map = CrashMap::with_capacity(1024);
    map.insert(16, 32);

    assert_eq!(map.len(), 1);
    assert!(map.contains_key(16));
    assert!(!map.contains_key(17));

    map.insert(17, 213);

    assert!(map.contains_key(17));
}

#[test]
fn test_map_iter() {
    let mut map = CrashMap::with_capacity(1024);
    map.insert(16, -16);
    map.insert(17, -17);
    map.insert(18, -18);

    assert_eq!(map.len(), 3);

    let mut results = vec![];

    map.foreach_lockfree(|(&k, &v)| {
        results.push((k, v));
    });

    assert_eq!(map.len(), 3);

    assert_eq!(results.len(), 3);
    assert!(results.contains(&(16, -16)));
    assert!(results.contains(&(17, -17)));
    assert!(results.contains(&(18, -18)));
}

#[test]
fn test_set_contains() {
    let mut set = CrashSet::with_capacity(1024);
    set.insert(1);
    set.insert(7);
    set.insert(13);

    assert_eq!(set.len(), 3);

    assert!(set.contains(1));
    assert!(set.contains(7));
    assert!(set.contains(13));

    assert!(!set.contains(-1));
    assert!(!set.contains(0));
    assert!(!set.contains(17));
}

#[test]
fn map_insert_replace_remove() {
    let mut map = CrashMap::with_capacity(5);
    assert_eq!(map.get_capacity(), 8);
    assert!(map.is_empty());
    assert_eq!(map.insert(3, 30), None);
    assert_eq!(map.insert(3, 31), Some(30));
    assert_eq!(map.len(), 1);
    assert_eq!(map.get(&3, |v| *v + 1), Some(32));
    assert_eq!(map.get(&4, |v| *v + 1), None);
    assert_eq!(map.remove(4), None);
    assert_eq!(map.remove(3), Some(31));
    assert!(map.is_empty());
    assert!(!map.contains_key(3));
}

#[test]
fn map_iter_skips_emptied_bins() {
    let mut map = CrashMap::with_capacity(2);
    for k in 0..20 {
        map.insert(k, k * 10);
    }
    for k in 0..10 {
        map.remove(k);
    }
    let mut seen = vec![];
    map.foreach_lockfree(|(&k, &v)| seen.push((k, v)));
    seen.sort();
    let expected: Vec<(i64, i64)> = (10..20).map(|k| (k, k * 10)).collect();
    assert_eq!(seen, expected);
}

#[test]
fn set_insert_remove_iter() {
    let mut set = CrashSet::with_capacity(16);
    assert!(!set.insert(5));
    assert!(set.insert(5));
    assert!(!set.insert(-9));
    assert_eq!(set.len(), 2);
    let mut keys = vec![];
    set.foreach_lockfree(|k| keys.push(*k));
    keys.sort();
    assert_eq!(keys, vec![-9, 5]);
    assert!(set.remove(5));
    assert!(!set.remove(5));
    assert_eq!(set.len(), 1);
    assert!(!set.is_empty());
    assert_eq!(set.get_capacity(), 16);
}

#[test]
fn map_bins_follow_fnv_hash() {
    let bin = |k: i64| {
        let mut h = fnv::FnvHasher::default();
        h.write(&k.to_le_bytes());
        (h.finish() as usize) & 1023
    };
    let mut map = CrashMap::with_capacity(1024);
    for k in 0..12i64 {
        map.insert(k, k);
    }
    let mut seen = vec![];
    map.foreach_lockfree(|(&k, _)| seen.push(k));
    let mut expected: Vec<i64> = (0..12).collect();
    expected.sort_by_key(|&k| (bin(k), k));
    assert_eq!(seen, expected);
    assert_ne!(seen, (0..12).collect::<Vec<i64>>());
}

#[test]
fn capacity_is_least_power_of_two() {
    assert_eq!(CrashMap::<i32>::with_capacity(0).get_capacity(), 1);
    assert_eq!(CrashMap::<i32>::with_capacity(1).get_capacity(), 1);
    assert_eq!(CrashMap::<i32>::with_capacity(5).get_capacity(), 8);
    assert_eq!(CrashMap::<i32>::with_capacity(1024).get_capacity(), 1024);
    assert_eq!(CrashMap::<i32>::with_capacity(1025).get_capacity(), 2048);
    assert_eq!(CrashSet::with_capacity(3).get_capacity(), 4);
}
