use algorithms::hash_set::HashSet;

#[test]
fn data_test_add_remove() {
    let mut hash_set: HashSet<i64> = HashSet::new();
    let result = hash_set.add(4);
    assert_eq!(result, true);

    let result = hash_set.add(4);
    assert_eq!(result, false);

    hash_set.remove(&4);
    let result = hash_set.add(4);
    assert_eq!(result, true);
}

#[test]
fn data_test_is_empty() {
    let mut hash_set: HashSet<i64> = HashSet::new();
    assert!(hash_set.is_empty());

    hash_set.add(21);
    assert!(!hash_set.is_empty());

    hash_set.remove(&21);
    assert!(hash_set.is_empty());
}

#[test]
fn data_test_contains() {
    let mut hash_set: HashSet<String> = HashSet::new();
    assert_eq!(hash_set.contains(&"abc".to_string()), false);

    hash_set.add("abc".to_string());
    assert!(hash_set.contains(&"abc".to_string()));

    assert!(!hash_set.contains(&"123".to_string()));

    hash_set.remove(&"abc".to_string());
    assert!(!hash_set.contains(&"abc".to_string()));
}

#[test]
fn data_test_clear() {
    let mut hash_set: HashSet<i64> = HashSet::new();
    hash_set.add(123);

    hash_set.clear();

    assert!(hash_set.is_empty());
    assert!(!hash_set.contains(&123));
    assert_eq!(hash_set.size(), 0);
}

#[test]
fn data_test_benchmarks_tolerable() {
    let mut hash_set: HashSet<i64> = HashSet::new();

    for i in 0..1000000 {
        hash_set.add(i);
    }

    for i in 0..1000000 {
        if i % 2 == 0 {
            hash_set.remove(&i);
        }
    }
}

#[test]
fn added_value_found_again() {
    let mut hash_set: HashSet<i64> = HashSet::new();
    for i in [0i64, 7, -3, 1 << 40, 12345] {
        assert!(hash_set.add(i));
        assert!(hash_set.contains(&i));
    }
}

#[test]
fn add_present_value_keeps_size() {
    let mut hash_set: HashSet<i64> = HashSet::new();
    assert!(hash_set.add(10));
    assert!(hash_set.add(11));
    assert_eq!(hash_set.size(), 2);
    assert!(!hash_set.add(10));
    assert_eq!(hash_set.size(), 2);
}

#[test]
fn remove_absent_value_keeps_size() {
    let mut hash_set: HashSet<i64> = HashSet::new();
    assert!(hash_set.add(10));
    assert!(!hash_set.remove(&11));
    assert_eq!(hash_set.size(), 1);
    assert!(hash_set.remove(&10));
    assert_eq!(hash_set.size(), 0);
    assert!(!hash_set.contains(&10));
}

#[test]
fn readd_after_remove() {
    let mut hash_set: HashSet<i64> = HashSet::new();
    assert!(hash_set.add(42));
    assert!(hash_set.remove(&42));
    assert!(hash_set.add(42));
    assert!(hash_set.contains(&42));
}

#[test]
fn size_tracks_inserts_minus_removes() {
    let mut hash_set: HashSet<i64> = HashSet::new();
    let mut inserted: usize = 0;
    let mut removed: usize = 0;
    for i in 0..100 {
        if hash_set.add(i % 60) {
            inserted += 1;
        }
    }
    for i in 0..30 {
        if hash_set.remove(&(i * 3)) {
            removed += 1;
        }
    }
    assert_eq!(hash_set.size(), inserted - removed);
}

#[test]
fn resizing_is_transparent() {
    let mut hash_set: HashSet<i64> = HashSet::new();
    let n: i64 = 5000;
    for i in 0..n {
        assert!(hash_set.add(i * 17));
    }
    assert_eq!(hash_set.size(), n as usize);
    for i in 0..n {
        assert!(hash_set.contains(&(i * 17)));
    }
}

#[test]
fn scenario_add_remove_add_size_one() {
    let mut hash_set: HashSet<i64> = HashSet::new();
    assert_eq!(hash_set.add(4), true);
    assert_eq!(hash_set.add(4), false);
    assert_eq!(hash_set.remove(&4), true);
    assert_eq!(hash_set.add(4), true);
    assert_eq!(hash_set.size(), 1);
}

#[test]
fn scenario_clear_leaves_nothing() {
    let mut hash_set: HashSet<i64> = HashSet::new();
    hash_set.add(123);
    hash_set.clear();
    assert_eq!(hash_set.is_empty(), true);
    assert_eq!(hash_set.contains(&123), false);
    assert_eq!(hash_set.size(), 0);
}

#[test]
fn scenario_million_inserts_half_removed() {
    let mut hash_set: HashSet<i64> = HashSet::new();
    for i in 0..1000000 {
        hash_set.add(i);
    }
    for i in 0..1000000 {
        if i % 2 == 0 {
            hash_set.remove(&i);
        }
    }
    assert_eq!(hash_set.size(), 500000);
    let mut i: i64 = 1;
    while i < 1000000 {
        assert!(hash_set.contains(&i));
        i += 2;
    }
}

#[test]
fn string_elements_roundtrip() {
    let mut hash_set: HashSet<String> = HashSet::new();
    assert!(hash_set.add("one".to_string()));
    assert!(hash_set.add("two".to_string()));
    assert!(!hash_set.add("one".to_string()));
    assert!(hash_set.contains(&"two".to_string()));
    assert!(hash_set.remove(&"one".to_string()));
    assert!(!hash_set.contains(&"one".to_string()));
    assert_eq!(hash_set.size(), 1);
}

#[test]
fn index_of_follows_the_probe_sequence() {
    let mut hash_set: HashSet<u64> = HashSet::new();
    // The first insertion grows the table to two buckets; a value hashing
    // to zero probes (0 + 1*1) % 2 == 1 first.
    assert!(hash_set.add(0));
    assert_eq!(hash_set.index_of(&0), 1);
    // A missing value stops at the first empty bucket on its probe path:
    // for a hash of two, the occupied bucket one comes first, then bucket
    // zero, which is empty.
    assert_eq!(hash_set.index_of(&2), 0);
}
