use algorithms::hash_set2::HashSet;

#[test]
fn test_add_remove() {
    let mut hash_set: HashSet<i64> = HashSet::new();
    let result = hash_set.add(4);
    assert_eq!(result, true);

    let result = hash_set.add(4);
    assert_eq!(result, false);

    hash_set.remove(&4);
    let result = hash_set.add(4);
    assert_eq!(result, true);
}

#[test]
fn test_is_empty() {
    let mut hash_set: HashSet<i64> = HashSet::new();
    assert!(hash_set.is_empty());

    hash_set.add(21);
    assert!(!hash_set.is_empty());

    hash_set.remove(&21);
    assert!(hash_set.is_empty());
}

#[test]
fn test_contains() {
    let mut hash_set: HashSet<String> = HashSet::new();
    assert_eq!(hash_set.contains(&"abc".to_string()), false);

    hash_set.add("abc".to_string());
    assert!(hash_set.contains(&"abc".to_string()));

    assert!(!hash_set.contains(&"123".to_string()));

    hash_set.remove(&"abc".to_string());
    assert!(!hash_set.contains(&"abc".to_string()));
}

#[test]
fn test_clear() {
    let mut hash_set: HashSet<i64> = HashSet::new();
    hash_set.add(123);

    hash_set.clear();

    assert!(hash_set.is_empty());
    assert!(!hash_set.contains(&123));
    assert_eq!(hash_set.size(), 0);
}

#[test]
fn test_benchmarks_tolerable() {
    let mut hash_set: HashSet<i64> = HashSet::new();

    for i in 0..1000000 {
        hash_set.add(i);
    }

    for i in 0..1000000 {
        if i % 2 == 0 {
            hash_set.remove(&i);
        }
    }
}

#[test]
fn chained_size_tracks_changes() {
    let mut hash_set: HashSet<u64> = HashSet::new();
    for i in 0..50 {
        assert!(hash_set.add(i * 3));
    }
    assert_eq!(hash_set.size(), 50);
    for i in 0..25 {
        assert!(hash_set.remove(&(i * 6)));
    }
    assert_eq!(hash_set.size(), 25);
    for i in 0..50 {
        assert_eq!(hash_set.contains(&(i * 3)), i % 2 == 1);
    }
}
