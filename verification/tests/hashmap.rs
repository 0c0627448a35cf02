use eliasfl_hash::hash::HashMap;
use eliasfl_hash::hash::SdbmHasher;

#[test]
fn test_hashmap() {
    let mut map = HashMap::<u64, String>::new();
    map.insert(123, "text123string".to_owned());
    map.insert(123, "new string".to_owned());
    map.insert(5324, "lorem ipsum".to_owned());
    assert_eq!(map.get(&123), Some(&"new string".to_owned()));
    assert_eq!(map.get(&1234), None);
}

#[test]
fn test_hash_string() {
    let hashes = [
        "",
        "a",
        "aa",
        "aaaaaaaa",
        "lorem ipsum",
        "lorem ipsun",
        "lorem ppsum",
        "test123",
    ]
    .map(|string| {
        let mut hasher = SdbmHasher::new(0);
        hasher.write(string.as_bytes());
        hasher.finish()
    });
    assert_eq!(
        hashes,
        [
            0,
            97,
            6363200,
            3213702187780907264,
            13432600051413073019,
            13432600051413073020,
            13929838331737494914,
            15071901698212411520
        ]
    );
}

#[test]
fn test_predefined_hash() {
    let string = "jdfgsdhfsdfsd 6445dsfsd7fg/*/+bfjsdgf%$^";
    let mut hasher = SdbmHasher::new(0);
    hasher.hash_string(string);
    let hash = hasher.finish();
    assert_eq!(hash, 11139173862158291091);
}

#[test]
fn test_hash_string_surrogate_pair() {
    // "a🙂b" encodes to the UTF-16 units [97, 55357, 56898, 98]
    let mut hasher = SdbmHasher::new(0);
    hasher.hash_string("a\u{1F642}b");
    assert_eq!(hasher.finish(), 27620105662518460);
}

#[test]
fn test_hash_determinism() {
    let mut first = SdbmHasher::new(0);
    first.hash_string("lorem ipsum");
    let mut second = SdbmHasher::new(0);
    second.hash_string("lorem ipsum");
    assert_eq!(first.finish(), second.finish());

    let mut third = SdbmHasher::new(0);
    third.hash_string("lorem ipsun");
    assert_ne!(first.finish(), third.finish());
}

#[test]
fn test_hash_units() {
    let mut hasher = SdbmHasher::new(0);
    hasher.write_u8(97);
    assert_eq!(hasher.finish(), 97);
    let mut hasher = SdbmHasher::new(0);
    hasher.write_u16(97);
    assert_eq!(hasher.finish(), 97);
    let mut hasher = SdbmHasher::new(0);
    hasher.write_u32(97);
    assert_eq!(hasher.finish(), 97);
    let mut hasher = SdbmHasher::new(0);
    hasher.write_u64(12345678901234567890);
    assert_eq!(hasher.finish(), 12345678901234567890);
    let mut hasher = SdbmHasher::new(0);
    hasher.write_usize(4096);
    assert_eq!(hasher.finish(), 4096);
}

#[test]
fn test_insert_overwrites() {
    let mut map = HashMap::<u64, String>::new();
    assert_eq!(map.insert(1, "a".to_owned()), None);
    assert_eq!(map.insert(2, "b".to_owned()), None);
    assert_eq!(map.insert(1, "c".to_owned()), Some("a".to_owned()));
    assert_eq!(map.get(&1), Some(&"c".to_owned()));
    assert_eq!(map.get(&2), Some(&"b".to_owned()));
    assert_eq!(map.len(), 2);
}

#[test]
fn test_empty_table() {
    let mut map = HashMap::<u64, String>::new();
    assert_eq!(map.get(&42), None);
    assert_eq!(map.remove(&42), None);
    assert_eq!(map.len(), 0);
    assert!(map.is_empty());
    assert_eq!(map.bucket_count(), 0);
}

#[test]
fn test_remove() {
    let mut map = HashMap::<u64, String>::new();
    map.insert(7, "seven".to_owned());
    map.insert(8, "eight".to_owned());
    assert_eq!(map.remove(&7), Some("seven".to_owned()));
    assert_eq!(map.get(&7), None);
    assert_eq!(map.len(), 1);
    assert_eq!(map.remove(&7), None);
    assert_eq!(map.len(), 1);
    assert_eq!(map.get(&8), Some(&"eight".to_owned()));
}

#[test]
fn test_resize_keeps_mappings() {
    let mut map = HashMap::<u64, String>::new();
    for key in 0u64..100 {
        map.insert(key, format!("value{}", key));
    }
    assert!(map.bucket_count() > 1);
    assert_eq!(map.len(), 100);
    for key in 0u64..100 {
        assert_eq!(map.get(&key), Some(&format!("value{}", key)));
    }
}

#[test]
fn test_iteration_matches_gets() {
    let mut map = HashMap::<u64, String>::new();
    for key in 0u64..25 {
        map.insert(key, format!("v{}", key));
    }
    let mut seen: Vec<u64> = Vec::new();
    let mut it = map.iter();
    while let Some((k, v)) = it.next() {
        assert_eq!(map.get(k), Some(v));
        assert!(!seen.contains(k));
        seen.push(*k);
    }
    assert_eq!(seen.len(), map.len());

    let expected_len = map.len();
    let pairs = map.into_pairs();
    assert_eq!(pairs.len(), expected_len);
    for (k, v) in &pairs {
        assert_eq!(*v, format!("v{}", k));
    }
}

#[test]
fn test_from_pairs_overwrites() {
    let pairs = vec![
        (1u64, "a".to_owned()),
        (2, "b".to_owned()),
        (1, "c".to_owned()),
    ];
    let map = HashMap::from_pairs(pairs);
    assert_eq!(map.len(), 2);
    assert_eq!(map.get(&1), Some(&"c".to_owned()));
    assert_eq!(map.get(&2), Some(&"b".to_owned()));
}

#[test]
fn test_u32_keys() {
    let mut map = HashMap::<u32, u64>::new();
    map.insert(5, 50);
    map.insert(6, 60);
    assert_eq!(map.get(&5), Some(&50));
    assert_eq!(map.remove(&6), Some(60));
    assert_eq!(map.len(), 1);
}

#[test]
fn test_into_iter_drains() {
    let mut map = HashMap::<u64, String>::new();
    map.insert(1, "one".to_owned());
    map.insert(2, "two".to_owned());
    let mut it = map.into_iter();
    let mut n = 0;
    while let Some((k, v)) = it.next() {
        assert!((k == 1 && v == "one") || (k == 2 && v == "two"));
        n += 1;
    }
    assert_eq!(n, 2);
}
