use eliasfl_hash::db::Action;
use eliasfl_hash::db::Database;

#[test]
fn test_database_ops() {
    let mut db = Database::<u64, String>::new();
    assert_eq!(db.len(), 0);
    assert_eq!(db.get(10), None);
    assert_eq!(db.insert(10, "ten".to_owned()), None);
    assert_eq!(db.insert(10, "TEN".to_owned()), Some("ten".to_owned()));
    assert_eq!(db.get(10), Some(&"TEN".to_owned()));
    assert_eq!(db.len(), 1);
    assert_eq!(db.remove(10), Some("TEN".to_owned()));
    assert_eq!(db.remove(10), None);
    assert_eq!(db.len(), 0);
}

#[test]
fn test_database_from_records() {
    let records = vec![(1u64, "a".to_owned()), (2, "b".to_owned())];
    let db = Database::from_records(records);
    assert_eq!(db.len(), 2);
    assert_eq!(db.get(1), Some(&"a".to_owned()));
    assert_eq!(db.get(2), Some(&"b".to_owned()));

    let mut it = db.iter();
    let mut count = 0;
    while let Some((k, v)) = it.next() {
        assert_eq!(db.get(*k), Some(v));
        count += 1;
    }
    assert_eq!(count, 2);
}

#[test]
fn test_action_values() {
    let a = Action::Get;
    assert_eq!(a, Action::Get);
    assert_ne!(Action::Insert, Action::Remove);
    let b = a;
    assert_eq!(b.clone(), Action::Get);
}
