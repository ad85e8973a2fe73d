use key_val_map::KeyValMap;
use key_val_map::KeyValMapError;

#[test]
fn new_is_empty() {
    let m = KeyValMap::<String, String>::new();
    assert_eq!(m.to_key_vec().len(), 0);
    assert_eq!(m.to_val_vec().len(), 0);
    assert!(!m.contains_key(&"Foo".to_string()));
    assert!(!m.contains_val(&"Bar".to_string()));
    assert_eq!(m.get_by_key(&"Foo".to_string()), None);
    assert_eq!(m.get_by_val(&"Bar".to_string()), None);
}

#[test]
fn insert_then_get_round_trip() {
    let mut m = KeyValMap::<String, String>::new();
    assert_eq!(m.insert("Foo".to_string(), "Bar".to_string()), Ok(()));
    assert_eq!(m.get_by_key(&"Foo".to_string()), Some("Bar".to_string()));
    assert_eq!(m.get_by_val(&"Bar".to_string()), Some("Foo".to_string()));
}

#[test]
fn insert_duplicate_key_fails_unchanged() {
    let mut m = KeyValMap::<String, String>::new();
    assert_eq!(m.insert("Foo".to_string(), "Bar".to_string()), Ok(()));
    let keys_before = m.to_key_vec();
    let vals_before = m.to_val_vec();
    assert_eq!(
        m.insert("Foo".to_string(), "Baz".to_string()),
        Err(KeyValMapError::InsertError)
    );
    assert_eq!(m.to_key_vec(), keys_before);
    assert_eq!(m.to_val_vec(), vals_before);
}

#[test]
fn insert_duplicate_val_fails_unchanged() {
    let mut m = KeyValMap::<String, String>::new();
    assert_eq!(m.insert("Foo".to_string(), "Bar".to_string()), Ok(()));
    let keys_before = m.to_key_vec();
    let vals_before = m.to_val_vec();
    assert_eq!(
        m.insert("Baz".to_string(), "Bar".to_string()),
        Err(KeyValMapError::InsertError)
    );
    assert_eq!(m.to_key_vec(), keys_before);
    assert_eq!(m.to_val_vec(), vals_before);
}

#[test]
fn insert_duplicate_pair_fails_unchanged() {
    let mut m = KeyValMap::<String, String>::new();
    assert_eq!(m.insert("Foo".to_string(), "Bar".to_string()), Ok(()));
    let keys_before = m.to_key_vec();
    let vals_before = m.to_val_vec();
    assert_eq!(
        m.insert("Foo".to_string(), "Bar".to_string()),
        Err(KeyValMapError::InsertError)
    );
    assert_eq!(m.to_key_vec(), keys_before);
    assert_eq!(m.to_val_vec(), vals_before);
}

#[test]
fn remove_by_key_symmetry() {
    let mut m = KeyValMap::<String, String>::new();
    assert_eq!(m.insert("Foo".to_string(), "Bar".to_string()), Ok(()));
    assert_eq!(m.remove_by_key(&"Foo".to_string()), Some("Bar".to_string()));
    assert!(!m.contains_key(&"Foo".to_string()));
    assert!(!m.contains_val(&"Bar".to_string()));
    assert_eq!(m.get_by_key(&"Foo".to_string()), None);
    assert_eq!(m.get_by_val(&"Bar".to_string()), None);
}

#[test]
fn remove_by_val_symmetry() {
    let mut m = KeyValMap::<String, String>::new();
    assert_eq!(m.insert("Foo".to_string(), "Bar".to_string()), Ok(()));
    assert_eq!(m.remove_by_val(&"Bar".to_string()), Some("Foo".to_string()));
    assert!(!m.contains_key(&"Foo".to_string()));
    assert!(!m.contains_val(&"Bar".to_string()));
}

#[test]
fn remove_absent_is_noop() {
    let mut m = KeyValMap::<String, String>::new();
    assert_eq!(m.insert("Foo".to_string(), "Bar".to_string()), Ok(()));
    let klen = m.to_key_vec().len();
    let vlen = m.to_val_vec().len();
    assert_eq!(m.remove_by_key(&"Missing".to_string()), None);
    assert_eq!(m.remove_by_val(&"Missing".to_string()), None);
    assert_eq!(m.to_key_vec().len(), klen);
    assert_eq!(m.to_val_vec().len(), vlen);
    assert_eq!(m.get_by_key(&"Foo".to_string()), Some("Bar".to_string()));
}

#[test]
fn remove_is_idempotent() {
    let mut m = KeyValMap::<String, String>::new();
    assert_eq!(m.insert("Foo".to_string(), "Bar".to_string()), Ok(()));
    assert_eq!(m.remove_by_key(&"Foo".to_string()), Some("Bar".to_string()));
    assert_eq!(m.remove_by_key(&"Foo".to_string()), None);
    assert_eq!(m.remove_by_val(&"Bar".to_string()), None);
    assert_eq!(m.to_key_vec().len(), 0);
}

#[test]
fn size_symmetry_through_operations() {
    let mut m = KeyValMap::<String, String>::new();
    assert_eq!(m.to_key_vec().len(), m.to_val_vec().len());
    let _ = m.insert("A".to_string(), "1".to_string());
    assert_eq!(m.to_key_vec().len(), m.to_val_vec().len());
    let _ = m.insert("B".to_string(), "2".to_string());
    assert_eq!(m.to_key_vec().len(), m.to_val_vec().len());
    let _ = m.insert("A".to_string(), "3".to_string());
    assert_eq!(m.to_key_vec().len(), m.to_val_vec().len());
    let _ = m.remove_by_key(&"A".to_string());
    assert_eq!(m.to_key_vec().len(), m.to_val_vec().len());
    let _ = m.remove_by_val(&"2".to_string());
    assert_eq!(m.to_key_vec().len(), m.to_val_vec().len());
    assert_eq!(m.to_key_vec().len(), 0);
}

#[test]
fn bijection_over_all_keys() {
    let mut m = KeyValMap::<String, String>::new();
    assert_eq!(m.insert("A".to_string(), "1".to_string()), Ok(()));
    assert_eq!(m.insert("B".to_string(), "2".to_string()), Ok(()));
    assert_eq!(m.insert("C".to_string(), "3".to_string()), Ok(()));
    let _ = m.remove_by_key(&"B".to_string());
    for k in m.to_key_vec() {
        let v = m.get_by_key(&k).expect("listed key must be bound");
        assert_eq!(m.get_by_val(&v), Some(k));
    }
}

#[test]
fn contains_checks_sides_independently() {
    let mut m = KeyValMap::<String, String>::new();
    assert_eq!(m.insert("Foo".to_string(), "Bar".to_string()), Ok(()));
    assert_eq!(m.insert("Baz".to_string(), "Qux".to_string()), Ok(()));
    assert!(m.contains(&"Foo".to_string(), &"Bar".to_string()));
    assert!(m.contains(&"Foo".to_string(), &"Qux".to_string()));
    assert!(!m.contains(&"Foo".to_string(), &"Missing".to_string()));
    assert!(!m.contains(&"Missing".to_string(), &"Bar".to_string()));
}

#[test]
fn to_vecs_list_every_entry() {
    let mut m = KeyValMap::<String, String>::new();
    assert_eq!(m.insert("A".to_string(), "1".to_string()), Ok(()));
    assert_eq!(m.insert("B".to_string(), "2".to_string()), Ok(()));
    let mut keys = m.to_key_vec();
    let mut vals = m.to_val_vec();
    keys.sort();
    vals.sort();
    assert_eq!(keys, vec!["A".to_string(), "B".to_string()]);
    assert_eq!(vals, vec!["1".to_string(), "2".to_string()]);
}

#[test]
fn u64_elements_work() {
    let mut m = KeyValMap::<u64, u64>::new();
    assert_eq!(m.insert(1, 10), Ok(()));
    assert_eq!(m.insert(2, 20), Ok(()));
    assert_eq!(m.insert(1, 30), Err(KeyValMapError::InsertError));
    assert_eq!(m.insert(3, 10), Err(KeyValMapError::InsertError));
    assert_eq!(m.get_by_key(&2), Some(20));
    assert_eq!(m.get_by_val(&10), Some(1));
    assert_eq!(m.remove_by_val(&20), Some(2));
    assert_eq!(m.get_by_key(&2), None);
    assert_eq!(m.to_key_vec(), vec![1]);
}

#[test]
fn demo_scenario() {
    let mut m = KeyValMap::<String, String>::new();
    assert_eq!(m.insert("Foo".to_string(), "Bar".to_string()), Ok(()));
    assert_eq!(
        m.insert("Foo".to_string(), "Bar".to_string()),
        Err(KeyValMapError::InsertError)
    );
    assert_eq!(
        m.insert("Baz".to_string(), "Bar".to_string()),
        Err(KeyValMapError::InsertError)
    );
    assert_eq!(
        m.insert("Foo".to_string(), "Baz".to_string()),
        Err(KeyValMapError::InsertError)
    );
    assert_eq!(m.insert("Baz".to_string(), "Baz".to_string()), Ok(()));
    assert_eq!(m.get_by_key(&"Foo".to_string()), Some("Bar".to_string()));
    assert_eq!(m.get_by_val(&"Bar".to_string()), Some("Foo".to_string()));
    assert_eq!(m.get_by_key(&"Baz".to_string()), Some("Baz".to_string()));
    assert_eq!(m.get_by_val(&"Baz".to_string()), Some("Baz".to_string()));
}
