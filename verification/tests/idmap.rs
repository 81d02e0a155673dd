use graph_store::Id;
use graph_store::IdMap;

#[test]
fn insert_new_mints_fresh_keys() {
    let mut map: IdMap<String> = IdMap::new();
    assert!(map.is_empty());
    let a = map.insert_new("alpha".to_string());
    let b = map.insert_new("beta".to_string());
    assert_ne!(a, b);
    assert_eq!(map.len(), 2);
    assert_eq!(map.get(a), Some(&"alpha".to_string()));
    assert_eq!(map.get(b), Some(&"beta".to_string()));
    assert!(map.contains_id(a));
}

#[test]
fn insert_and_remove_by_id() {
    let mut map: IdMap<&str> = IdMap::with_capacity(4);
    let k = Id::from_raw(9);
    assert_eq!(map.insert(k, "nine"), None);
    assert_eq!(map.insert(k, "nine again"), Some("nine"));
    assert_eq!(map.len(), 1);
    assert_eq!(map.remove(k), Some("nine again"));
    assert_eq!(map.remove(k), None);
    assert!(!map.contains_id(k));
}

#[test]
fn next_id_skips_nothing() {
    let mut map: IdMap<&str> = IdMap::new();
    let a = map.next_id();
    let b = map.insert_new("b");
    assert_eq!(a.into_raw(), 0);
    assert_eq!(b.into_raw(), 1);
    assert_eq!(map.len(), 1);
}

#[test]
fn drain_and_clear_reset_the_context() {
    let mut map: IdMap<&str> = IdMap::new();
    map.insert_new("x");
    map.insert_new("y");
    let mut drained = map.drain();
    drained.sort();
    assert_eq!(drained, vec!["x", "y"]);
    assert!(map.is_empty());
    assert_eq!(map.insert_new("z").into_raw(), 0);

    map.clear();
    assert!(map.is_empty());
    assert_eq!(map.insert_new("w").into_raw(), 0);
}

#[test]
fn ids_lists_every_key() {
    let mut map: IdMap<&str> = IdMap::new();
    let a = map.insert_new("a");
    let b = map.insert_new("b");
    let mut raws: Vec<u64> = map.ids().into_iter().map(Id::into_raw).collect();
    raws.sort();
    assert_eq!(raws, vec![a.into_raw(), b.into_raw()]);
}

#[test]
fn reconstruction_resumes_beyond_greatest_key() {
    let mut map: IdMap<&str> = IdMap::from_raw_parts(vec![(4, "four"), (2, "two"), (4, "four late")]);
    assert_eq!(map.len(), 2);
    assert_eq!(map.get(Id::from_raw(4)), Some(&"four late"));
    assert_eq!(map.get(Id::from_raw(2)), Some(&"two"));
    assert_eq!(map.insert_new("next").into_raw(), 5);

    // With no entries at all, counting still resumes beyond key zero.
    let mut empty: IdMap<&str> = IdMap::from_raw_parts(Vec::new());
    assert_eq!(empty.insert_new("first").into_raw(), 1);
}
