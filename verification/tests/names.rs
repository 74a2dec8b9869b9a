use dbake::names::{NameMap, NameSet};

fn names(v: &[&str]) -> Vec<String> {
    v.iter().map(|s| s.to_string()).collect()
}

fn keys<V>(map: &NameMap<V>) -> Vec<String> {
    (0..map.len()).map(|i| map.key_at(i).clone()).collect()
}

#[test]
fn a_set_holds_each_name_once_and_in_order() {
    let mut set = NameSet::from_list(&names(&["b", "a", "b"]));
    assert_eq!(*set.as_list(), names(&["a", "b"]));
    assert!(set.insert("aa".to_string()));
    assert!(!set.insert("aa".to_string()));
    assert_eq!(set.len(), 3);
    set.remove("a");
    set.remove("nope");
    assert!(!set.contains("a"));
    assert!(set.contains("aa"));
    let copy = set.copy();
    assert_eq!(copy.into_list(), names(&["aa", "b"]));
    assert!(!set.is_empty());
    assert!(NameSet::new().is_empty());
}

#[test]
fn a_map_keeps_the_last_value_of_a_name() {
    let mut map = NameMap::from_pairs(vec![
        ("b".to_string(), 1),
        ("a".to_string(), 2),
        ("b".to_string(), 3),
    ]);
    assert_eq!(map.len(), 2);
    assert_eq!(map.get("b"), Some(&3));
    assert_eq!(map.get("c"), None);
    assert_eq!(keys(&map), names(&["a", "b"]));
    assert_eq!((map.key_at(0).as_str(), *map.value_at(0)), ("a", 2));
    map.insert("a".to_string(), 5);
    *map.get_mut("b").unwrap() += 1;
    assert_eq!(map.get("a"), Some(&5));
    assert_eq!(map.get("b"), Some(&4));
    assert!(map.get_mut("c").is_none());
    assert!(map.contains_key("a"));
    assert!(!map.is_empty());
}
