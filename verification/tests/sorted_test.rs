use clojure_toolchain::sorted::{SortedMap, StrSet};

#[test]
fn set_keeps_strings_sorted_and_once() {
    let mut set = StrSet::new();
    for s in ["libs/b/src", "libs/a/src", "libs/b/src", "apps/x"] {
        set.insert(s.to_string());
    }
    let items: Vec<String> = (0..set.len()).map(|i| set.get(i).clone()).collect();
    assert_eq!(items, vec!["apps/x", "libs/a/src", "libs/b/src"]);
    assert!(set.contains("libs/a/src"));
    assert!(!set.contains("libs/c/src"));
    assert_eq!(set.clone(), set);
}

#[test]
fn map_keeps_keys_sorted_and_replaces_values() {
    let mut map: SortedMap<String> = SortedMap::new();
    assert!(map.is_empty());
    map.insert("b".to_string(), "1".to_string());
    map.insert("a".to_string(), "2".to_string());
    map.insert("b".to_string(), "3".to_string());
    assert_eq!(map.len(), 2);
    assert_eq!(map.entry(0), (&"a".to_string(), &"2".to_string()));
    assert_eq!(map.entry(1), (&"b".to_string(), &"3".to_string()));
    assert_eq!(map.get("b").map(|v| v.as_str()), Some("3"));
    assert!(map.contains_key("a"));
    assert!(!map.contains_key("c"));
    assert_eq!(map.clone(), map);
}
