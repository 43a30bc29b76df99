use burn_contracts::{collect_binding_map, collect_sorted_binding_list, lookup_binding};
use std::collections::HashMap;

#[test]
fn test_collect_binding_map() {
    let source: [(&str, usize); 2] = [("a", 1), ("b", 2)];

    let map = collect_binding_map(&source);
    assert_eq!(map.get("a"), Some(&1));
    assert_eq!(map.get("b"), Some(&2));
    assert_eq!(map.get("x"), None);
}

#[test]
fn test_from_str_array() {
    let source: [(&str, usize); 2] = [("a", 1), ("b", 2)];

    let pairs = collect_sorted_binding_list(&source);

    assert_eq!(pairs, vec![("a".to_string(), 1), ("b".to_string(), 2)]);

    assert_eq!(lookup_binding(&source, "a"), Some(1));
    assert_eq!(lookup_binding(&source, "x"), None);

    let pairs = collect_sorted_binding_list(&source[..]);

    assert_eq!(pairs, vec![("a".to_string(), 1), ("b".to_string(), 2)]);

    assert_eq!(lookup_binding(&source[..], "a"), Some(1));
    assert_eq!(lookup_binding(&source[..], "x"), None);
}

#[test]
fn test_from_string_array() {
    let source: [(String, usize); 2] = [("a".to_string(), 1), ("b".to_string(), 2)];

    // As array reference.
    let pairs = collect_sorted_binding_list(&source);

    assert_eq!(pairs, vec![("a".to_string(), 1), ("b".to_string(), 2)]);

    assert_eq!(lookup_binding(&source, "a"), Some(1));
    assert_eq!(lookup_binding(&source, "x"), None);

    // As slice reference.
    let pairs = collect_sorted_binding_list(&source[..]);

    assert_eq!(pairs, vec![("a".to_string(), 1), ("b".to_string(), 2)]);

    assert_eq!(lookup_binding(&source[..], "a"), Some(1));
    assert_eq!(lookup_binding(&source[..], "x"), None);
}

#[test]
fn test_from_string_vec() {
    let source: Vec<(String, usize)> = vec![("a".to_string(), 1), ("b".to_string(), 2)];

    let pairs = collect_sorted_binding_list(&source);

    assert_eq!(pairs, vec![("a".to_string(), 1), ("b".to_string(), 2)]);
    assert_eq!(lookup_binding(&source, "a"), Some(1));

    assert_eq!(lookup_binding(&source, "x"), None);
}

#[test]
fn test_from_hashmap() {
    let mut source: HashMap<String, usize> = Default::default();
    source.insert("a".to_string(), 1);
    source.insert("b".to_string(), 2);

    let pairs = collect_sorted_binding_list(&source);

    assert_eq!(pairs, vec![("a".to_string(), 1), ("b".to_string(), 2)]);

    assert_eq!(lookup_binding(&source, "a"), Some(1));
    assert_eq!(lookup_binding(&source, "x"), None);
}

#[test]
fn duplicate_names_keep_the_first_value() {
    let source: [(&str, usize); 3] = [("a", 1), ("b", 2), ("a", 3)];

    assert_eq!(lookup_binding(&source, "a"), Some(1));
    assert_eq!(
        collect_sorted_binding_list(&source),
        vec![("a".to_string(), 1), ("b".to_string(), 2)]
    );
    let map = collect_binding_map(&source);
    assert_eq!(map.get("a"), Some(&1));
}

#[test]
fn sorted_list_orders_by_code_point() {
    let source: Vec<(&str, usize)> = vec![("b", 1), ("a", 2), ("_", 3), ("B", 4), ("ab", 5)];

    assert_eq!(
        collect_sorted_binding_list(&source),
        vec![
            ("B".to_string(), 4),
            ("_".to_string(), 3),
            ("a".to_string(), 2),
            ("ab".to_string(), 5),
            ("b".to_string(), 1),
        ]
    );
}

#[test]
fn empty_source_has_no_bindings() {
    let source: Vec<(String, usize)> = Vec::new();

    assert_eq!(collect_sorted_binding_list(&source), Vec::<(String, usize)>::new());
    assert_eq!(lookup_binding(&source, "a"), None);
}

#[test]
fn hashmap_source_collects_every_entry() {
    let mut source: HashMap<String, usize> = HashMap::new();
    source.insert("h".to_string(), 7);
    source.insert("w".to_string(), 9);
    source.insert("c".to_string(), 3);

    let map = collect_binding_map(&source);
    assert_eq!(map.get("h"), Some(&7));
    assert_eq!(map.get("w"), Some(&9));
    assert_eq!(map.get("c"), Some(&3));
    assert_eq!(map.get("x"), None);
}

#[test]
fn binding_map_insert_replaces() {
    let source: [(&str, usize); 1] = [("a", 1)];
    let mut map = collect_binding_map(&source);
    map.insert("a".to_string(), 5);
    map.insert("b".to_string(), 6);

    assert_eq!(map.get("a"), Some(&5));
    assert_eq!(map.get("b"), Some(&6));
    assert_eq!(lookup_binding(&map, "b"), Some(6));
    assert_eq!(
        collect_sorted_binding_list(&map),
        vec![("a".to_string(), 5), ("b".to_string(), 6)]
    );
}
