use routetype::QueryMap;

fn query(pairs: &[(&str, Option<&str>)]) -> Option<Vec<(String, Option<String>)>> {
    Some(
        pairs
            .iter()
            .map(|(k, v)| (k.to_string(), v.map(|v| v.to_string())))
            .collect(),
    )
}

#[test]
fn absent_query_gives_empty_map() {
    let none = None;
    let map = QueryMap::from_query_iter(&none);
    assert!(!map.contains("a"));
    assert!(!map.contains(""));
    assert_eq!(map.get_single("a"), None);
}

#[test]
fn contains_counts_bare_and_valued_keys() {
    let pairs = query(&[("a", None), ("b", Some("1")), ("", Some(""))]);
    let map = QueryMap::from_query_iter(&pairs);
    assert!(map.contains("a"));
    assert!(map.contains("b"));
    assert!(map.contains(""));
    assert!(!map.contains("c"));
    assert!(!map.contains("A"));
}

#[test]
fn get_single_wants_exactly_one_value() {
    let pairs = query(&[
        ("one", Some("1")),
        ("two", Some("a")),
        ("two", Some("b")),
        ("bare", None),
        ("mixed", None),
        ("mixed", Some("m")),
        ("mixed", None),
        ("empty", Some("")),
    ]);
    let map = QueryMap::from_query_iter(&pairs);
    assert_eq!(map.get_single("one"), Some("1"));
    assert_eq!(map.get_single("two"), None);
    assert_eq!(map.get_single("bare"), None);
    assert_eq!(map.get_single("mixed"), Some("m"));
    assert_eq!(map.get_single("empty"), Some(""));
    assert_eq!(map.get_single("missing"), None);
}

#[test]
fn keys_are_compared_as_texts() {
    let pairs = query(&[("é", Some("1")), ("e", Some("2"))]);
    let map = QueryMap::from_query_iter(&pairs);
    assert_eq!(map.get_single("é"), Some("1"));
    assert_eq!(map.get_single("e"), Some("2"));
}
