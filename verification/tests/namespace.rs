use xml_c14n::namespace::DepthSensitiveMap;

#[test]
fn depth_map() {
    let mut map: DepthSensitiveMap<&str> = DepthSensitiveMap::new();

    map.insert_at_depth(0, "TestA", "valueA");
    map.insert_at_depth(0, "TestB", "valueB");

    map.insert_at_depth(1, "TestA", "deeperA");

    let r = map.to_map();

    assert_eq!(r.get("TestA"), Some(&"deeperA"));
    assert_eq!(r.get("TestB"), Some(&"valueB"));

    map.remove_depth(1);
    let r = map.to_map();

    assert_eq!(r.get("TestA"), Some(&"valueA"));
    assert_eq!(r.get("TestB"), Some(&"valueB"));
}

#[test]
fn insert_returns_previous_value_of_the_level() {
    let mut map: DepthSensitiveMap<&str> = DepthSensitiveMap::new();
    assert_eq!(map.insert_at_depth(2, "k", "one"), None);
    assert_eq!(map.insert_at_depth(2, "k", "two"), Some("one"));
    assert_eq!(map.insert_at_depth(1, "k", "shallow"), None);
    // The deepest binding wins.
    assert_eq!(map.to_map().get("k"), Some(&"two"));
    assert_eq!(map.to_map().get("other"), None);
}

#[test]
fn remove_depth_after_insert_restores_bindings() {
    let mut map: DepthSensitiveMap<&str> = DepthSensitiveMap::new();
    map.insert_at_depth(0, "a", "top");
    map.insert_at_depth(3, "a", "inner");
    assert_eq!(map.to_map().get("a"), Some(&"inner"));
    map.remove_depth(3);
    assert_eq!(map.to_map().get("a"), Some(&"top"));
    map.remove_depth(0);
    assert_eq!(map.to_map().get("a"), None);
}
