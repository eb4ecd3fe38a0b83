use xml_c14n::namespace::{DepthSensitiveMap, Namespace};
use xml_c14n::start::{canonicalize_start_tag, start_tag_is_supported, Attribute, StartTag, StartTagError};
use std::cmp::Ordering;

#[test]
fn test_formatting() {
    let a = StartTag {
        name: "Test".to_string(),
        attributes: vec![],
    };
    assert_eq!(a.to_string(), "Test");

    let a = StartTag {
        name: "Test".to_string(),
        attributes: vec![Attribute {
            name: "attr".to_string(),
            value: "abcdef".to_string(),
        }],
    };
    assert_eq!(a.to_string(), r#"Test attr="abcdef""#);
}

#[test]
fn test_canonicalize_start_tag() {
    let input = r#"a:e3   a:name = "elem3&asd;"   id=elem3   "#;
    let output = r#"a:e3 id="elem3" a:name="elem3&asd;""#;
    assert_eq!(
        output,
        canonicalize_start_tag(input, 0, &mut DepthSensitiveMap::new()).unwrap()
    );
}

#[test]
fn test_attribute_order() {
    let input = r#"e5 a:attr="out" b:attr="sorted" attr2="all" attr="I'm" xmlns:b="http://www.ietf.org" xmlns:a="http://www.w3.org" xmlns="http://example.org""#;
    let output = r#"e5 xmlns="http://example.org" xmlns:a="http://www.w3.org" xmlns:b="http://www.ietf.org" attr="I'm" attr2="all" b:attr="sorted" a:attr="out""#;
    assert_eq!(
        output,
        canonicalize_start_tag(input, 0, &mut DepthSensitiveMap::new()).unwrap()
    );
}

#[test]
fn superfluous_declarations_are_dropped_and_recorded_ones_kept() {
    let mut map = DepthSensitiveMap::new();
    map.insert_at_depth(0, "=", Namespace { url: String::new() });
    // Binding the default namespace to the URI it already has is superfluous.
    assert_eq!(
        canonicalize_start_tag(r#"e6 xmlns="" xmlns:a="http://www.w3.org""#, 1, &mut map).unwrap(),
        r#"e6 xmlns:a="http://www.w3.org""#
    );
    assert_eq!(
        map.to_map().get("a").map(|n| n.url.clone()),
        Some("http://www.w3.org".to_string())
    );
    // Deeper, the same declaration is superfluous too.
    assert_eq!(
        canonicalize_start_tag(r#"e8 xmlns:a="http://www.w3.org""#, 2, &mut map).unwrap(),
        "e8"
    );
    // A different URI is a new binding.
    assert_eq!(
        canonicalize_start_tag(r#"e9 xmlns:a="http://www.ietf.org""#, 3, &mut map).unwrap(),
        r#"e9 xmlns:a="http://www.ietf.org""#
    );
    map.remove_depth(3);
    assert_eq!(
        map.to_map().get("a").map(|n| n.url.clone()),
        Some("http://www.w3.org".to_string())
    );
}

#[test]
fn attribute_values_are_normalised() {
    let mut map = DepthSensitiveMap::new();
    let input = "norm attr=' &apos;   &#x20;&#13;&#xa;&#9;   &apos; '";
    assert_eq!(
        canonicalize_start_tag(input, 1, &mut map).unwrap(),
        r#"norm attr=" '    &#xD;&#xA;&#x9;   ' ""#
    );
    let input = "compute expr='value>\"0\" &amp;&amp; value&lt;\"10\" ?\"valid\":\"error\"'";
    assert_eq!(
        canonicalize_start_tag(input, 1, &mut map).unwrap(),
        r#"compute expr="value>&quot;0&quot; &amp;&amp; value&lt;&quot;10&quot; ?&quot;valid&quot;:&quot;error&quot;""#
    );
    // White space in a raw value: a tab, a line feed, a carriage return, and
    // a carriage return followed by a line feed each become one space.
    assert_eq!(
        canonicalize_start_tag("e a=\"x\r\ny\"", 1, &mut map).unwrap(),
        r#"e a="x y""#
    );
    assert_eq!(
        canonicalize_start_tag("e a=\"1\t2\r3\r\n4\n5\"", 1, &mut map).unwrap(),
        r#"e a="1 2 3 4 5""#
    );
}

#[test]
fn malformed_start_tags_are_refused() {
    let mut map: DepthSensitiveMap<Namespace> = DepthSensitiveMap::new();
    assert_eq!(canonicalize_start_tag("", 0, &mut map), Err(StartTagError::Syntax));
    assert_eq!(canonicalize_start_tag(" e", 0, &mut map), Err(StartTagError::Syntax));
    assert_eq!(canonicalize_start_tag("e a", 0, &mut map), Err(StartTagError::Syntax));
    assert_eq!(canonicalize_start_tag("e a=\"x", 0, &mut map), Err(StartTagError::Syntax));
    assert_eq!(canonicalize_start_tag("e a=\"x\"b=\"y\"", 0, &mut map), Err(StartTagError::Syntax));
    assert!(map.to_map().get("=").is_none());
}

#[test]
fn whitespace_in_tags_is_normalised() {
    let mut map = DepthSensitiveMap::new();
    assert_eq!(canonicalize_start_tag("e1   ", 1, &mut map).unwrap(), "e1");
    assert_eq!(
        canonicalize_start_tag("e3   name = \"elem3\"   id=\"elem3\"   ", 1, &mut map).unwrap(),
        r#"e3 id="elem3" name="elem3""#
    );
    assert_eq!(
        canonicalize_start_tag("e\n\ta='1'\n b=\"2\"", 1, &mut map).unwrap(),
        r#"e a="1" b="2""#
    );
}

#[test]
fn unsupported_start_tags_are_detected() {
    let map: DepthSensitiveMap<Namespace> = DepthSensitiveMap::new();
    // Two qualified attributes whose prefixes are not bound.
    assert!(!start_tag_is_supported(r#"e a:x="1" b:y="2""#, 1, &map));
    // One qualified attribute needs no namespace to be ordered.
    assert!(start_tag_is_supported(r#"e a:x="1" y="2""#, 1, &map));
    // Bound in the tag itself.
    assert!(start_tag_is_supported(r#"e xmlns:a="u" xmlns:b="v" a:x="1" b:y="2""#, 1, &map));
    // A reference to a surrogate.
    assert!(!start_tag_is_supported(r#"e a="&#xD800;""#, 1, &map));
    // Not a start tag at all: nothing stands in the way of reporting that.
    assert!(start_tag_is_supported("", 1, &map));
}

#[test]
fn attributes_compare_in_canonical_order() {
    let mut map = DepthSensitiveMap::new();
    map.insert_at_depth(0, "a", Namespace { url: "http://www.w3.org".to_string() });
    map.insert_at_depth(0, "b", Namespace { url: "http://www.ietf.org".to_string() });
    let attr = |name: &str| Attribute { name: name.to_string(), value: String::new() };
    assert_eq!(attr("xmlns").cmp_with_namespaces(&attr("xmlns:a"), &map), Ordering::Less);
    assert_eq!(attr("xmlns:a").cmp_with_namespaces(&attr("xmlns"), &map), Ordering::Greater);
    assert_eq!(attr("xmlns:a").cmp_with_namespaces(&attr("attr"), &map), Ordering::Less);
    assert_eq!(attr("attr").cmp_with_namespaces(&attr("xmlns:a"), &map), Ordering::Greater);
    assert_eq!(attr("attr").cmp_with_namespaces(&attr("attr2"), &map), Ordering::Less);
    assert_eq!(attr("zz").cmp_with_namespaces(&attr("a:attr"), &map), Ordering::Less);
    assert_eq!(attr("b:attr").cmp_with_namespaces(&attr("a:attr"), &map), Ordering::Less);
    assert_eq!(attr("a:attr").cmp_with_namespaces(&attr("a:attr2"), &map), Ordering::Less);
    assert_eq!(attr("a:attr").cmp_with_namespaces(&attr("a:attr"), &map), Ordering::Equal);
}

#[test]
fn declarations_are_superfluous_the_second_time() {
    let mut map = DepthSensitiveMap::new();
    let tag = r#"e xmlns="http://example.org" xmlns:a="http://www.w3.org" a:x="1" y="2""#;
    assert_eq!(
        canonicalize_start_tag(tag, 1, &mut map).unwrap(),
        r#"e xmlns="http://example.org" xmlns:a="http://www.w3.org" y="2" a:x="1""#
    );
    assert_eq!(canonicalize_start_tag(tag, 1, &mut map).unwrap(), r#"e y="2" a:x="1""#);
}

#[test]
fn attribute_order_in_the_tag_does_not_matter() {
    let orders = [
        r#"e b:x="1" xmlns:b="http://b" y="2" xmlns="http://d""#,
        r#"e xmlns="http://d" y="2" xmlns:b="http://b" b:x="1""#,
        r#"e y="2" b:x="1" xmlns="http://d" xmlns:b="http://b""#,
    ];
    for tag in orders {
        let mut map = DepthSensitiveMap::new();
        assert_eq!(
            canonicalize_start_tag(tag, 1, &mut map).unwrap(),
            r#"e xmlns="http://d" xmlns:b="http://b" y="2" b:x="1""#
        );
        assert_eq!(map.to_map().get("b").map(|n| n.url.clone()), Some("http://b".to_string()));
    }
}

#[test]
fn attribute_order_does_not_matter_below_deeper_bindings() {
    let orders = [
        r#"e xmlns:b="http://b" b:x="1" xmlns:c="http://c" c:y="2""#,
        r#"e c:y="2" xmlns:c="http://c" b:x="1" xmlns:b="http://b""#,
    ];
    for tag in orders {
        let mut map = DepthSensitiveMap::new();
        map.insert_at_depth(3, "b", Namespace { url: "http://deep".to_string() });
        assert_eq!(
            canonicalize_start_tag(tag, 1, &mut map).unwrap(),
            r#"e xmlns:b="http://b" xmlns:c="http://c" c:y="2" b:x="1""#
        );
        assert_eq!(map.to_map().get("b").map(|n| n.url.clone()), Some("http://deep".to_string()));
        assert_eq!(map.to_map().get("c").map(|n| n.url.clone()), Some("http://c".to_string()));
    }
}
