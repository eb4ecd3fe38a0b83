use xml_c14n::character_refs::{
    canonicalize_character_reference, canonicalize_character_references, references_are_valid,
    Situation,
};

#[test]
fn well_known_references() {
    let input = "&amp;&lt;&gt;&apos;&quot;";
    assert_eq!(
        canonicalize_character_references(input, Situation::Content),
        "&amp;&lt;&gt;'\""
    );
    assert_eq!(
        canonicalize_character_references(input, Situation::Attribute),
        "&amp;&lt;>'&quot;"
    );
}

#[test]
fn numeric_references() {
    assert_eq!(canonicalize_character_references("&#x32;", Situation::Content), "2");
    assert_eq!(canonicalize_character_references("&#169;", Situation::Content), "\u{a9}");
    assert_eq!(canonicalize_character_references("&#x0d;&#10;", Situation::Content), "&#xD;\n");
    assert_eq!(canonicalize_character_references("&#13;&#xa;&#9;", Situation::Attribute), "&#xD;&#xA;&#x9;");
    assert_eq!(canonicalize_character_references("&#x9;", Situation::Content), "\t");
    assert_eq!(canonicalize_character_references("&#x1F600;", Situation::Content), "\u{1F600}");
    assert_eq!(canonicalize_character_references("&#X41;", Situation::Content), "&#X41;");
    // Values that do not fit in 32 bits are left out.
    assert_eq!(canonicalize_character_references("a&#99999999999;b", Situation::Content), "ab");
    assert_eq!(canonicalize_character_references("a&#x100000000;b", Situation::Content), "ab");
}

#[test]
fn characters_outside_references() {
    assert_eq!(canonicalize_character_references("a>b\"c", Situation::Content), "a&gt;b\"c");
    assert_eq!(canonicalize_character_references("a>b\"c", Situation::Attribute), "a>b&quot;c");
    assert_eq!(canonicalize_character_references("\t\n", Situation::Attribute), "&#x9;&#xA;");
    assert_eq!(canonicalize_character_references("\t\n", Situation::Content), "\t\n");
    assert_eq!(canonicalize_character_references("\r", Situation::Content), "&#xD;");
    assert_eq!(canonicalize_character_references("a\rb", Situation::Attribute), "a&#xD;b");
    assert_eq!(canonicalize_character_references("a<b", Situation::Content), "a&lt;b");
    assert_eq!(canonicalize_character_references("a<b", Situation::Attribute), "a&lt;b");
    // A `&` that starts no reference stands for itself.
    assert_eq!(canonicalize_character_references("elem3&asd;", Situation::Attribute), "elem3&asd;");
    assert_eq!(canonicalize_character_references("&#;&#x;&amp", Situation::Content), "&#;&#x;&amp");
    assert_eq!(canonicalize_character_references("", Situation::Content), "");
}

#[test]
fn references_to_special_characters_are_escaped() {
    assert_eq!(canonicalize_character_references("&#60;", Situation::Content), "&lt;");
    assert_eq!(canonicalize_character_references("&#x3C;", Situation::Attribute), "&lt;");
    assert_eq!(canonicalize_character_references("&#38;", Situation::Content), "&amp;");
    assert_eq!(canonicalize_character_references("&#x26;", Situation::Attribute), "&amp;");
    assert_eq!(canonicalize_character_references("&#62;", Situation::Content), "&gt;");
    assert_eq!(canonicalize_character_references("&#62;", Situation::Attribute), ">");
    assert_eq!(canonicalize_character_references("&#34;", Situation::Attribute), "&quot;");
    assert_eq!(canonicalize_character_references("&#34;", Situation::Content), "\"");
    // A reference and the character it stands for read alike.
    assert_eq!(
        canonicalize_character_references("&#60;", Situation::Content),
        canonicalize_character_references("&lt;", Situation::Content)
    );
    assert_eq!(
        canonicalize_character_references("&#13;", Situation::Content),
        canonicalize_character_references("\r", Situation::Content)
    );
}

#[test]
fn example_3_4_character_data() {
    assert_eq!(
        canonicalize_character_references("a>\"\t\n\rb", Situation::Content),
        "a&gt;\"\t\n&#xD;b"
    );
    assert_eq!(
        canonicalize_character_references("a>\"\t\n\rb", Situation::Attribute),
        "a>&quot;&#x9;&#xA;&#xD;b"
    );
}

#[test]
fn general_references() {
    assert_eq!(canonicalize_character_reference("#x0d"), "&#xD;");
    assert_eq!(canonicalize_character_reference("#10"), "\n");
    assert_eq!(canonicalize_character_reference("gt"), "&gt;");
    assert_eq!(canonicalize_character_reference("unknown"), "&unknown;");
}

#[test]
fn invalid_references_are_detected() {
    let chars = |s: &str| s.chars().collect::<Vec<char>>();
    assert!(!references_are_valid(&chars("&#xD800;")));
    assert!(!references_are_valid(&chars("&#1114112;")));
    assert!(references_are_valid(&chars("&#1114111;")));
    assert!(references_are_valid(&chars("&#99999999999;")));
    assert!(references_are_valid(&chars("plain")));
}
