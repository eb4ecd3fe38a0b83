use xml_c14n::{Canonicalization, Output, OutputKind, XmlEvent};

fn views(out: Vec<Output>) -> Vec<(OutputKind, String)> {
    out.into_iter().map(|o| (o.kind, o.content)).collect()
}

fn text(s: &str) -> XmlEvent {
    XmlEvent::Text(s.to_string())
}

#[test]
fn processing_instructions_lose_white_space_after_the_target() {
    let cases = [
        ("pi-without-data     ", "pi-without-data"),
        ("xml-stylesheet   href=\"doc.xsl\"\n   type=\"text/xsl\"   ", "xml-stylesheet href=\"doc.xsl\"\n   type=\"text/xsl\"   "),
        ("ab  x", "ab x"),
        ("ab \n x", "ab x"),
        ("ab\tx", "ab\tx"),
        ("ab", "ab"),
    ];
    for (input, expected) in cases {
        let mut c = Canonicalization::new(true);
        let out = views(c.handle(XmlEvent::ProcessingInstruction(input.to_string())));
        assert_eq!(out, vec![(OutputKind::ProcessingInstruction, expected.to_string())]);
    }
}

#[test]
fn line_feeds_outside_the_document_element() {
    // Character data outside the document element is dropped; one line feed
    // separates each comment or processing instruction from the document
    // element.
    let mut c = Canonicalization::new(true);
    let out = views(c.handle(XmlEvent::Comment("a".to_string())));
    assert_eq!(out, vec![(OutputKind::Comment, "a".to_string())]);
    assert!(views(c.handle(text("\n\n  \n"))).is_empty());
    let out = views(c.handle(XmlEvent::Start("doc".to_string())));
    assert_eq!(
        out,
        vec![(OutputKind::Text, "\n".to_string()), (OutputKind::StartTag, "doc".to_string())]
    );
    let out = views(c.handle(XmlEvent::End("doc".to_string())));
    assert_eq!(out, vec![(OutputKind::EndTag, "doc".to_string())]);
    assert!(views(c.handle(text("\n\n"))).is_empty());
    let out = views(c.handle(XmlEvent::Comment("b".to_string())));
    assert_eq!(
        out,
        vec![(OutputKind::Text, "\n".to_string()), (OutputKind::Comment, "b".to_string())]
    );
    let out = views(c.handle(XmlEvent::ProcessingInstruction("pi".to_string())));
    assert_eq!(
        out,
        vec![
            (OutputKind::Text, "\n".to_string()),
            (OutputKind::ProcessingInstruction, "pi".to_string())
        ]
    );

    // Without a comment or a processing instruction before it, nothing
    // comes before the document element.
    let mut c = Canonicalization::new(false);
    assert!(views(c.handle(text("\n\n  \n"))).is_empty());
    assert!(views(c.handle(XmlEvent::Comment("dropped".to_string()))).is_empty());
    let out = views(c.handle(XmlEvent::Start("doc".to_string())));
    assert_eq!(out, vec![(OutputKind::StartTag, "doc".to_string())]);

    // Two processing instructions before it: one line feed after each.
    let mut c = Canonicalization::new(false);
    c.handle(XmlEvent::ProcessingInstruction("p1".to_string()));
    let out = views(c.handle(XmlEvent::ProcessingInstruction("p2".to_string())));
    assert_eq!(
        out,
        vec![
            (OutputKind::Text, "\n".to_string()),
            (OutputKind::ProcessingInstruction, "p2".to_string())
        ]
    );
    let out = views(c.handle(XmlEvent::Start("doc".to_string())));
    assert_eq!(
        out,
        vec![(OutputKind::Text, "\n".to_string()), (OutputKind::StartTag, "doc".to_string())]
    );
}

#[test]
fn text_inside_elements_is_kept() {
    let mut c = Canonicalization::new(true);
    c.handle(XmlEvent::Start("doc".to_string()));
    c.handle(text("a\r\n\n b>c"));
    c.handle(XmlEvent::CData("x<y&z>".to_string()));
    c.handle(XmlEvent::GeneralRef("#169".to_string()));
    let out = views(c.handle(XmlEvent::End("doc".to_string())));
    assert_eq!(
        out,
        vec![
            (OutputKind::Text, "a\n\n b&gt;cx&lt;y&amp;z&gt;\u{a9}".to_string()),
            (OutputKind::EndTag, "doc".to_string())
        ]
    );
}

#[test]
fn comments_are_kept_or_dropped() {
    let mut c = Canonicalization::new(true);
    c.handle(XmlEvent::Start("doc".to_string()));
    c.handle(text("x"));
    let out = views(c.handle(XmlEvent::Comment(" note ".to_string())));
    assert_eq!(
        out,
        vec![(OutputKind::Text, "x".to_string()), (OutputKind::Comment, " note ".to_string())]
    );

    let mut c = Canonicalization::new(false);
    c.handle(XmlEvent::Start("doc".to_string()));
    c.handle(text("x"));
    assert!(views(c.handle(XmlEvent::Comment(" note ".to_string()))).is_empty());
    let out = views(c.handle(XmlEvent::End("doc".to_string())));
    assert_eq!(
        out,
        vec![(OutputKind::Text, "x".to_string()), (OutputKind::EndTag, "doc".to_string())]
    );
}

#[test]
fn declarations_and_the_end_write_nothing() {
    let mut c = Canonicalization::new(true);
    assert!(views(c.handle(XmlEvent::Decl)).is_empty());
    assert!(views(c.handle(XmlEvent::DocType)).is_empty());
    c.handle(XmlEvent::Start("doc".to_string()));
    c.handle(XmlEvent::End("doc".to_string()));
    c.handle(text("trailing"));
    assert!(views(c.handle(XmlEvent::Eof)).is_empty());
}

#[test]
fn namespace_declarations_are_scoped_by_element() {
    let mut c = Canonicalization::new(true);
    let out = views(c.handle(XmlEvent::Start(r#"a xmlns="" xmlns:p="u""#.to_string())));
    assert_eq!(out, vec![(OutputKind::StartTag, r#"a xmlns:p="u""#.to_string())]);
    let out = views(c.handle(XmlEvent::Start(r#"b xmlns:p="u""#.to_string())));
    assert_eq!(out, vec![(OutputKind::StartTag, "b".to_string())]);
    c.handle(XmlEvent::End("b".to_string()));
    c.handle(XmlEvent::End("a".to_string()));
    // Once `a` is closed, its declaration is no longer in scope.
    let out = views(c.handle(XmlEvent::Start(r#"c xmlns:p="u""#.to_string())));
    assert_eq!(out, vec![(OutputKind::StartTag, r#"c xmlns:p="u""#.to_string())]);
}

#[test]
fn events_that_cannot_be_handled_are_detected() {
    let c = Canonicalization::new(true);
    assert!(!c.accepts_event(&XmlEvent::End("doc".to_string())));
    assert!(!c.accepts_event(&XmlEvent::Start(" bad".to_string())));
    assert!(!c.accepts_event(&text("&#xDFFF;")));
    assert!(!c.accepts_event(&XmlEvent::GeneralRef("#55296".to_string())));
    assert!(c.accepts_event(&XmlEvent::Start("doc".to_string())));
    assert!(c.accepts_event(&text("&#x41;")));
    assert!(c.accepts_event(&XmlEvent::Eof));
}
