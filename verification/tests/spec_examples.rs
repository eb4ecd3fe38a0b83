// The examples of the W3C recommendation on canonical XML, run through the
// library with quick-xml reading and writing the document.

use std::io::Cursor;

use quick_xml::events::{BytesEnd, BytesPI, BytesStart, BytesText, Event};
use quick_xml::{Reader, Writer};
use xml_c14n::{Canonicalization, OutputKind, XmlEvent};

fn text_of(bytes: &[u8]) -> String {
    String::from_utf8_lossy(bytes).into_owned()
}

fn canonicalize_str(input: &str, retain_comments: bool) -> String {
    canonicalize_reader(Reader::from_str(input), retain_comments)
}

fn canonicalize_reader<R: std::io::BufRead>(mut reader: Reader<R>, retain_comments: bool) -> String {
    let mut buf = Vec::new();
    reader.config_mut().allow_unmatched_ends = false;
    reader.config_mut().check_end_names = true;
    reader.config_mut().expand_empty_elements = true;
    let mut writer = Writer::new(Cursor::new(Vec::new()));
    let mut state = Canonicalization::new(retain_comments);
    loop {
        buf.clear();
        let event = match reader.read_event_into(&mut buf).expect("canonicalization shouldn't fail") {
            Event::Decl(_) => XmlEvent::Decl,
            Event::DocType(_) => XmlEvent::DocType,
            Event::PI(p) => XmlEvent::ProcessingInstruction(text_of(&p)),
            Event::Comment(c) => XmlEvent::Comment(text_of(&c)),
            Event::Text(t) => XmlEvent::Text(text_of(&t)),
            Event::CData(c) => XmlEvent::CData(text_of(&c)),
            Event::GeneralRef(r) => XmlEvent::GeneralRef(text_of(&r)),
            Event::Start(s) => XmlEvent::Start(text_of(&s)),
            Event::End(e) => XmlEvent::End(text_of(&e)),
            Event::Empty(_) => unreachable!(),
            Event::Eof => break,
        };
        assert!(state.accepts_event(&event));
        for out in state.handle(event) {
            let written = match out.kind {
                OutputKind::Text => writer.write_event(Event::Text(BytesText::from_escaped(out.content))),
                OutputKind::ProcessingInstruction => writer.write_event(Event::PI(BytesPI::new(out.content))),
                OutputKind::Comment => writer.write_event(Event::Comment(BytesText::from_escaped(out.content))),
                OutputKind::StartTag => writer.write_event(Event::Start(BytesStart::new(out.content))),
                OutputKind::EndTag => writer.write_event(Event::End(BytesEnd::new(out.content))),
            };
            written.expect("canonicalization shouldn't fail");
        }
    }
    String::from_utf8_lossy(&writer.into_inner().into_inner()).into_owned()
}

#[test]
fn example_3_1() {
    let input = r#"<?xml version="1.0"?>

<?xml-stylesheet   href="doc.xsl"
   type="text/xsl"   ?>

<!DOCTYPE doc SYSTEM "doc.dtd">

<doc>Hello, world!<!-- Comment 1 --></doc>

<?pi-without-data     ?>

<!-- Comment 2 -->

<!-- Comment 3 -->"#;

    let canonical_uncommented = r#"<?xml-stylesheet href="doc.xsl"
   type="text/xsl"   ?>
<doc>Hello, world!</doc>
<?pi-without-data?>"#;

    let canonical_commented = r#"<?xml-stylesheet href="doc.xsl"
   type="text/xsl"   ?>
<doc>Hello, world!<!-- Comment 1 --></doc>
<?pi-without-data?>
<!-- Comment 2 -->
<!-- Comment 3 -->"#;

    assert_eq!(canonicalize_str(input, true), canonical_commented);
    assert_eq!(canonicalize_str(input, false), canonical_uncommented);
}

#[test]
fn example_3_2() {
    let input = r#"<doc>
   <clean>   </clean>
   <dirty>   A   B   </dirty>
   <mixed>
      A
      <clean>   </clean>
      B
      <dirty>   A   B   </dirty>
      C
   </mixed>
</doc>"#;

    let canonical = r#"<doc>
   <clean>   </clean>
   <dirty>   A   B   </dirty>
   <mixed>
      A
      <clean>   </clean>
      B
      <dirty>   A   B   </dirty>
      C
   </mixed>
</doc>"#;

    assert_eq!(canonicalize_str(input, true), canonical);
}

#[test]
fn example_3_3() {
    let input = r#"<!DOCTYPE doc [<!ATTLIST e9 attr CDATA "default">]>
<doc>
   <e1   />
   <e2   ></e2>
   <e3   name = "elem3"   id="elem3"   />
   <e4   name="elem4"   id="elem4"   ></e4>
   <e5 a:attr="out" b:attr="sorted" attr2="all" attr="I'm"
      xmlns:b="http://www.ietf.org"
      xmlns:a="http://www.w3.org"
      xmlns="http://example.org"/>
   <e6 xmlns="" xmlns:a="http://www.w3.org">
      <e7 xmlns="http://www.ietf.org">
         <e8 xmlns="" xmlns:a="http://www.w3.org">
            <e9 xmlns="" xmlns:a="http://www.ietf.org"/>
         </e8>
      </e7>
   </e6>
</doc>"#;

    let canonical = r#"<doc>
   <e1></e1>
   <e2></e2>
   <e3 id="elem3" name="elem3"></e3>
   <e4 id="elem4" name="elem4"></e4>
   <e5 xmlns="http://example.org" xmlns:a="http://www.w3.org" xmlns:b="http://www.ietf.org" attr="I'm" attr2="all" b:attr="sorted" a:attr="out"></e5>
   <e6 xmlns:a="http://www.w3.org">
      <e7 xmlns="http://www.ietf.org">
         <e8 xmlns="">
            <e9 xmlns:a="http://www.ietf.org"></e9>
         </e8>
      </e7>
   </e6>
</doc>"#;

    assert_eq!(canonicalize_str(input, true), canonical);
}

#[test]
fn example_3_4() {
    let input = r#"<!DOCTYPE doc [
<!ATTLIST normId id ID #IMPLIED>
<!ATTLIST normNames attr NMTOKENS #IMPLIED>
]>
<doc>
   <text>First line&#x0d;&#10;Second line</text>
   <value>&#x32;</value>
   <compute><![CDATA[value>"0" && value<"10" ?"valid":"error"]]></compute>
   <compute expr='value>"0" &amp;&amp; value&lt;"10" ?"valid":"error"'>valid</compute>
   <norm attr=' &apos;   &#x20;&#13;&#xa;&#9;   &apos; '/>
</doc>"#;

    let canonical = r#"<doc>
   <text>First line&#xD;
Second line</text>
   <value>2</value>
   <compute>value&gt;"0" &amp;&amp; value&lt;"10" ?"valid":"error"</compute>
   <compute expr="value>&quot;0&quot; &amp;&amp; value&lt;&quot;10&quot; ?&quot;valid&quot;:&quot;error&quot;">valid</compute>
   <norm attr=" '    &#xD;&#xA;&#x9;   ' "></norm>
</doc>"#;

    assert_eq!(canonicalize_str(input, true), canonical);
}

#[test]
fn example_3_6() {
    let input = r#"<?xml version="1.0" encoding="ISO-8859-1"?>
<doc>&#169;</doc>"#;

    let canonical = r#"<doc>©</doc>"#;

    assert_eq!(canonicalize_str(input, true), canonical);
}

#[test]
fn from_to_str() {
    let input = r#"<test attr="valid"></test>"#;
    assert_eq!(canonicalize_str(input, false), r#"<test attr="valid"></test>"#);
}

#[test]
fn from_to_reader() {
    let input = r#"<test attr="valid"></test>"#;
    let output = canonicalize_reader(Reader::from_reader(Cursor::new(input)), false);
    assert_eq!(output, r#"<test attr="valid"></test>"#);
}

#[test]
fn comments_around_the_document_element() {
    let input = "<!--a-->\n<doc/>\n<!--b-->";
    assert_eq!(canonicalize_str(input, true), "<!--a-->\n<doc></doc>\n<!--b-->");
    assert_eq!(canonicalize_str(input, false), "<doc></doc>");
}
