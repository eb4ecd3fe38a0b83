//! The decisions of canonicalisation: what a stream of XML events becomes in
//! canonical form.
//!
//! Reading the events and writing the output is left to the caller, which
//! hands each event to [`Canonicalization::handle`] and writes the pieces of
//! output that it returns, in order.

use vstd::prelude::*;
use crate::text::{chars_of, push_all, string_of};
use crate::character_refs::{
    Situation, canonical_text, canonical_chars, refs_valid, references_are_valid,
    general_ref_text,
};
use crate::start::{
    UrlLevels, canonicalize_start_tag, parse_start_tag, start_tag_result, start_tag_supported,
    start_tag_is_supported, parse_start_tag_exec, default_key,
};
use crate::namespace::{DepthSensitiveMap, Namespace, drop_depth};

verus! {

broadcast use vstd::string::group_string_axioms;

/// An event of an XML document, with its content as text.
pub enum XmlEvent {
    /// The XML declaration.
    Decl,
    /// The document type declaration.
    DocType,
    /// A processing instruction: the text between `<?` and `?>`.
    ProcessingInstruction(String),
    /// A comment: the text between `<!--` and `-->`.
    Comment(String),
    /// Character data, as written in the document.
    Text(String),
    /// A CDATA section: the text between `<![CDATA[` and `]]>`.
    CData(String),
    /// A reference `&name;` in character data: the text between `&` and `;`.
    GeneralRef(String),
    /// A start tag: the text between `<` and `>`. An empty-element tag comes
    /// as a start tag followed by an end tag.
    Start(String),
    /// An end tag: the element's name.
    End(String),
    /// The end of the document.
    Eof,
}

/// The kinds of output that canonical form is made of.
#[derive(Clone, Copy, PartialEq, Eq, Structural, Debug)]
pub enum OutputKind {
    /// Character data, written as it is.
    Text,
    /// A processing instruction, written between `<?` and `?>`.
    ProcessingInstruction,
    /// A comment, written between `<!--` and `-->`.
    Comment,
    /// A start tag, written between `<` and `>`.
    StartTag,
    /// An end tag, written between `</` and `>`.
    EndTag,
}

/// A piece of canonical output.
pub struct Output {
    pub kind: OutputKind,
    pub content: String,
}

impl View for Output {
    type V = (OutputKind, Seq<char>);

    open spec fn view(&self) -> (OutputKind, Seq<char>) {
        (self.kind, self.content@)
    }
}

/// The views of pieces of output.
pub open spec fn outputs_view(out: Seq<Output>) -> Seq<(OutputKind, Seq<char>)> {
    out.map_values(|o: Output| o@)
}

/// The state of a canonicalisation.
pub struct Model {
    /// The number of elements open.
    pub depth: nat,
    /// Whether the document element has ended.
    pub after_root: bool,
    /// Character data read and not written yet; before the document
    /// element, the line feed that follows a comment or a processing
    /// instruction.
    pub text: Seq<char>,
    /// The namespace bindings by depth.
    pub namespaces: UrlLevels,
    /// Whether comments are kept.
    pub retain_comments: bool,
}

/// `^(\S+)(?:\s*( .*)|\s*$)`: the target of a processing instruction, the
/// white space after it, and the rest of its first line from the last space
/// of that white space on.
pub open spec fn pi_tidy_pattern() -> Seq<char> {
    seq![
        '^', '(', '\\', 'S', '+', ')', '(', '?', ':', '\\', 's', '*', '(', ' ', '.', '*', ')', '|',
        '\\', 's', '*', '$', ')',
    ]
}

/// `$1$2`: the first two groups of a match.
pub open spec fn pi_tidy_replacement() -> Seq<char> {
    seq!['$', '1', '$', '2']
}

/// The processing instruction `p` with the white space after its target
/// reduced, as the regular expression `^(\S+)(?:\s*( .*)|\s*$)` replaced by
/// `$1$2` gives it.
pub open spec fn tidy_pi(p: Seq<char>) -> Seq<char> {
    regex_replace_all_result(pi_tidy_pattern(), p, pi_tidy_replacement()).unwrap()
}

/// The text that `Regex::replace_all` returns for a pattern, a haystack and
/// a replacement, or `None` where the pattern does not compile.
pub uninterp spec fn regex_replace_all_result(
    pattern: Seq<char>,
    haystack: Seq<char>,
    replacement: Seq<char>,
) -> Option<Seq<char>>;

/// Compiles `pattern` with `regex::Regex::new` and replaces every match in
/// `haystack` with `replacement` by `Regex::replace_all`; `None` where the
/// pattern does not compile.
///
/// The result is named by `regex_replace_all_result`. For the pattern that
/// canonicalisation uses, the contract also states what the regex syntax
/// documentation gives: it compiles. What it does to a processing
/// instruction is left to the name.
#[verifier::external_body]
fn regex_replace_all(pattern: &str, haystack: &str, replacement: &str) -> (r: Option<String>)
    ensures
        r matches Some(s) ==> regex_replace_all_result(pattern@, haystack@, replacement@) == Some(s@),
        r is None ==> regex_replace_all_result(pattern@, haystack@, replacement@) is None,
        pattern@ == pi_tidy_pattern() && replacement@ == pi_tidy_replacement() ==> r is Some,
{
    match regex::Regex::new(pattern) {
        Ok(re) => Some(re.replace_all(haystack, replacement).into_owned()),
        Err(_) => None,
    }
}

/// `s` with each CR LF pair read as one LF.
pub open spec fn crlf_to_lf_from(s: Seq<char>, i: int) -> Seq<char>
    decreases s.len() - i,
{
    if i < 0 || i >= s.len() {
        Seq::empty()
    } else if s[i] == '\r' && i + 1 < s.len() && s[i + 1] == '\n' {
        seq!['\n'] + crlf_to_lf_from(s, i + 2)
    } else {
        seq![s[i]] + crlf_to_lf_from(s, i + 1)
    }
}

pub open spec fn crlf_to_lf(s: Seq<char>) -> Seq<char> {
    crlf_to_lf_from(s, 0)
}

/// The content of a CDATA section as character data: `&`, `<` and `>`
/// written as references.
pub open spec fn escape_cdata(s: Seq<char>) -> Seq<char>
    decreases s.len(),
{
    if s.len() == 0 {
        Seq::empty()
    } else {
        escape_cdata(s.drop_last()) + if s.last() == '&' {
            seq!['&', 'a', 'm', 'p', ';']
        } else if s.last() == '<' {
            seq!['&', 'l', 't', ';']
        } else if s.last() == '>' {
            seq!['&', 'g', 't', ';']
        } else {
            seq![s.last()]
        }
    }
}

/// Pending character data, written out if there is any.
pub open spec fn flush(text: Seq<char>) -> Seq<(OutputKind, Seq<char>)> {
    if text.len() == 0 {
        Seq::empty()
    } else {
        seq![(OutputKind::Text, text)]
    }
}

/// The state at the start: no element open, the default namespace bound to
/// the empty URI.
pub open spec fn initial_model(retain_comments: bool) -> Model {
    Model {
        depth: 0,
        after_root: false,
        text: Seq::empty(),
        namespaces: seq![Map::<Seq<char>, Seq<char>>::empty().insert(default_key(), Seq::empty())],
        retain_comments,
    }
}

/// The state with its pending character data replaced by `text`.
pub open spec fn with_text(m: Model, text: Seq<char>) -> Model {
    Model { text, ..m }
}

/// Character data added to the pending data. Outside the document element
/// there is no character data in canonical form, so it is dropped there.
pub open spec fn add_text(m: Model, added: Seq<char>) -> Model {
    if m.depth == 0 {
        m
    } else {
        with_text(m, m.text + added)
    }
}

/// A processing instruction or a comment, written after the pending
/// character data. Outside the document element, one line feed separates it
/// from the document element: after it where it comes before the document
/// element, before it where it comes after.
pub open spec fn node_step(m: Model, kind: OutputKind, content: Seq<char>) -> (Model, Seq<(OutputKind, Seq<char>)>) {
    if m.depth == 0 && m.after_root {
        (with_text(m, Seq::empty()), flush(m.text + seq!['\n']).push((kind, content)))
    } else if m.depth == 0 {
        (with_text(m, seq!['\n']), flush(m.text).push((kind, content)))
    } else {
        (with_text(m, Seq::empty()), flush(m.text).push((kind, content)))
    }
}

/// Whether the event can be handled in this state: the references in
/// character data denote characters, a start tag is one and can be put in
/// canonical form, an end tag closes an open element.
pub open spec fn accepts(m: Model, e: XmlEvent) -> bool {
    match e {
        XmlEvent::Text(t) => refs_valid(crlf_to_lf(t@)),
        XmlEvent::GeneralRef(b) => refs_valid(general_ref_text(b@)),
        XmlEvent::Start(s) => m.depth + 1 < usize::MAX && parse_start_tag(s@) is Some
            && start_tag_supported(s@, m.depth + 1, m.namespaces),
        XmlEvent::End(_) => m.depth > 0,
        _ => true,
    }
}

/// The state after an event and the output that the event gives.
pub open spec fn step(m: Model, e: XmlEvent) -> (Model, Seq<(OutputKind, Seq<char>)>) {
    match e {
        XmlEvent::ProcessingInstruction(p) => node_step(
            m,
            OutputKind::ProcessingInstruction,
            tidy_pi(p@),
        ),
        XmlEvent::Comment(c) => if m.retain_comments {
            node_step(m, OutputKind::Comment, c@)
        } else {
            (m, Seq::empty())
        },
        XmlEvent::Text(t) => (
            add_text(m, canonical_text(crlf_to_lf(t@), Situation::Content)),
            Seq::empty(),
        ),
        XmlEvent::CData(c) => (add_text(m, escape_cdata(c@)), Seq::empty()),
        XmlEvent::GeneralRef(b) => (
            add_text(m, canonical_text(general_ref_text(b@), Situation::Content)),
            Seq::empty(),
        ),
        XmlEvent::Start(s) => match start_tag_result(s@, m.depth + 1, m.namespaces) {
            Some((tag, levels)) => (
                Model { depth: m.depth + 1, text: Seq::empty(), namespaces: levels, ..m },
                flush(m.text).push((OutputKind::StartTag, tag)),
            ),
            None => (m, Seq::empty()),
        },
        XmlEvent::End(name) => (
            Model {
                depth: (m.depth - 1) as nat,
                after_root: m.after_root || m.depth == 1,
                text: Seq::empty(),
                namespaces: drop_depth(m.namespaces, m.depth),
                ..m
            },
            flush(m.text).push((OutputKind::EndTag, name@)),
        ),
        _ => (m, Seq::empty()),
    }
}

/// A canonicalisation in progress: the state that the events of a document
/// lead to, one event at a time.
pub struct Canonicalization {
    depth: usize,
    after_root: bool,
    text_buf: Vec<char>,
    namespaces: DepthSensitiveMap<Namespace>,
    retain_comments: bool,
}

impl View for Canonicalization {
    type V = Model;

    closed spec fn view(&self) -> Model {
        Model {
            depth: self.depth as nat,
            after_root: self.after_root,
            text: self.text_buf@,
            namespaces: self.namespaces@,
            retain_comments: self.retain_comments,
        }
    }
}

/// `s` with each CR LF pair read as one LF.
fn crlf_to_lf_exec(s: &Vec<char>) -> (r: Vec<char>)
    ensures
        r@ == crlf_to_lf(s@),
{
    let mut r: Vec<char> = Vec::new();
    let mut i: usize = 0;
    while i < s.len()
        invariant
            i <= s.len(),
            r@ + crlf_to_lf_from(s@, i as int) == crlf_to_lf(s@),
        decreases s.len() - i,
    {
        let ghost before = r@;
        if s[i] == '\r' && i + 1 < s.len() && s[i + 1] == '\n' {
            r.push('\n');
            assert(r@ + crlf_to_lf_from(s@, i + 2) =~= before + crlf_to_lf_from(s@, i as int));
            i = i + 2;
        } else {
            r.push(s[i]);
            assert(r@ + crlf_to_lf_from(s@, i + 1) =~= before + crlf_to_lf_from(s@, i as int));
            i = i + 1;
        }
    }
    assert(r@ + Seq::<char>::empty() =~= r@);
    r
}

/// The content of a CDATA section as character data.
fn escape_cdata_exec(s: &Vec<char>) -> (r: Vec<char>)
    ensures
        r@ == escape_cdata(s@),
{
    let mut r: Vec<char> = Vec::new();
    let mut i: usize = 0;
    while i < s.len()
        invariant
            i <= s.len(),
            r@ == escape_cdata(s@.take(i as int)),
        decreases s.len() - i,
    {
        let c = s[i];
        if c == '&' {
            push_all(&mut r, &['&', 'a', 'm', 'p', ';']);
        } else if c == '<' {
            push_all(&mut r, &['&', 'l', 't', ';']);
        } else if c == '>' {
            push_all(&mut r, &['&', 'g', 't', ';']);
        } else {
            push_all(&mut r, &[c]);
        }
        assert(s@.take(i + 1).drop_last() =~= s@.take(i as int));
        i = i + 1;
    }
    assert(s@.take(i as int) =~= s@);
    r
}

impl Canonicalization {
    /// A canonicalisation at the start of a document, which keeps comments
    /// where `retain_comments` is set.
    pub fn new(retain_comments: bool) -> (c: Self)
        ensures
            c@ == initial_model(retain_comments),
    {
        let mut namespaces = DepthSensitiveMap::new();
        let key = "=";
        proof {
            reveal_strlit("=");
        }
        assert(key@ =~= default_key());
        namespaces.insert_at_depth(0, key, Namespace { url: String::new() });
        let c = Canonicalization {
            depth: 0,
            after_root: false,
            text_buf: Vec::new(),
            namespaces,
            retain_comments,
        };
        assert(c@.namespaces =~= initial_model(retain_comments).namespaces);
        assert(c@.text =~= Seq::<char>::empty());
        c
    }

    /// Writes out the pending character data, if there is any.
    fn flush_text(&mut self, out: &mut Vec<Output>)
        ensures
            final(self)@ == with_text(old(self)@, Seq::empty()),
            outputs_view(final(out)@) == outputs_view(old(out)@) + flush(old(self)@.text),
    {
        let ghost before = outputs_view(out@);
        if self.text_buf.len() > 0 {
            let content = string_of(&self.text_buf);
            out.push(Output { kind: OutputKind::Text, content });
            assert(outputs_view(out@) =~= before + flush(old(self)@.text));
        } else {
            assert(outputs_view(out@) =~= before + flush(old(self)@.text));
        }
        self.text_buf = Vec::new();
        assert(self@.text =~= Seq::<char>::empty());
    }

    /// Whether `event` can be handled now.
    pub fn accepts_event(&self, event: &XmlEvent) -> (r: bool)
        ensures
            r == accepts(self@, *event),
    {
        match event {
            XmlEvent::Text(t) => {
                let chars = chars_of(t.as_str());
                let lf = crlf_to_lf_exec(&chars);
                references_are_valid(&lf)
            },
            XmlEvent::GeneralRef(b) => {
                let mut chars: Vec<char> = Vec::new();
                chars.push('&');
                let name = chars_of(b.as_str());
                push_all(&mut chars, name.as_slice());
                chars.push(';');
                assert(chars@ =~= general_ref_text(b@));
                references_are_valid(&chars)
            },
            XmlEvent::Start(s) => {
                if self.depth >= usize::MAX - 1 {
                    return false;
                }
                let chars = chars_of(s.as_str());
                if parse_start_tag_exec(&chars).is_none() {
                    return false;
                }
                start_tag_is_supported(s.as_str(), self.depth + 1, &self.namespaces)
            },
            XmlEvent::End(_) => self.depth > 0,
            _ => true,
        }
    }

    /// Writes a processing instruction or a comment, with the line feed that
    /// separates it from the document element where it stands outside it.
    fn write_node(&mut self, kind: OutputKind, content: String) -> (out: Vec<Output>)
        ensures
            (final(self)@, outputs_view(out@)) == node_step(old(self)@, kind, content@),
    {
        let mut out: Vec<Output> = Vec::new();
        assert(outputs_view(out@) =~= Seq::<(OutputKind, Seq<char>)>::empty());
        if self.depth == 0 && self.after_root {
            self.text_buf.push('\n');
            assert(self.text_buf@ =~= old(self)@.text + seq!['\n']);
        }
        self.flush_text(&mut out);
        if self.depth == 0 && !self.after_root {
            self.text_buf.push('\n');
            assert(self.text_buf@ =~= seq!['\n']);
        }
        let ghost before = outputs_view(out@);
        let ghost cv = content@;
        out.push(Output { kind, content });
        assert(outputs_view(out@) =~= before.push((kind, cv)));
        out
    }

    /// Handles a processing instruction whose white space has been reduced
    /// to `tidied`.
    pub fn handle_tidied_pi(&mut self, tidied: String) -> (out: Vec<Output>)
        ensures
            (final(self)@, outputs_view(out@)) == node_step(
                old(self)@,
                OutputKind::ProcessingInstruction,
                tidied@,
            ),
    {
        self.write_node(OutputKind::ProcessingInstruction, tidied)
    }

    /// Handles one event: updates the state and returns the output that the
    /// event gives, in order.
    pub fn handle(&mut self, event: XmlEvent) -> (out: Vec<Output>)
        requires
            accepts(old(self)@, event),
        ensures
            (final(self)@, outputs_view(out@)) == step(old(self)@, event),
    {
        let mut out: Vec<Output> = Vec::new();
        assert(outputs_view(out@) =~= Seq::<(OutputKind, Seq<char>)>::empty());
        match event {
            XmlEvent::ProcessingInstruction(p) => {
                let pattern = r"^(\S+)(?:\s*( .*)|\s*$)";
                let replacement = "$1$2";
                proof {
                    reveal_strlit(r"^(\S+)(?:\s*( .*)|\s*$)");
                    reveal_strlit("$1$2");
                }
                assert(pattern@ =~= pi_tidy_pattern());
                assert(replacement@ =~= pi_tidy_replacement());
                let tidied = match regex_replace_all(pattern, p.as_str(), replacement) {
                    Some(t) => t,
                    None => {
                        assert(false);
                        String::new()
                    },
                };
                return self.handle_tidied_pi(tidied);
            },
            XmlEvent::Comment(c) => {
                if self.retain_comments {
                    return self.write_node(OutputKind::Comment, c);
                }
            },
            XmlEvent::Text(t) => {
                if self.depth > 0 {
                    let chars = chars_of(t.as_str());
                    let lf = crlf_to_lf_exec(&chars);
                    let canon = canonical_chars(&lf, Situation::Content);
                    push_all(&mut self.text_buf, canon.as_slice());
                }
            },
            XmlEvent::CData(c) => {
                if self.depth > 0 {
                    let chars = chars_of(c.as_str());
                    let escaped = escape_cdata_exec(&chars);
                    push_all(&mut self.text_buf, escaped.as_slice());
                }
            },
            XmlEvent::GeneralRef(b) => {
                if self.depth > 0 {
                    let mut chars: Vec<char> = Vec::new();
                    chars.push('&');
                    let name = chars_of(b.as_str());
                    push_all(&mut chars, name.as_slice());
                    chars.push(';');
                    assert(chars@ =~= general_ref_text(b@));
                    let canon = canonical_chars(&chars, Situation::Content);
                    push_all(&mut self.text_buf, canon.as_slice());
                }
            },
            XmlEvent::Start(s) => {
                self.depth = self.depth + 1;
                self.flush_text(&mut out);
                let tag = match canonicalize_start_tag(s.as_str(), self.depth, &mut self.namespaces) {
                    Ok(tag) => tag,
                    Err(_) => {
                        assert(false);
                        String::new()
                    },
                };
                let ghost before = outputs_view(out@);
                let ghost tv = tag@;
                out.push(Output { kind: OutputKind::StartTag, content: tag });
                assert(outputs_view(out@) =~= before.push((OutputKind::StartTag, tv)));
            },
            XmlEvent::End(name) => {
                self.namespaces.remove_depth(self.depth);
                if self.depth == 1 {
                    self.after_root = true;
                }
                self.depth = self.depth - 1;
                self.flush_text(&mut out);
                let ghost before = outputs_view(out@);
                let ghost nv = name@;
                out.push(Output { kind: OutputKind::EndTag, content: name });
                assert(outputs_view(out@) =~= before.push((OutputKind::EndTag, nv)));
            },
            _ => {},
        }
        out
    }
}

} // verus!
