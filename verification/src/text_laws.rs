//! What canonical form keeps of character data: every character that it
//! need not escape is written as itself, line ends are the only thing that
//! text content loses, and a CDATA section is its content with `&`, `<` and
//! `>` escaped.

use vstd::prelude::*;
use crate::character_refs::{Situation, canonical_text, canonical_from, reference_at, char_replacement};
use crate::canonicalizer::{Model, XmlEvent, step, crlf_to_lf, crlf_to_lf_from, escape_cdata};

verus! {

/// A character that canonical character data writes as itself in
/// `situation`: anything but `&`, `<` and carriage return; in text content
/// also anything but `>`, in attribute values anything but `"`, tab and
/// line feed.
pub open spec fn written_as_itself(c: char, situation: Situation) -> bool {
    &&& c != '&'
    &&& c != '<'
    &&& c != '\r'
    &&& situation == Situation::Content ==> c != '>'
    &&& situation == Situation::Attribute ==> c != '"' && c != '\t' && c != '\n'
}

proof fn lemma_plain_from(s: Seq<char>, i: int, situation: Situation)
    requires
        0 <= i <= s.len(),
        forall|k: int| 0 <= k < s.len() ==> written_as_itself(#[trigger] s[k], situation),
    ensures
        canonical_from(s, i, situation) == s.skip(i),
    decreases s.len() - i,
{
    if i < s.len() {
        lemma_plain_from(s, i + 1, situation);
        assert(written_as_itself(s[i], situation));
        assert(reference_at(s, i) is None);
        assert(char_replacement(s[i], situation) == seq![s[i]]);
        assert(seq![s[i]] + s.skip(i + 1) =~= s.skip(i));
    } else {
        assert(s.skip(i) =~= Seq::<char>::empty());
    }
}

/// Character data made only of characters that need no escaping is its own
/// canonical form: nothing else is replaced, dropped or added.
pub proof fn law_plain_text_unchanged(s: Seq<char>, situation: Situation)
    requires
        forall|k: int| 0 <= k < s.len() ==> written_as_itself(#[trigger] s[k], situation),
    ensures
        canonical_text(s, situation) == s,
{
    lemma_plain_from(s, 0, situation);
    assert(s.skip(0) =~= s);
}

proof fn lemma_no_cr_from(s: Seq<char>, i: int)
    requires
        0 <= i <= s.len(),
        forall|k: int| 0 <= k < s.len() ==> #[trigger] s[k] != '\r',
    ensures
        crlf_to_lf_from(s, i) == s.skip(i),
    decreases s.len() - i,
{
    if i < s.len() {
        lemma_no_cr_from(s, i + 1);
        assert(seq![s[i]] + s.skip(i + 1) =~= s.skip(i));
    } else {
        assert(s.skip(i) =~= Seq::<char>::empty());
    }
}

/// Line-end normalisation changes nothing but carriage returns: text
/// without one is left as it is.
pub proof fn law_line_ends_only(s: Seq<char>)
    requires
        forall|k: int| 0 <= k < s.len() ==> #[trigger] s[k] != '\r',
    ensures
        crlf_to_lf(s) == s,
{
    lemma_no_cr_from(s, 0);
    assert(s.skip(0) =~= s);
}

/// A carriage return followed by a line feed is read as one line feed, and
/// the text around the pair is read as it would be alone.
pub proof fn law_crlf_read_as_lf(a: Seq<char>, b: Seq<char>)
    requires
        forall|k: int| 0 <= k < a.len() ==> #[trigger] a[k] != '\r',
    ensures
        crlf_to_lf(a + seq!['\r', '\n'] + b) == a + seq!['\n'] + crlf_to_lf(b),
{
    let s = a + seq!['\r', '\n'] + b;
    let t = a.len() as int;
    assert(a =~= s.take(t));
    lemma_prefix_no_cr(s, a, 0);
    assert(s[t] == '\r' && s[t + 1] == '\n');
    assert(b =~= s.skip(t + 2));
    lemma_suffix_from(s, b, t + 2, 0);
    assert(a.skip(0) =~= a);
    assert(crlf_to_lf_from(s, t) == seq!['\n'] + crlf_to_lf_from(s, t + 2));
    assert(b.skip(0) =~= b);
}

/// Reading from inside a prefix without carriage returns copies it.
proof fn lemma_prefix_no_cr(s: Seq<char>, a: Seq<char>, i: int)
    requires
        0 <= i <= a.len(),
        a.len() <= s.len(),
        a == s.take(a.len() as int),
        forall|k: int| 0 <= k < a.len() ==> #[trigger] a[k] != '\r',
    ensures
        crlf_to_lf_from(s, i) == a.skip(i) + crlf_to_lf_from(s, a.len() as int),
    decreases a.len() - i,
{
    if i < a.len() {
        lemma_prefix_no_cr(s, a, i + 1);
        assert(s[i] == a[i]);
        assert(seq![a[i]] + a.skip(i + 1) =~= a.skip(i));
        assert(seq![a[i]] + (a.skip(i + 1) + crlf_to_lf_from(s, a.len() as int)) =~= a.skip(i)
            + crlf_to_lf_from(s, a.len() as int));
    } else {
        assert(a.skip(i) + crlf_to_lf_from(s, a.len() as int) =~= crlf_to_lf_from(s, a.len() as int));
    }
}

/// Reading a suffix of a text is reading that suffix alone.
proof fn lemma_suffix_from(s: Seq<char>, b: Seq<char>, off: int, i: int)
    requires
        0 <= off,
        off + b.len() == s.len(),
        b == s.skip(off),
        0 <= i <= b.len(),
    ensures
        crlf_to_lf_from(s, off + i) == crlf_to_lf_from(b, i),
    decreases b.len() - i,
{
    if i < b.len() {
        assert(s[off + i] == b[i]);
        if i + 1 < b.len() {
            assert(s[off + i + 1] == b[i + 1]);
        }
        lemma_suffix_from(s, b, off, i + 1);
        if i + 2 <= b.len() {
            lemma_suffix_from(s, b, off, i + 2);
        }
    }
}

/// Escaping a CDATA section works character by character: the escape of a
/// concatenation is the concatenation of the escapes.
pub proof fn law_cdata_escape_concat(a: Seq<char>, b: Seq<char>)
    ensures
        escape_cdata(a + b) == escape_cdata(a) + escape_cdata(b),
    decreases b.len(),
{
    if b.len() == 0 {
        assert(a + b =~= a);
        assert(escape_cdata(a) + escape_cdata(b) =~= escape_cdata(a));
    } else {
        law_cdata_escape_concat(a, b.drop_last());
        assert((a + b).drop_last() =~= a + b.drop_last());
        assert((a + b).last() == b.last());
    }
}

/// What escaping a CDATA section makes of each character: `&`, `<` and `>`
/// become `&amp;`, `&lt;` and `&gt;`, any other character stays itself.
pub proof fn law_cdata_escape_char(c: char)
    ensures
        c == '&' ==> escape_cdata(seq![c]) == seq!['&', 'a', 'm', 'p', ';'],
        c == '<' ==> escape_cdata(seq![c]) == seq!['&', 'l', 't', ';'],
        c == '>' ==> escape_cdata(seq![c]) == seq!['&', 'g', 't', ';'],
        c != '&' && c != '<' && c != '>' ==> escape_cdata(seq![c]) == seq![c],
{
    assert(seq![c].drop_last() =~= Seq::<char>::empty());
    assert(escape_cdata(Seq::<char>::empty()) == Seq::<char>::empty());
    assert(Seq::<char>::empty() + seq!['&', 'a', 'm', 'p', ';'] =~= seq!['&', 'a', 'm', 'p', ';']);
    assert(Seq::<char>::empty() + seq!['&', 'l', 't', ';'] =~= seq!['&', 'l', 't', ';']);
    assert(Seq::<char>::empty() + seq!['&', 'g', 't', ';'] =~= seq!['&', 'g', 't', ';']);
    assert(Seq::<char>::empty() + seq![c] =~= seq![c]);
}

/// A CDATA section without `&`, `<` and `>` is written as it stands.
pub proof fn law_cdata_plain_unchanged(s: Seq<char>)
    requires
        forall|k: int| 0 <= k < s.len() ==> #[trigger] s[k] != '&' && s[k] != '<' && s[k] != '>',
    ensures
        escape_cdata(s) == s,
    decreases s.len(),
{
    if s.len() > 0 {
        let init = s.drop_last();
        assert forall|k: int| 0 <= k < init.len() implies #[trigger] init[k] != '&' && init[k] != '<' && init[k] != '>' by {
            assert(init[k] == s[k]);
        }
        law_cdata_plain_unchanged(init);
        assert(s.last() == s[s.len() - 1]);
        assert(init + seq![s.last()] =~= s);
    }
}

/// Inside the document element, text content that needs no escaping and
/// holds no carriage return is kept exactly, tabs and line feeds included,
/// and writes nothing yet.
pub proof fn law_text_content_kept(m: Model, t: String)
    requires
        m.depth > 0,
        forall|k: int| 0 <= k < t@.len() ==> written_as_itself(#[trigger] t@[k], Situation::Content),
    ensures
        step(m, XmlEvent::Text(t)).0.text == m.text + t@,
        step(m, XmlEvent::Text(t)).1.len() == 0,
{
    law_line_ends_only(t@);
    law_plain_text_unchanged(t@, Situation::Content);
}

/// Inside the document element, a CDATA section without `&`, `<` and `>`
/// adds its content exactly, line feeds and all, to the text.
pub proof fn law_cdata_content_kept(m: Model, c: String)
    requires
        m.depth > 0,
        forall|k: int| 0 <= k < c@.len() ==> #[trigger] c@[k] != '&' && c@[k] != '<' && c@[k] != '>',
    ensures
        step(m, XmlEvent::CData(c)).0.text == m.text + c@,
        step(m, XmlEvent::CData(c)).1.len() == 0,
{
    law_cdata_plain_unchanged(c@);
}

} // verus!
