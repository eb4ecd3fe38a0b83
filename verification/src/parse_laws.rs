//! What the grammar of start tags accepts: a name, then attributes written
//! ` name="value"`, where a name is any run of characters other than white
//! space, `=`, quotes, `<`, `>` and `/`.

use vstd::prelude::*;
use crate::text::is_unicode_space;
use crate::start::{
    RawAttribute, CharClass, in_class, scan, parse_start_tag, parse_attributes, parse_attribute,
    format_attributes, normalized_value, normalized_from,
};

verus! {

/// A character that may stand in a name: anything but white space, `=`,
/// a quote, `<`, `>` and `/`. Letters, digits, `-`, `.`, `_` and `:` are
/// among them.
pub open spec fn name_char(c: char) -> bool {
    !is_unicode_space(c) && c != '=' && c != '"' && c != '\'' && c != '<' && c != '>' && c != '/'
}

/// A non-empty run of name characters.
pub open spec fn is_name(n: Seq<char>) -> bool {
    n.len() > 0 && forall|k: int| 0 <= k < n.len() ==> name_char(#[trigger] n[k])
}

/// An attribute that can be written ` name="value"`: its name is a name and
/// its value holds no `"`.
pub open spec fn writable_attribute(a: RawAttribute) -> bool {
    is_name(a.0) && forall|k: int| 0 <= k < a.1.len() ==> #[trigger] a.1[k] != '"'
}

/// The attributes written one after the other, each as ` name="value"`.
pub open spec fn attributes_text(attrs: Seq<RawAttribute>) -> Seq<char>
    decreases attrs.len(),
{
    if attrs.len() == 0 {
        Seq::empty()
    } else {
        seq![' '] + attrs[0].0 + seq!['=', '"'] + attrs[0].1 + seq!['"'] + attributes_text(attrs.drop_first())
    }
}

/// A run of characters of `class` from `i` to `j`, followed by none, is
/// what `scan` finds.
proof fn lemma_scan_to(s: Seq<char>, i: int, j: int, class: CharClass)
    requires
        0 <= i <= j <= s.len(),
        forall|k: int| i <= k < j ==> in_class(#[trigger] s[k], class),
        j == s.len() || !in_class(s[j], class),
    ensures
        scan(s, i, class) == j,
    decreases j - i,
{
    if i < j {
        lemma_scan_to(s, i + 1, j, class);
    }
}

/// Written attributes, from where they start, are read back as written.
proof fn lemma_attributes_read(s: Seq<char>, off: int, attrs: Seq<RawAttribute>)
    requires
        0 <= off <= s.len(),
        s.skip(off) == attributes_text(attrs),
        forall|i: int| 0 <= i < attrs.len() ==> writable_attribute(#[trigger] attrs[i]),
    ensures
        parse_attributes(s, off) == Some(attrs),
    decreases attrs.len(),
{
    if attrs.len() == 0 {
        assert(s.skip(off).len() == 0);
        assert(scan(s, off, CharClass::Space) == off);
        assert(attrs =~= Seq::<RawAttribute>::empty());
    } else {
        let a = attrs[0];
        let rest = attrs.drop_first();
        assert(writable_attribute(a));
        let n0 = a.0.len() as int;
        let v0 = a.1.len() as int;
        let t = s.skip(off);
        assert(t =~= seq![' '] + a.0 + seq!['=', '"'] + a.1 + seq!['"'] + attributes_text(rest));
        let j = off + 1;
        let e1 = j + n0;
        let m = e1 + 1;
        let e2 = m + 1 + v0;
        assert(s.len() == off + t.len());
        assert forall|k: int| 0 <= k < t.len() implies s[off + k] == #[trigger] t[k] by {}
        assert(s[off] == ' ') by {
            assert(t[0] == ' ');
        }
        assert forall|k: int| j <= k < e1 implies in_class(#[trigger] s[k], CharClass::Name) by {
            assert(t[k - off] == a.0[k - j]);
            assert(s[k] == t[k - off]);
            assert(name_char(a.0[k - j]));
        }
        assert(s[j] == a.0[0]) by {
            assert(t[1] == a.0[0]);
        }
        assert(name_char(a.0[0]));
        assert(s[e1] == '=') by {
            assert(t[1 + n0] == '=');
        }
        assert(s[m] == '"') by {
            assert(t[2 + n0] == '"');
        }
        assert forall|k: int| m + 1 <= k < e2 implies in_class(#[trigger] s[k], CharClass::NotDoubleQuote) by {
            assert(t[k - off] == a.1[k - m - 1]);
            assert(s[k] == t[k - off]);
        }
        assert(s[e2] == '"') by {
            assert(t[3 + n0 + v0] == '"');
        }
        lemma_scan_to(s, off, j, CharClass::Space);
        lemma_scan_to(s, j, e1, CharClass::Name);
        lemma_scan_to(s, e1, e1, CharClass::Space);
        lemma_scan_to(s, m, m, CharClass::Space);
        lemma_scan_to(s, m + 1, e2, CharClass::NotDoubleQuote);
        assert(s.subrange(j, e1) =~= a.0) by {
            assert forall|k: int| 0 <= k < n0 implies s.subrange(j, e1)[k] == a.0[k] by {
                assert(t[1 + k] == a.0[k]);
            }
        }
        assert(s.subrange(m + 1, e2) =~= a.1) by {
            assert forall|k: int| 0 <= k < v0 implies s.subrange(m + 1, e2)[k] == a.1[k] by {
                assert(t[3 + n0 + k] == a.1[k]);
            }
        }
        assert(parse_attribute(s, j) == Some((a, e2 + 1)));
        assert(s.skip(e2 + 1) =~= attributes_text(rest)) by {
            assert forall|k: int| 0 <= k < s.skip(e2 + 1).len() implies s.skip(e2 + 1)[k]
                == attributes_text(rest)[k] by {
                assert(t[4 + n0 + v0 + k] == attributes_text(rest)[k]);
            }
        }
        assert forall|i: int| 0 <= i < rest.len() implies writable_attribute(#[trigger] rest[i]) by {
            assert(rest[i] == attrs[i + 1]);
        }
        lemma_attributes_read(s, e2 + 1, rest);
        assert(seq![a] + rest =~= attrs);
    }
}

/// A start tag written as a name followed by attributes ` name="value"` is
/// read back as that name and those attributes, in the order written.
pub proof fn law_written_tag_parses(name: Seq<char>, attrs: Seq<RawAttribute>)
    requires
        is_name(name),
        forall|i: int| 0 <= i < attrs.len() ==> writable_attribute(#[trigger] attrs[i]),
    ensures
        parse_start_tag(name + attributes_text(attrs)) == Some((name, attrs)),
{
    let s = name + attributes_text(attrs);
    let n = name.len() as int;
    assert forall|k: int| 0 <= k < n implies in_class(#[trigger] s[k], CharClass::Name) by {
        assert(s[k] == name[k]);
    }
    if attrs.len() > 0 {
        assert(attributes_text(attrs)[0] == ' ');
        assert(s[n] == ' ');
    }
    lemma_scan_to(s, 0, n, CharClass::Name);
    assert(s.skip(n) =~= attributes_text(attrs));
    lemma_attributes_read(s, n, attrs);
    assert(s.subrange(0, n) =~= name);
}


/// ` name="value"` for one attribute.
pub open spec fn attribute_text(a: RawAttribute) -> Seq<char> {
    seq![' '] + a.0 + seq!['=', '"'] + a.1 + seq!['"']
}

proof fn lemma_attributes_text_push(attrs: Seq<RawAttribute>, x: RawAttribute)
    ensures
        attributes_text(attrs.push(x)) == attributes_text(attrs) + attribute_text(x),
    decreases attrs.len(),
{
    if attrs.len() == 0 {
        assert(attrs.push(x).drop_first() =~= Seq::<RawAttribute>::empty());
        assert(attrs.push(x)[0] == x);
        assert(attributes_text(attrs.push(x)) =~= attribute_text(x) + attributes_text(Seq::<RawAttribute>::empty()));
        assert(attributes_text(attrs.push(x)) =~= attribute_text(x));
        assert(attributes_text(attrs) + attribute_text(x) =~= attribute_text(x));
    } else {
        lemma_attributes_text_push(attrs.drop_first(), x);
        assert(attrs.push(x).drop_first() =~= attrs.drop_first().push(x));
        assert(attrs.push(x)[0] == attrs[0]);
        assert(attributes_text(attrs.push(x)) =~= attributes_text(attrs) + attribute_text(x));
    }
}

/// The canonical tag writes its attributes as a tag is written: each one
/// as a space, its name, `="`, its value and `"`, in order, and nothing
/// else.
pub proof fn law_attributes_written_form(attrs: Seq<RawAttribute>)
    ensures
        format_attributes(attrs) == attributes_text(attrs),
    decreases attrs.len(),
{
    if attrs.len() > 0 {
        law_attributes_written_form(attrs.drop_last());
        lemma_attributes_text_push(attrs.drop_last(), attrs.last());
        assert(attrs.drop_last().push(attrs.last()) =~= attrs);
        assert(format_attributes(attrs) =~= format_attributes(attrs.drop_last()) + attribute_text(attrs.last()));
    }
}

proof fn lemma_normalized_plain_from(v: Seq<char>, i: int)
    requires
        0 <= i <= v.len(),
        forall|k: int| 0 <= k < v.len() ==> #[trigger] v[k] != '\t' && v[k] != '\n' && v[k] != '\r',
    ensures
        normalized_from(v, i) == v.skip(i),
    decreases v.len() - i,
{
    if i < v.len() {
        lemma_normalized_plain_from(v, i + 1);
        assert(seq![v[i]] + v.skip(i + 1) =~= v.skip(i));
    } else {
        assert(v.skip(i) =~= Seq::<char>::empty());
    }
}

/// Attribute-value normalisation touches only tabs, line feeds and carriage
/// returns: a value without them is left as it is.
pub proof fn law_normalization_keeps_other_characters(v: Seq<char>)
    requires
        forall|k: int| 0 <= k < v.len() ==> #[trigger] v[k] != '\t' && v[k] != '\n' && v[k] != '\r',
    ensures
        normalized_value(v) == v,
{
    lemma_normalized_plain_from(v, 0);
    assert(v.skip(0) =~= v);
}

/// In attribute-value normalisation, a tab, a line feed, a lone carriage
/// return and a carriage return followed by a line feed each become one
/// space, wherever they stand between other characters.
pub proof fn law_normalization_white_space(a: Seq<char>, w: Seq<char>, b: Seq<char>)
    requires
        forall|k: int| 0 <= k < a.len() ==> #[trigger] a[k] != '\t' && a[k] != '\n' && a[k] != '\r',
        forall|k: int| 0 <= k < b.len() ==> #[trigger] b[k] != '\t' && b[k] != '\n' && b[k] != '\r',
        w == seq!['\t'] || w == seq!['\n'] || w == seq!['\r'] || w == seq!['\r', '\n'],
    ensures
        normalized_value(a + w + b) == a + seq![' '] + b,
{
    let s = a + w + b;
    let t = a.len() as int;
    assert(a =~= s.take(t));
    lemma_normalized_prefix(s, a, 0);
    assert(s[t] == w[0]);
    if w.len() == 2 {
        assert(s[t + 1] == '\n');
    } else if t + 1 < s.len() {
        assert(s[t + 1] == b[0]);
    }
    let off = t + w.len();
    assert(b =~= s.skip(off));
    lemma_normalized_suffix(s, b, off, 0);
    assert(b.skip(0) =~= b);
    lemma_normalized_plain_from(b, 0);
    assert(normalized_from(s, t) == seq![' '] + normalized_from(s, off));
    assert(a.skip(0) =~= a);
    assert(a + (seq![' '] + b) =~= a + seq![' '] + b);
}

proof fn lemma_normalized_prefix(s: Seq<char>, a: Seq<char>, i: int)
    requires
        0 <= i <= a.len(),
        a.len() <= s.len(),
        a == s.take(a.len() as int),
        forall|k: int| 0 <= k < a.len() ==> #[trigger] a[k] != '\t' && a[k] != '\n' && a[k] != '\r',
    ensures
        normalized_from(s, i) == a.skip(i) + normalized_from(s, a.len() as int),
    decreases a.len() - i,
{
    if i < a.len() {
        lemma_normalized_prefix(s, a, i + 1);
        assert(s[i] == a[i]);
        assert(seq![a[i]] + (a.skip(i + 1) + normalized_from(s, a.len() as int)) =~= a.skip(i)
            + normalized_from(s, a.len() as int));
    } else {
        assert(a.skip(i) + normalized_from(s, a.len() as int) =~= normalized_from(s, a.len() as int));
    }
}

proof fn lemma_normalized_suffix(s: Seq<char>, b: Seq<char>, off: int, i: int)
    requires
        0 <= off,
        off + b.len() == s.len(),
        b == s.skip(off),
        0 <= i <= b.len(),
    ensures
        normalized_from(s, off + i) == normalized_from(b, i),
    decreases b.len() - i,
{
    if i < b.len() {
        assert(s[off + i] == b[i]);
        if i + 1 < b.len() {
            assert(s[off + i + 1] == b[i + 1]);
        }
        lemma_normalized_suffix(s, b, off, i + 1);
        if i + 2 <= b.len() {
            lemma_normalized_suffix(s, b, off, i + 2);
        }
    }
}

} // verus!
