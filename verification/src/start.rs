//! Canonical form of start tags: attribute values in canonical form,
//! superfluous namespace declarations removed, attributes in canonical order.

use vstd::prelude::*;
use crate::text::{chars_of, push_all, string_of, seq_lt, chars_lt, chars_eq, is_unicode_space, is_unicode_space_exec};
use crate::character_refs::{Situation, canonical_text, canonical_chars, refs_valid, references_are_valid};
use crate::namespace::{DepthSensitiveMap, Namespace, merged, bind_at};
use std::cmp::Ordering;

verus! {

/// The classes of characters that the start-tag grammar distinguishes.
#[derive(Clone, Copy, PartialEq, Eq, Structural, Debug)]
pub enum CharClass {
    /// White space between the parts of a tag: space, tab, CR, LF.
    Space,
    /// A character of a name.
    Name,
    /// A character of an unquoted attribute value.
    Bare,
    /// Anything but a double quote.
    NotDoubleQuote,
    /// Anything but a single quote.
    NotSingleQuote,
}

pub open spec fn in_class(c: char, class: CharClass) -> bool {
    match class {
        CharClass::Space => c == ' ' || c == '\t' || c == '\r' || c == '\n',
        CharClass::Name => !is_unicode_space(c) && c != '=' && c != '"' && c != '\'' && c != '<'
            && c != '>' && c != '/',
        CharClass::Bare => !is_unicode_space(c) && c != '"' && c != '\'' && c != '<' && c != '>',
        CharClass::NotDoubleQuote => c != '"',
        CharClass::NotSingleQuote => c != '\'',
    }
}

/// The end of the run of characters of `class` that starts at `i`.
pub open spec fn scan(s: Seq<char>, i: int, class: CharClass) -> int
    decreases s.len() - i,
{
    if i < 0 || i >= s.len() || !in_class(s[i], class) {
        i
    } else {
        scan(s, i + 1, class)
    }
}

pub proof fn lemma_scan(s: Seq<char>, i: int, class: CharClass)
    requires
        0 <= i <= s.len(),
    ensures
        i <= scan(s, i, class) <= s.len(),
        forall|k: int| i <= k < scan(s, i, class) ==> in_class(#[trigger] s[k], class),
        scan(s, i, class) < s.len() ==> !in_class(s[scan(s, i, class)], class),
    decreases s.len() - i,
{
    if i < s.len() && in_class(s[i], class) {
        lemma_scan(s, i + 1, class);
    }
}

/// An attribute as written in a start tag: its name and its raw value.
pub type RawAttribute = (Seq<char>, Seq<char>);

/// The attribute that starts at `i`, with the index just after it.
///
/// An attribute is a name, `=` with optional white space around it, and a
/// value: in double quotes, in single quotes, or unquoted.
pub open spec fn parse_attribute(s: Seq<char>, i: int) -> Option<(RawAttribute, int)> {
    let n = scan(s, i, CharClass::Name);
    let k = scan(s, n, CharClass::Space);
    let m = scan(s, k + 1, CharClass::Space);
    if n == i || k >= s.len() || s[k] != '=' || m >= s.len() {
        None
    } else if s[m] == '"' {
        let e = scan(s, m + 1, CharClass::NotDoubleQuote);
        if e >= s.len() {
            None
        } else {
            Some(((s.subrange(i, n), s.subrange(m + 1, e)), e + 1))
        }
    } else if s[m] == '\'' {
        let e = scan(s, m + 1, CharClass::NotSingleQuote);
        if e >= s.len() {
            None
        } else {
            Some(((s.subrange(i, n), s.subrange(m + 1, e)), e + 1))
        }
    } else {
        let e = scan(s, m, CharClass::Bare);
        if e == m {
            None
        } else {
            Some(((s.subrange(i, n), s.subrange(m, e)), e))
        }
    }
}

pub proof fn lemma_parse_attribute(s: Seq<char>, i: int)
    requires
        0 <= i <= s.len(),
    ensures
        parse_attribute(s, i) matches Some((_, e)) ==> i < e <= s.len(),
{
    lemma_scan(s, i, CharClass::Name);
    let n = scan(s, i, CharClass::Name);
    lemma_scan(s, n, CharClass::Space);
    let k = scan(s, n, CharClass::Space);
    if k < s.len() {
        lemma_scan(s, k + 1, CharClass::Space);
        let m = scan(s, k + 1, CharClass::Space);
        if m < s.len() {
            lemma_scan(s, m + 1, CharClass::NotDoubleQuote);
            lemma_scan(s, m + 1, CharClass::NotSingleQuote);
            lemma_scan(s, m, CharClass::Bare);
        }
    }
}

/// The attributes from index `i` to the end of the tag: each one preceded by
/// white space, with optional white space at the end.
pub open spec fn parse_attributes(s: Seq<char>, i: int) -> Option<Seq<RawAttribute>>
    decreases s.len() - i,
{
    if i < 0 || i > s.len() {
        None
    } else {
        let j = scan(s, i, CharClass::Space);
        if j >= s.len() {
            Some(Seq::empty())
        } else if j == i {
            None
        } else {
            proof {
                lemma_scan(s, i, CharClass::Space);
                lemma_parse_attribute(s, j);
            }
            match parse_attribute(s, j) {
                None => None,
                Some((a, e)) => match parse_attributes(s, e) {
                    Some(rest) => Some(seq![a] + rest),
                    None => None,
                },
            }
        }
    }
}

/// The content of a start tag, between `<` and `>`: its name and its
/// attributes in the order written, or `None` where it is not a start tag.
pub open spec fn parse_start_tag(s: Seq<char>) -> Option<(Seq<char>, Seq<RawAttribute>)> {
    let n = scan(s, 0, CharClass::Name);
    if n == 0 {
        None
    } else {
        match parse_attributes(s, n) {
            Some(attrs) => Some((s.subrange(0, n), attrs)),
            None => None,
        }
    }
}

/// The end of the run of characters of `class` that starts at `i`.
fn scan_exec(s: &Vec<char>, i: usize, class: CharClass) -> (e: usize)
    requires
        i <= s.len(),
    ensures
        e == scan(s@, i as int, class),
        i <= e <= s.len(),
{
    proof {
        lemma_scan(s@, i as int, class);
    }
    let mut e = i;
    while e < s.len() && in_class_exec(s[e], class)
        invariant
            i <= e <= s.len(),
            scan(s@, e as int, class) == scan(s@, i as int, class),
        decreases s.len() - e,
    {
        e = e + 1;
    }
    e
}

fn in_class_exec(c: char, class: CharClass) -> (r: bool)
    ensures
        r == in_class(c, class),
{
    match class {
        CharClass::Space => c == ' ' || c == '\t' || c == '\r' || c == '\n',
        CharClass::Name => !is_unicode_space_exec(c) && c != '=' && c != '"' && c != '\''
            && c != '<' && c != '>' && c != '/',
        CharClass::Bare => !is_unicode_space_exec(c) && c != '"' && c != '\'' && c != '<' && c
            != '>',
        CharClass::NotDoubleQuote => c != '"',
        CharClass::NotSingleQuote => c != '\'',
    }
}

/// The characters of `s` from `from` to `to`.
fn slice_chars(s: &Vec<char>, from: usize, to: usize) -> (r: Vec<char>)
    requires
        from <= to <= s.len(),
    ensures
        r@ == s@.subrange(from as int, to as int),
{
    let mut r: Vec<char> = Vec::new();
    let mut k = from;
    while k < to
        invariant
            from <= k <= to <= s.len(),
            r@ == s@.subrange(from as int, k as int),
        decreases to - k,
    {
        r.push(s[k]);
        assert(s@.subrange(from as int, k + 1) =~= s@.subrange(from as int, k as int).push(
            s@[k as int],
        ));
        k = k + 1;
    }
    r
}

/// A copy of `s`.
fn copy_chars(s: &Vec<char>) -> (r: Vec<char>)
    ensures
        r@ == s@,
{
    let r = slice_chars(s, 0, s.len());
    assert(s@.subrange(0, s@.len() as int) =~= s@);
    r
}

/// The attribute that starts at `i`.
fn parse_attribute_exec(s: &Vec<char>, i: usize) -> (r: Option<(Vec<char>, Vec<char>, usize)>)
    requires
        i <= s.len(),
    ensures
        match r {
            Some((name, value, e)) => parse_attribute(s@, i as int) == Some(
                ((name@, value@), e as int),
            ),
            None => parse_attribute(s@, i as int) is None,
        },
{
    let n = scan_exec(s, i, CharClass::Name);
    let k = scan_exec(s, n, CharClass::Space);
    if n == i || k >= s.len() || s[k] != '=' {
        return None;
    }
    let m = scan_exec(s, k + 1, CharClass::Space);
    if m >= s.len() {
        return None;
    }
    let name = slice_chars(s, i, n);
    if s[m] == '"' {
        let e = scan_exec(s, m + 1, CharClass::NotDoubleQuote);
        if e >= s.len() {
            None
        } else {
            Some((name, slice_chars(s, m + 1, e), e + 1))
        }
    } else if s[m] == '\'' {
        let e = scan_exec(s, m + 1, CharClass::NotSingleQuote);
        if e >= s.len() {
            None
        } else {
            Some((name, slice_chars(s, m + 1, e), e + 1))
        }
    } else {
        let e = scan_exec(s, m, CharClass::Bare);
        if e == m {
            None
        } else {
            Some((name, slice_chars(s, m, e), e))
        }
    }
}

/// The name and attributes of the content of a start tag, or `None` where it
/// is not one.
pub fn parse_start_tag_exec(s: &Vec<char>) -> (r: Option<(Vec<char>, Vec<(Vec<char>, Vec<char>)>)>)
    ensures
        match r {
            Some((name, attrs)) => parse_start_tag(s@) == Some((name@, attrs_view(attrs@))),
            None => parse_start_tag(s@) is None,
        },
{
    let n = scan_exec(s, 0, CharClass::Name);
    if n == 0 {
        return None;
    }
    let mut attrs: Vec<(Vec<char>, Vec<char>)> = Vec::new();
    let mut i = n;
    proof {
        match parse_attributes(s@, n as int) {
            Some(rest) => {
                assert(attrs_view(attrs@) + rest =~= rest);
            },
            None => {},
        }
    }
    loop
        invariant_except_break
            n <= i <= s.len(),
            parse_attributes(s@, n as int) == match parse_attributes(s@, i as int) {
                Some(rest) => Some(attrs_view(attrs@) + rest),
                None => None::<Seq<RawAttribute>>,
            },
            scan(s@, 0, CharClass::Name) == n,
        ensures
            parse_attributes(s@, n as int) == Some(attrs_view(attrs@)),
        decreases s.len() - i,
    {
        let j = scan_exec(s, i, CharClass::Space);
        if j >= s.len() {
            assert(parse_attributes(s@, i as int) == Some(Seq::<RawAttribute>::empty()));
            assert(attrs_view(attrs@) + Seq::<RawAttribute>::empty() =~= attrs_view(attrs@));
            break;
        }
        if j == i {
            assert(parse_attributes(s@, i as int) is None);
            return None;
        }
        proof {
            lemma_parse_attribute(s@, j as int);
        }
        match parse_attribute_exec(s, j) {
            None => {
                assert(parse_attributes(s@, i as int) is None);
                return None;
            },
            Some((name, value, e)) => {
                let ghost before = attrs_view(attrs@);
                attrs.push((name, value));
                proof {
                    assert(attrs_view(attrs@) =~= before.push((name@, value@)));
                    match parse_attributes(s@, e as int) {
                        Some(rest) => {
                            assert(before + (seq![(name@, value@)] + rest) =~= attrs_view(attrs@)
                                + rest);
                        },
                        None => {},
                    }
                }
                i = e;
            },
        }
    }
    let name = slice_chars(s, 0, n);
    Some((name, attrs))
}

/// An attribute value normalised from index `i` on: each tab, line feed,
/// carriage return, and carriage return followed by a line feed, becomes one
/// space.
pub open spec fn normalized_from(v: Seq<char>, i: int) -> Seq<char>
    decreases v.len() - i,
{
    if i < 0 || i >= v.len() {
        Seq::empty()
    } else if v[i] == '\r' && i + 1 < v.len() && v[i + 1] == '\n' {
        seq![' '] + normalized_from(v, i + 2)
    } else if v[i] == '\r' || v[i] == '\n' || v[i] == '\t' {
        seq![' '] + normalized_from(v, i + 1)
    } else {
        seq![v[i]] + normalized_from(v, i + 1)
    }
}

/// An attribute value normalised: each tab, line feed, carriage return, and
/// carriage return followed by a line feed, becomes one space.
pub open spec fn normalized_value(v: Seq<char>) -> Seq<char> {
    normalized_from(v, 0)
}

/// The canonical form of a raw attribute value.
pub open spec fn attribute_value(raw: Seq<char>) -> Seq<char> {
    canonical_text(normalized_value(raw), Situation::Attribute)
}

/// The attributes with their values in canonical form.
pub open spec fn canonical_attributes(raws: Seq<RawAttribute>) -> Seq<RawAttribute> {
    raws.map_values(|a: RawAttribute| (a.0, attribute_value(a.1)))
}

/// Every attribute value can be put in canonical form.
pub open spec fn values_valid(raws: Seq<RawAttribute>) -> bool {
    forall|i: int| 0 <= i < raws.len() ==> refs_valid(normalized_value(#[trigger] raws[i].1))
}

/// `xmlns`
pub open spec fn xmlns_name() -> Seq<char> {
    seq!['x', 'm', 'l', 'n', 's']
}

/// `xmlns:`
pub open spec fn xmlns_colon() -> Seq<char> {
    seq!['x', 'm', 'l', 'n', 's', ':']
}

/// The name under which the namespace map records the default namespace:
/// `=`, which no prefix can be, since names hold no `=`.
pub open spec fn default_key() -> Seq<char> {
    seq!['=']
}

/// The key that a namespace declaration binds: `=` for `xmlns`, the prefix
/// for `xmlns:prefix`, none for any other attribute.
pub open spec fn declared_key(name: Seq<char>) -> Option<Seq<char>> {
    if name == xmlns_name() {
        Some(default_key())
    } else if name.len() >= 6 && name.take(6) == xmlns_colon() {
        Some(name.skip(6))
    } else {
        None
    }
}

/// Namespace bindings by depth, each name bound to a URI.
pub type UrlLevels = Seq<Map<Seq<char>, Seq<char>>>;

/// The namespace declarations of a tag registered at `depth`, in order: a
/// declaration that binds a name to the URI already visible for it is
/// superfluous and dropped, any other is recorded. Returns the bindings
/// after the tag and the attributes that stay.
pub open spec fn register(levels: UrlLevels, depth: nat, attrs: Seq<RawAttribute>) -> (UrlLevels, Seq<RawAttribute>)
    decreases attrs.len(),
{
    if attrs.len() == 0 {
        (levels, Seq::empty())
    } else {
        let (lv, kept) = register(levels, depth, attrs.drop_last());
        let a = attrs.last();
        match declared_key(a.0) {
            None => (lv, kept.push(a)),
            Some(k) => if merged(lv).contains_key(k) && merged(lv)[k] == a.1 {
                (lv, kept)
            } else {
                (bind_at(lv, depth, k, a.1), kept.push(a))
            },
        }
    }
}

/// The index of the first `:` at or after `i`, or the length.
pub open spec fn colon_from(s: Seq<char>, i: int) -> int
    decreases s.len() - i,
{
    if i < 0 || i >= s.len() || s[i] == ':' {
        i
    } else {
        colon_from(s, i + 1)
    }
}

pub proof fn lemma_colon_from(s: Seq<char>, i: int)
    requires
        0 <= i <= s.len(),
    ensures
        i <= colon_from(s, i) <= s.len(),
        colon_from(s, i) < s.len() ==> s[colon_from(s, i)] == ':',
    decreases s.len() - i,
{
    if i < s.len() && s[i] != ':' {
        lemma_colon_from(s, i + 1);
    }
}

/// The prefix of a qualified name: the part before its first `:`.
pub open spec fn name_prefix(name: Seq<char>) -> Seq<char> {
    name.take(colon_from(name, 0))
}

/// The local part of a qualified name: from its first `:` to the next one.
pub open spec fn name_local(name: Seq<char>) -> Seq<char> {
    let c = colon_from(name, 0);
    name.subrange(c + 1, colon_from(name, c + 1))
}

/// The group of an attribute in canonical order: the default namespace
/// declaration, then prefixed namespace declarations, then unqualified
/// attributes, then qualified ones.
pub open spec fn attribute_class(name: Seq<char>) -> nat {
    if name == xmlns_name() {
        0
    } else if name.len() >= 6 && name.take(6) == xmlns_colon() {
        1
    } else if colon_from(name, 0) < name.len() {
        3
    } else {
        2
    }
}

/// What orders attributes: their group, then the name for declarations and
/// unqualified attributes, the namespace URI then the local part for
/// qualified ones.
pub open spec fn sort_key(name: Seq<char>, ns: Map<Seq<char>, Seq<char>>) -> (nat, Seq<char>, Seq<char>) {
    let class = attribute_class(name);
    if class == 0 {
        (0, Seq::empty(), Seq::empty())
    } else if class == 3 {
        (
            3,
            if ns.contains_key(name_prefix(name)) {
                ns[name_prefix(name)]
            } else {
                Seq::empty()
            },
            name_local(name),
        )
    } else {
        (class, name, Seq::empty())
    }
}

/// Strict order of sort keys.
pub open spec fn key_lt(a: (nat, Seq<char>, Seq<char>), b: (nat, Seq<char>, Seq<char>)) -> bool {
    a.0 < b.0 || (a.0 == b.0 && (seq_lt(a.1, b.1) || (a.1 == b.1 && seq_lt(a.2, b.2))))
}

/// `x` inserted into `sorted` after every attribute that it does not precede.
pub open spec fn insert_sorted(sorted: Seq<RawAttribute>, x: RawAttribute, ns: Map<Seq<char>, Seq<char>>) -> Seq<RawAttribute>
    decreases sorted.len(),
{
    if sorted.len() == 0 {
        seq![x]
    } else if key_lt(sort_key(x.0, ns), sort_key(sorted[0].0, ns)) {
        seq![x] + sorted
    } else {
        seq![sorted[0]] + insert_sorted(sorted.drop_first(), x, ns)
    }
}

/// The attributes in canonical order; attributes with equal keys keep the
/// order in which they were written.
pub open spec fn sort_attributes(attrs: Seq<RawAttribute>, ns: Map<Seq<char>, Seq<char>>) -> Seq<RawAttribute>
    decreases attrs.len(),
{
    if attrs.len() == 0 {
        Seq::empty()
    } else {
        insert_sorted(sort_attributes(attrs.drop_last(), ns), attrs.last(), ns)
    }
}

/// ` name="value"` for each attribute, in order.
pub open spec fn format_attributes(attrs: Seq<RawAttribute>) -> Seq<char>
    decreases attrs.len(),
{
    if attrs.len() == 0 {
        Seq::empty()
    } else {
        format_attributes(attrs.drop_last()) + seq![' '] + attrs.last().0 + seq!['=', '"']
            + attrs.last().1 + seq!['"']
    }
}

/// The qualified attributes of a tag can be ordered: where there are two or
/// more of them, each prefix is bound to a namespace.
pub open spec fn prefixes_bound(attrs: Seq<RawAttribute>, ns: Map<Seq<char>, Seq<char>>) -> bool {
    forall|i: int, j: int|
        0 <= i < attrs.len() && 0 <= j < attrs.len() && i != j && attribute_class(
            #[trigger] attrs[i].0,
        ) == 3 && attribute_class(#[trigger] attrs[j].0) == 3 ==> ns.contains_key(
            name_prefix(attrs[i].0),
        )
}

/// The canonical start tag and the namespace bindings after it, or `None`
/// where the content is not a start tag.
pub open spec fn start_tag_result(input: Seq<char>, depth: nat, levels: UrlLevels) -> Option<(Seq<char>, UrlLevels)> {
    match parse_start_tag(input) {
        None => None,
        Some((name, raws)) => {
            let (lv, kept) = register(levels, depth, canonical_attributes(raws));
            Some((name + format_attributes(sort_attributes(kept, merged(lv))), lv))
        },
    }
}

/// The start tag can be put in canonical form: its attribute values can, and
/// its qualified attributes can be ordered.
pub open spec fn start_tag_supported(input: Seq<char>, depth: nat, levels: UrlLevels) -> bool {
    match parse_start_tag(input) {
        None => true,
        Some((name, raws)) => values_valid(raws) && {
            let (lv, kept) = register(levels, depth, canonical_attributes(raws));
            prefixes_bound(kept, merged(lv))
        },
    }
}

/// A raw attribute value with line ends normalised.
fn normalize_value_exec(v: &Vec<char>) -> (r: Vec<char>)
    ensures
        r@ == normalized_value(v@),
{
    let mut r: Vec<char> = Vec::new();
    let mut i: usize = 0;
    while i < v.len()
        invariant
            i <= v.len(),
            r@ + normalized_from(v@, i as int) == normalized_value(v@),
        decreases v.len() - i,
    {
        let c = v[i];
        let ghost before = r@;
        if c == '\r' && i + 1 < v.len() && v[i + 1] == '\n' {
            r.push(' ');
            assert(r@ + normalized_from(v@, i + 2) =~= before + normalized_from(v@, i as int));
            i = i + 2;
        } else if c == '\r' || c == '\n' || c == '\t' {
            r.push(' ');
            assert(r@ + normalized_from(v@, i + 1) =~= before + normalized_from(v@, i as int));
            i = i + 1;
        } else {
            r.push(c);
            assert(r@ + normalized_from(v@, i + 1) =~= before + normalized_from(v@, i as int));
            i = i + 1;
        }
    }
    assert(r@ + Seq::<char>::empty() =~= r@);
    r
}

/// Whether `name` starts with `xmlns:`.
fn has_xmlns_colon(name: &Vec<char>) -> (r: bool)
    ensures
        r == (name@.len() >= 6 && name@.take(6) == xmlns_colon()),
{
    let r = name.len() >= 6 && name[0] == 'x' && name[1] == 'm' && name[2] == 'l' && name[3] == 'n'
        && name[4] == 's' && name[5] == ':';
    proof {
        if name@.len() >= 6 {
            let t = name@.take(6);
            if r {
                assert(t =~= xmlns_colon());
            } else {
                assert(xmlns_colon()[0] == 'x' && xmlns_colon()[1] == 'm' && xmlns_colon()[2] == 'l'
                    && xmlns_colon()[3] == 'n' && xmlns_colon()[4] == 's' && xmlns_colon()[5]
                    == ':');
                assert(t[0] == name@[0] && t[1] == name@[1] && t[2] == name@[2] && t[3] == name@[3]
                    && t[4] == name@[4] && t[5] == name@[5]);
            }
        }
    }
    r
}

/// Whether `name` is `xmlns`.
fn is_xmlns(name: &Vec<char>) -> (r: bool)
    ensures
        r == (name@ == xmlns_name()),
{
    let r = name.len() == 5 && name[0] == 'x' && name[1] == 'm' && name[2] == 'l' && name[3] == 'n'
        && name[4] == 's';
    proof {
        if r {
            assert(name@ =~= xmlns_name());
        } else if name@.len() == 5 {
            assert(xmlns_name()[0] == 'x' && xmlns_name()[1] == 'm' && xmlns_name()[2] == 'l'
                && xmlns_name()[3] == 'n' && xmlns_name()[4] == 's');
        }
    }
    r
}

/// The key that the attribute `name` declares, if it is a namespace
/// declaration.
fn declared_key_exec(name: &Vec<char>) -> (r: Option<Vec<char>>)
    ensures
        match r {
            Some(k) => declared_key(name@) == Some(k@),
            None => declared_key(name@) is None,
        },
{
    if is_xmlns(name) {
        let k = vec!['='];
        assert(k@ =~= default_key());
        Some(k)
    } else if has_xmlns_colon(name) {
        Some(slice_chars(name, 6, name.len()))
    } else {
        None
    }
}

/// The URI that the namespace map binds `key` to, if it binds it.
fn lookup_url(map: &DepthSensitiveMap<Namespace>, key: &Vec<char>) -> (r: Option<Vec<char>>)
    ensures
        match r {
            Some(u) => merged(map@).contains_key(key@) && merged(map@)[key@] == u@,
            None => !merged(map@).contains_key(key@),
        },
{
    let key_string = string_of(key);
    let flat = map.to_map();
    match flat.get(key_string.as_str()) {
        Some(ns) => Some(chars_of(ns.url.as_str())),
        None => None,
    }
}

/// The view of attributes held as character vectors.
pub open spec fn attrs_view(attrs: Seq<(Vec<char>, Vec<char>)>) -> Seq<RawAttribute> {
    attrs.map_values(|a: (Vec<char>, Vec<char>)| (a.0@, a.1@))
}

/// Registers the namespace declarations among `attrs` at `depth` and returns
/// the attributes that stay.
fn register_exec(
    attrs: &Vec<(Vec<char>, Vec<char>)>,
    depth: usize,
    map: &mut DepthSensitiveMap<Namespace>,
) -> (kept: Vec<(Vec<char>, Vec<char>)>)
    requires
        depth < usize::MAX,
    ensures
        (final(map)@, attrs_view(kept@)) == register(old(map)@, depth as nat, attrs_view(attrs@)),
{
    let mut kept: Vec<(Vec<char>, Vec<char>)> = Vec::new();
    let mut i: usize = 0;
    assert(attrs_view(attrs@).take(0) =~= Seq::<RawAttribute>::empty());
    assert(attrs_view(kept@) =~= Seq::<RawAttribute>::empty());
    while i < attrs.len()
        invariant
            i <= attrs.len(),
            depth < usize::MAX,
            (map@, attrs_view(kept@)) == register(
                old(map)@,
                depth as nat,
                attrs_view(attrs@).take(i as int),
            ),
        decreases attrs.len() - i,
    {
        let name = &attrs[i].0;
        let value = &attrs[i].1;
        let ghost a = (name@, value@);
        let ghost before_kept = attrs_view(kept@);
        proof {
            assert(attrs_view(attrs@).take(i + 1).drop_last() =~= attrs_view(attrs@).take(i as int));
            assert(attrs_view(attrs@).take(i + 1).last() == a);
        }
        match declared_key_exec(name) {
            None => {
                kept.push((copy_chars(name), copy_chars(value)));
                assert(attrs_view(kept@) =~= before_kept.push(a));
            },
            Some(key) => {
                let same = match lookup_url(map, &key) {
                    Some(url) => chars_eq(url.as_slice(), value.as_slice()),
                    None => false,
                };
                if !same {
                    let key_string = string_of(&key);
                    map.insert_at_depth(depth, key_string.as_str(), Namespace { url: string_of(value) });
                    kept.push((copy_chars(name), copy_chars(value)));
                    assert(attrs_view(kept@) =~= before_kept.push(a));
                }
            },
        }
        i = i + 1;
    }
    assert(attrs_view(attrs@).take(i as int) =~= attrs_view(attrs@));
    kept
}

/// The index of the first `:` at or after `i`, or the length.
fn colon_from_exec(s: &Vec<char>, i: usize) -> (r: usize)
    requires
        i <= s.len(),
    ensures
        r == colon_from(s@, i as int),
        i <= r <= s.len(),
{
    proof {
        lemma_colon_from(s@, i as int);
    }
    let mut k = i;
    while k < s.len() && s[k] != ':'
        invariant
            i <= k <= s.len(),
            colon_from(s@, k as int) == colon_from(s@, i as int),
        decreases s.len() - k,
    {
        k = k + 1;
    }
    k
}

/// A sort key held as executable values.
pub type ExecKey = (u8, Vec<char>, Vec<char>);

pub open spec fn key_view(k: ExecKey) -> (nat, Seq<char>, Seq<char>) {
    (k.0 as nat, k.1@, k.2@)
}

/// The sort key of the attribute `name` under the bindings of `map`.
fn key_of(name: &Vec<char>, map: &DepthSensitiveMap<Namespace>) -> (r: ExecKey)
    ensures
        key_view(r) == sort_key(name@, merged(map@)),
{
    if is_xmlns(name) {
        (0, Vec::new(), Vec::new())
    } else if has_xmlns_colon(name) {
        (1, copy_chars(name), Vec::new())
    } else {
        let c = colon_from_exec(name, 0);
        if c < name.len() {
            let prefix = slice_chars(name, 0, c);
            assert(prefix@ =~= name_prefix(name@));
            let end = colon_from_exec(name, c + 1);
            let local = slice_chars(name, c + 1, end);
            let url = match lookup_url(map, &prefix) {
                Some(u) => u,
                None => Vec::new(),
            };
            (3, url, local)
        } else {
            (2, copy_chars(name), Vec::new())
        }
    }
}

/// Strict order of sort keys.
fn key_lt_exec(a: &ExecKey, b: &ExecKey) -> (r: bool)
    ensures
        r == key_lt(key_view(*a), key_view(*b)),
{
    a.0 < b.0 || (a.0 == b.0 && (chars_lt(a.1.as_slice(), b.1.as_slice()) || (chars_eq(
        a.1.as_slice(),
        b.1.as_slice(),
    ) && chars_lt(a.2.as_slice(), b.2.as_slice()))))
}

/// Inserting at the first attribute that `x` precedes is what
/// `insert_sorted` does.
proof fn lemma_insert_sorted_at(
    sorted: Seq<RawAttribute>,
    x: RawAttribute,
    ns: Map<Seq<char>, Seq<char>>,
    p: int,
)
    requires
        0 <= p <= sorted.len(),
        forall|q: int| 0 <= q < p ==> !key_lt(sort_key(x.0, ns), sort_key(#[trigger] sorted[q].0, ns)),
        p < sorted.len() ==> key_lt(sort_key(x.0, ns), sort_key(sorted[p].0, ns)),
    ensures
        insert_sorted(sorted, x, ns) == sorted.insert(p, x),
    decreases p,
{
    if sorted.len() == 0 {
        assert(sorted.insert(p, x) =~= seq![x]);
    } else if p == 0 {
        assert(sorted.insert(p, x) =~= seq![x] + sorted);
    } else {
        let rest = sorted.drop_first();
        assert forall|q: int| 0 <= q < p - 1 implies !key_lt(
            sort_key(x.0, ns),
            sort_key(#[trigger] rest[q].0, ns),
        ) by {
            assert(rest[q] == sorted[q + 1]);
        }
        if p - 1 < rest.len() {
            assert(rest[p - 1] == sorted[p]);
        }
        assert(!key_lt(sort_key(x.0, ns), sort_key(sorted[0].0, ns)));
        lemma_insert_sorted_at(rest, x, ns, p - 1);
        assert(seq![sorted[0]] + rest.insert(p - 1, x) =~= sorted.insert(p, x));
    }
}

/// The attributes in canonical order under the bindings of `map`.
fn sort_exec(attrs: &Vec<(Vec<char>, Vec<char>)>, map: &DepthSensitiveMap<Namespace>) -> (r: Vec<(Vec<char>, Vec<char>)>)
    ensures
        attrs_view(r@) == sort_attributes(attrs_view(attrs@), merged(map@)),
{
    let ghost ns = merged(map@);
    let mut out: Vec<(Vec<char>, Vec<char>)> = Vec::new();
    let mut keys: Vec<ExecKey> = Vec::new();
    let mut i: usize = 0;
    assert(attrs_view(attrs@).take(0) =~= Seq::<RawAttribute>::empty());
    assert(attrs_view(out@) =~= Seq::<RawAttribute>::empty());
    while i < attrs.len()
        invariant
            i <= attrs.len(),
            ns == merged(map@),
            out.len() == keys.len(),
            attrs_view(out@) == sort_attributes(attrs_view(attrs@).take(i as int), ns),
            forall|q: int| 0 <= q < keys.len() ==> key_view(#[trigger] keys@[q]) == sort_key(out@[q].0@, ns),
        decreases attrs.len() - i,
    {
        let name = &attrs[i].0;
        let value = &attrs[i].1;
        let k = key_of(name, map);
        let mut p: usize = 0;
        while p < keys.len() && !key_lt_exec(&k, &keys[p])
            invariant
                p <= keys.len(),
                out.len() == keys.len(),
                key_view(k) == sort_key(name@, ns),
                forall|q: int| 0 <= q < keys.len() ==> key_view(#[trigger] keys@[q]) == sort_key(out@[q].0@, ns),
                forall|q: int| 0 <= q < p ==> !key_lt(sort_key(name@, ns), sort_key(#[trigger] attrs_view(out@)[q].0, ns)),
            decreases keys.len() - p,
        {
            assert(attrs_view(out@)[p as int].0 == out@[p as int].0@);
            p = p + 1;
        }
        proof {
            if p < keys.len() {
                assert(attrs_view(out@)[p as int].0 == out@[p as int].0@);
            }
            lemma_insert_sorted_at(attrs_view(out@), (name@, value@), ns, p as int);
            let t = attrs_view(attrs@).take(i + 1);
            assert(t.drop_last() =~= attrs_view(attrs@).take(i as int));
            assert(t.last() == (name@, value@));
        }
        let ghost before = attrs_view(out@);
        let ghost old_keys = keys@;
        let ghost old_out = out@;
        out.insert(p, (copy_chars(name), copy_chars(value)));
        keys.insert(p, k);
        proof {
            assert(attrs_view(out@) =~= before.insert(p as int, (name@, value@)));
            assert forall|q: int| 0 <= q < keys.len() implies key_view(#[trigger] keys@[q]) == sort_key(out@[q].0@, ns) by {
                if q < p {
                    assert(keys@[q] == old_keys[q] && out@[q] == old_out[q]);
                } else if q > p {
                    assert(keys@[q] == old_keys[q - 1] && out@[q] == old_out[q - 1]);
                }
            }
        }
        i = i + 1;
    }
    assert(attrs_view(attrs@).take(i as int) =~= attrs_view(attrs@));
    out
}

/// The text of a start tag: its name, then ` name="value"` for each attribute.
fn format_exec(name: &Vec<char>, attrs: &Vec<(Vec<char>, Vec<char>)>) -> (r: Vec<char>)
    ensures
        r@ == name@ + format_attributes(attrs_view(attrs@)),
{
    let mut r = copy_chars(name);
    let mut i: usize = 0;
    assert(attrs_view(attrs@).take(0) =~= Seq::<RawAttribute>::empty());
    assert(r@ =~= name@ + format_attributes(attrs_view(attrs@).take(0)));
    while i < attrs.len()
        invariant
            i <= attrs.len(),
            r@ == name@ + format_attributes(attrs_view(attrs@).take(i as int)),
        decreases attrs.len() - i,
    {
        let ghost before = r@;
        r.push(' ');
        push_all(&mut r, attrs[i].0.as_slice());
        r.push('=');
        r.push('"');
        push_all(&mut r, attrs[i].1.as_slice());
        r.push('"');
        proof {
            let t = attrs_view(attrs@).take(i + 1);
            assert(t.drop_last() =~= attrs_view(attrs@).take(i as int));
            assert(t.last() == (attrs@[i as int].0@, attrs@[i as int].1@));
            assert(r@ =~= name@ + format_attributes(t));
        }
        i = i + 1;
    }
    assert(attrs_view(attrs@).take(i as int) =~= attrs_view(attrs@));
    r
}

/// The attributes with their values in canonical form.
fn canonical_attributes_exec(raws: &Vec<(Vec<char>, Vec<char>)>) -> (r: Vec<(Vec<char>, Vec<char>)>)
    requires
        values_valid(attrs_view(raws@)),
    ensures
        attrs_view(r@) == canonical_attributes(attrs_view(raws@)),
{
    let mut r: Vec<(Vec<char>, Vec<char>)> = Vec::new();
    let mut i: usize = 0;
    while i < raws.len()
        invariant
            i <= raws.len(),
            values_valid(attrs_view(raws@)),
            attrs_view(r@) =~= canonical_attributes(attrs_view(raws@)).take(i as int),
        decreases raws.len() - i,
    {
        let normalized = normalize_value_exec(&raws[i].1);
        assert(attrs_view(raws@)[i as int].1 == raws@[i as int].1@);
        let value = canonical_chars(&normalized, Situation::Attribute);
        let ghost before = attrs_view(r@);
        let ghost ca = canonical_attributes(attrs_view(raws@));
        r.push((copy_chars(&raws[i].0), value));
        proof {
            assert(attrs_view(r@) =~= before.push((raws@[i as int].0@, value@)));
            assert(ca[i as int] == (raws@[i as int].0@, attribute_value(raws@[i as int].1@)));
            assert(ca.take(i + 1) =~= ca.take(i as int).push(ca[i as int]));
        }
        i = i + 1;
    }
    assert(canonical_attributes(attrs_view(raws@)).take(i as int) =~= canonical_attributes(
        attrs_view(raws@),
    ));
    r
}

/// Whether every raw attribute value can be put in canonical form.
fn values_valid_exec(raws: &Vec<(Vec<char>, Vec<char>)>) -> (r: bool)
    ensures
        r == values_valid(attrs_view(raws@)),
{
    let mut i: usize = 0;
    while i < raws.len()
        invariant
            i <= raws.len(),
            forall|k: int| 0 <= k < i ==> refs_valid(normalized_value(#[trigger] attrs_view(raws@)[k].1)),
        decreases raws.len() - i,
    {
        let normalized = normalize_value_exec(&raws[i].1);
        assert(attrs_view(raws@)[i as int].1 == raws@[i as int].1@);
        if !references_are_valid(&normalized) {
            return false;
        }
        i = i + 1;
    }
    true
}

/// Whether the qualified attributes of a tag can be ordered.
fn prefixes_bound_exec(attrs: &Vec<(Vec<char>, Vec<char>)>, map: &DepthSensitiveMap<Namespace>) -> (r: bool)
    ensures
        r == prefixes_bound(attrs_view(attrs@), merged(map@)),
{
    let ghost av = attrs_view(attrs@);
    let ghost ns = merged(map@);
    let mut qualified: usize = 0;
    let mut all_bound = true;
    let mut i: usize = 0;
    while i < attrs.len()
        invariant
            i <= attrs.len(),
            av == attrs_view(attrs@),
            ns == merged(map@),
            qualified <= i,
            qualified == 0 <==> forall|k: int| 0 <= k < i ==> attribute_class(#[trigger] av[k].0) != 3,
            qualified == 1 ==> exists|k: int| 0 <= k < i && attribute_class(#[trigger] av[k].0) == 3 && forall|m: int| 0 <= m < i && m != k ==> attribute_class(#[trigger] av[m].0) != 3,
            qualified >= 2 ==> exists|k1: int, k2: int| 0 <= k1 < i && 0 <= k2 < i && k1 != k2 && attribute_class(#[trigger] av[k1].0) == 3 && attribute_class(#[trigger] av[k2].0) == 3,
            all_bound <==> forall|k: int| 0 <= k < i && attribute_class(#[trigger] av[k].0) == 3 ==> ns.contains_key(name_prefix(av[k].0)),
        decreases attrs.len() - i,
    {
        let name = &attrs[i].0;
        assert(av[i as int].0 == name@);
        if !is_xmlns(name) && !has_xmlns_colon(name) {
            let c = colon_from_exec(name, 0);
            if c < name.len() {
                let prefix = slice_chars(name, 0, c);
                assert(prefix@ =~= name_prefix(name@));
                if lookup_url(map, &prefix).is_none() {
                    all_bound = false;
                }
                if qualified < 2 {
                    qualified = qualified + 1;
                }
            }
        }
        i = i + 1;
    }
    qualified < 2 || all_bound
}

/// Why a start tag could not be put in canonical form.
#[derive(Clone, Copy, PartialEq, Eq, Structural, Debug)]
pub enum StartTagError {
    /// The content is not a start tag: a name followed by attributes.
    Syntax,
}

/// The canonical form of the start tag whose content (between `<` and `>`)
/// is `start_tag`, for an element at `depth`: attribute values in canonical
/// form, superfluous namespace declarations removed, attributes in canonical
/// order. The namespace declarations that stay are recorded in
/// `registered_namespaces` at `depth`.
///
/// The result starts with the tag's name and ends with it or with the `"`
/// that closes the last attribute value, so no white space surrounds it.
pub fn canonicalize_start_tag(
    start_tag: &str,
    depth: usize,
    registered_namespaces: &mut DepthSensitiveMap<Namespace>,
) -> (r: Result<String, StartTagError>)
    requires
        depth < usize::MAX,
        start_tag_supported(start_tag@, depth as nat, old(registered_namespaces)@),
    ensures
        match start_tag_result(start_tag@, depth as nat, old(registered_namespaces)@) {
            None => r == Err::<String, StartTagError>(StartTagError::Syntax)
                && final(registered_namespaces)@ == old(registered_namespaces)@,
            Some((text, levels)) => r matches Ok(s) && s@ == text
                && final(registered_namespaces)@ == levels,
        },
{
    let chars = chars_of(start_tag);
    let (name, raws) = match parse_start_tag_exec(&chars) {
        Some(parsed) => parsed,
        None => {
            return Err(StartTagError::Syntax);
        },
    };
    let attrs = canonical_attributes_exec(&raws);
    let kept = register_exec(&attrs, depth, registered_namespaces);
    let sorted = sort_exec(&kept, registered_namespaces);
    let text = format_exec(&name, &sorted);
    Ok(string_of(&text))
}

/// Whether `canonicalize_start_tag` can put this start tag in canonical form
/// at `depth` under `registered_namespaces`: every reference in its
/// attribute values denotes a character, and where it has two or more
/// qualified attributes, their prefixes are bound.
pub fn start_tag_is_supported(
    start_tag: &str,
    depth: usize,
    registered_namespaces: &DepthSensitiveMap<Namespace>,
) -> (r: bool)
    requires
        depth < usize::MAX,
    ensures
        r == start_tag_supported(start_tag@, depth as nat, registered_namespaces@),
{
    let chars = chars_of(start_tag);
    match parse_start_tag_exec(&chars) {
        None => true,
        Some((_, raws)) => {
            if !values_valid_exec(&raws) {
                return false;
            }
            let attrs = canonical_attributes_exec(&raws);
            let mut scratch = registered_namespaces.duplicate();
            let kept = register_exec(&attrs, depth, &mut scratch);
            prefixes_bound_exec(&kept, &scratch)
        },
    }
}

/// An attribute of a start tag.
pub struct Attribute {
    pub name: String,
    pub value: String,
}

/// A start tag: a name and attributes.
pub struct StartTag {
    pub name: String,
    pub attributes: Vec<Attribute>,
}

/// The text of one attribute: `name="value"`.
pub open spec fn attribute_text(name: Seq<char>, value: Seq<char>) -> Seq<char> {
    name + seq!['=', '"'] + value + seq!['"']
}

/// The views of the attributes of a start tag.
pub open spec fn attributes_view(attrs: Seq<Attribute>) -> Seq<RawAttribute> {
    attrs.map_values(|a: Attribute| (a.name@, a.value@))
}

impl Attribute {
    /// The attribute as written in a canonical start tag: `name="value"`.
    pub fn to_string(&self) -> (r: String)
        ensures
            r@ == attribute_text(self.name@, self.value@),
    {
        let mut out = chars_of(self.name.as_str());
        out.push('=');
        out.push('"');
        let value = chars_of(self.value.as_str());
        push_all(&mut out, value.as_slice());
        out.push('"');
        assert(out@ =~= attribute_text(self.name@, self.value@));
        string_of(&out)
    }

    /// The order of two attributes in a canonical start tag: the default
    /// namespace declaration `xmlns` first, then namespace declarations
    /// ordered by prefix, then unqualified attributes ordered by name, then
    /// qualified attributes ordered by namespace URI and then by local name.
    pub fn cmp_with_namespaces(
        &self,
        other: &Self,
        registered_namespaces: &DepthSensitiveMap<Namespace>,
    ) -> (r: Ordering)
        requires
            attribute_class(self.name@) == 3 && attribute_class(other.name@) == 3 ==> merged(
                registered_namespaces@,
            ).contains_key(name_prefix(self.name@)) && merged(registered_namespaces@).contains_key(
                name_prefix(other.name@),
            ),
        ensures
            r == Ordering::Less <==> key_lt(
                sort_key(self.name@, merged(registered_namespaces@)),
                sort_key(other.name@, merged(registered_namespaces@)),
            ),
            r == Ordering::Greater <==> key_lt(
                sort_key(other.name@, merged(registered_namespaces@)),
                sort_key(self.name@, merged(registered_namespaces@)),
            ),
    {
        let a = key_of(&chars_of(self.name.as_str()), registered_namespaces);
        let b = key_of(&chars_of(other.name.as_str()), registered_namespaces);
        if key_lt_exec(&a, &b) {
            proof {
                lemma_key_lt_asymmetric(key_view(a), key_view(b));
            }
            Ordering::Less
        } else if key_lt_exec(&b, &a) {
            Ordering::Greater
        } else {
            Ordering::Equal
        }
    }
}

impl StartTag {
    /// The tag as written in canonical form, without `<` and `>`: its name,
    /// then ` name="value"` for each attribute.
    pub fn to_string(&self) -> (r: String)
        ensures
            r@ == self.name@ + format_attributes(attributes_view(self.attributes@)),
    {
        let name = chars_of(self.name.as_str());
        let mut attrs: Vec<(Vec<char>, Vec<char>)> = Vec::new();
        let mut i: usize = 0;
        while i < self.attributes.len()
            invariant
                i <= self.attributes.len(),
                attrs_view(attrs@) =~= attributes_view(self.attributes@).take(i as int),
            decreases self.attributes.len() - i,
        {
            let a = &self.attributes[i];
            let ghost before = attrs_view(attrs@);
            attrs.push((chars_of(a.name.as_str()), chars_of(a.value.as_str())));
            proof {
                assert(attrs_view(attrs@) =~= before.push((a.name@, a.value@)));
                let av = attributes_view(self.attributes@);
                assert(av.take(i + 1) =~= av.take(i as int).push(av[i as int]));
            }
            i = i + 1;
        }
        assert(attributes_view(self.attributes@).take(i as int) =~= attributes_view(self.attributes@));
        let text = format_exec(&name, &attrs);
        string_of(&text)
    }
}

/// Lexicographic order of characters is irreflexive and asymmetric.
pub proof fn lemma_seq_lt_asymmetric(a: Seq<char>, b: Seq<char>)
    ensures
        seq_lt(a, b) ==> !seq_lt(b, a),
        !seq_lt(a, a),
    decreases a.len(),
{
    if a.len() > 0 && b.len() > 0 && a[0] == b[0] {
        lemma_seq_lt_asymmetric(a.drop_first(), b.drop_first());
    }
    if a.len() > 0 {
        lemma_seq_lt_asymmetric(a.drop_first(), a.drop_first());
    }
}

/// The order of sort keys is irreflexive and asymmetric.
pub proof fn lemma_key_lt_asymmetric(a: (nat, Seq<char>, Seq<char>), b: (nat, Seq<char>, Seq<char>))
    ensures
        key_lt(a, b) ==> !key_lt(b, a),
        !key_lt(a, a),
{
    lemma_seq_lt_asymmetric(a.1, b.1);
    lemma_seq_lt_asymmetric(b.1, a.1);
    lemma_seq_lt_asymmetric(a.2, b.2);
    lemma_seq_lt_asymmetric(a.1, a.1);
    lemma_seq_lt_asymmetric(a.2, a.2);
}

} // verus!
