//! Properties of the library as a whole, stated over the models that the
//! functions' contracts use.

use vstd::prelude::*;
use crate::text::seq_lt;
use crate::namespace::{merged, padded, bind_at, drop_depth};
use crate::start::{
    RawAttribute, UrlLevels, register, sort_attributes, insert_sorted, sort_key, key_lt,
    start_tag_result, canonical_attributes, declared_key,
};
use crate::character_refs::{
    CharRef, Situation, canonical_text, canonical_from, ref_replacement, reference_at, lit_at,
    char_replacement, lemma_reference_end, refs_valid, refs_valid_from, is_scalar,
    is_digit, digits_value, digit_run_end,
};
use crate::canonicalizer::{
    Model, XmlEvent, step, accepts, initial_model,
};

verus! {

broadcast use vstd::seq_lib::group_to_multiset_ensures;

/// The deepest level that binds a name decides its value.
pub proof fn lemma_merged_deepest<W>(levels: Seq<Map<Seq<char>, W>>, d: int, key: Seq<char>)
    requires
        0 <= d < levels.len(),
        levels[d].contains_key(key),
        forall|i: int| d < i < levels.len() ==> !(#[trigger] levels[i]).contains_key(key),
    ensures
        merged(levels).contains_key(key),
        merged(levels)[key] == levels[d][key],
    decreases levels.len(),
{
    if d < levels.len() - 1 {
        let init = levels.drop_last();
        assert forall|i: int| d < i < init.len() implies !(#[trigger] init[i]).contains_key(key) by {
            assert(init[i] == levels[i]);
        }
        lemma_merged_deepest(init, d, key);
        assert(!levels[levels.len() - 1].contains_key(key));
    }
}

/// Empty levels at the bottom change no binding.
pub proof fn lemma_merged_padded<W>(levels: Seq<Map<Seq<char>, W>>, n: nat)
    ensures
        merged(padded(levels, n)) == merged(levels),
    decreases n,
{
    if levels.len() < n {
        let p = padded(levels, n);
        lemma_merged_padded(levels, (n - 1) as nat);
        assert(p.drop_last() =~= padded(levels, (n - 1) as nat));
        assert(p.last() == Map::<Seq<char>, W>::empty());
        assert(merged(p) =~= merged(p.drop_last()));
    }
}

/// A name bound at some depth reads as the value bound to it, as long as no
/// deeper level binds it.
pub proof fn law_binding_visible<W>(levels: Seq<Map<Seq<char>, W>>, depth: nat, key: Seq<char>, value: W)
    requires
        forall|i: int| depth < i < levels.len() ==> !(#[trigger] levels[i]).contains_key(key),
    ensures
        merged(bind_at(levels, depth, key, value)).contains_key(key),
        merged(bind_at(levels, depth, key, value))[key] == value,
{
    let b = bind_at(levels, depth, key, value);
    assert forall|i: int| depth < i < b.len() implies !(#[trigger] b[i]).contains_key(key) by {
        assert(b[i] == padded(levels, depth + 1)[i]);
        assert(i < levels.len());
        assert(padded(levels, depth + 1)[i] == levels[i]);
    }
    lemma_merged_deepest(b, depth as int, key);
}

/// Dropping a depth undoes a binding made at that depth in a map that had
/// no level there: every name reads as before.
pub proof fn law_drop_depth_undoes_bind<W>(levels: Seq<Map<Seq<char>, W>>, depth: nat, key: Seq<char>, value: W)
    requires
        levels.len() <= depth,
    ensures
        merged(drop_depth(bind_at(levels, depth, key, value), depth)) == merged(levels),
        drop_depth(bind_at(levels, depth, key, value), depth).take(levels.len() as int) == levels,
{
    let b = bind_at(levels, depth, key, value);
    assert(drop_depth(b, depth) =~= padded(levels, depth));
    lemma_merged_padded(levels, depth);
    assert(padded(levels, depth).take(levels.len() as int) =~= levels);
}

/// Registering the declarations of a tag at `depth`, on bindings no deeper
/// than `depth`, leaves the levels above `depth` as they were, extended
/// with empty levels.
pub proof fn lemma_register_levels(levels: UrlLevels, depth: nat, attrs: Seq<RawAttribute>)
    requires
        levels.len() <= depth,
    ensures
        register(levels, depth, attrs).0 == levels || (register(levels, depth, attrs).0.len()
            == depth + 1 && register(levels, depth, attrs).0.take(depth as int) == padded(
            levels,
            depth,
        )),
    decreases attrs.len(),
{
    if attrs.len() > 0 {
        lemma_register_levels(levels, depth, attrs.drop_last());
        let lv = register(levels, depth, attrs.drop_last()).0;
        let r = register(levels, depth, attrs).0;
        if r != lv {
            assert(r.take(depth as int) =~= padded(levels, depth));
        }
    }
}

/// The namespace bindings of a state reach no deeper than its depth.
pub open spec fn well_scoped(m: Model) -> bool {
    m.namespaces.len() <= m.depth + 1
}

/// A canonicalisation starts well scoped, and every event that it handles
/// keeps it so.
pub proof fn law_events_keep_scoping(m: Model, e: XmlEvent)
    requires
        well_scoped(m),
        accepts(m, e),
    ensures
        well_scoped(initial_model(m.retain_comments)),
        well_scoped(step(m, e).0),
{
    match e {
        XmlEvent::Start(s) => {
            match start_tag_result(s@, m.depth + 1, m.namespaces) {
                Some((_, lv)) => {
                    let (name, raws) = crate::start::parse_start_tag(s@).unwrap();
                    lemma_register_levels(m.namespaces, m.depth + 1, canonical_attributes(raws));
                },
                None => {},
            }
        },
        _ => {},
    }
}

/// An element's namespace declarations are in scope inside it only: after
/// its start tag and its end tag, every name reads as it did before, and
/// the depth is back where it was.
pub proof fn law_element_scopes_namespaces(m: Model, start: XmlEvent, end: XmlEvent)
    requires
        well_scoped(m),
        start is Start,
        end is End,
        accepts(m, start),
    ensures
        merged(step(step(m, start).0, end).0.namespaces) == merged(m.namespaces),
        step(step(m, start).0, end).0.depth == m.depth,
{
    if let XmlEvent::Start(s) = start {
        let d = m.depth + 1;
        let (name, raws) = crate::start::parse_start_tag(s@).unwrap();
        lemma_register_levels(m.namespaces, d, canonical_attributes(raws));
        let lv = register(m.namespaces, d, canonical_attributes(raws)).0;
        assert(step(m, start).0.namespaces == lv);
        if lv == m.namespaces {
            assert(drop_depth(lv, d) == m.namespaces);
        } else {
            assert(drop_depth(lv, d) == padded(m.namespaces, d));
            lemma_merged_padded(m.namespaces, d);
        }
    }
}

/// Lexicographic order is transitive.
pub proof fn lemma_seq_lt_transitive(a: Seq<char>, b: Seq<char>, c: Seq<char>)
    requires
        seq_lt(a, b),
        seq_lt(b, c),
    ensures
        seq_lt(a, c),
    decreases a.len(),
{
    if a.len() > 0 && a[0] == b[0] && b[0] == c[0] {
        lemma_seq_lt_transitive(a.drop_first(), b.drop_first(), c.drop_first());
    }
}

/// The order of sort keys is transitive.
pub proof fn lemma_key_lt_transitive(
    a: (nat, Seq<char>, Seq<char>),
    b: (nat, Seq<char>, Seq<char>),
    c: (nat, Seq<char>, Seq<char>),
)
    requires
        key_lt(a, b),
        key_lt(b, c),
    ensures
        key_lt(a, c),
{
    if a.0 == b.0 && b.0 == c.0 {
        if seq_lt(a.1, b.1) && seq_lt(b.1, c.1) {
            lemma_seq_lt_transitive(a.1, b.1, c.1);
        } else if a.1 == b.1 && b.1 == c.1 {
            lemma_seq_lt_transitive(a.2, b.2, c.2);
        }
    }
}

/// Attributes in canonical order: no attribute precedes one written before
/// it.
pub open spec fn in_canonical_order(attrs: Seq<RawAttribute>, ns: Map<Seq<char>, Seq<char>>) -> bool {
    forall|i: int, j: int|
        0 <= i < j < attrs.len() ==> !key_lt(
            sort_key(#[trigger] attrs[j].0, ns),
            sort_key(#[trigger] attrs[i].0, ns),
        )
}

/// Where `insert_sorted` puts `x`: before the first attribute that `x`
/// precedes.
pub proof fn lemma_insert_sorted_position(s: Seq<RawAttribute>, x: RawAttribute, ns: Map<Seq<char>, Seq<char>>) -> (p: int)
    ensures
        0 <= p <= s.len(),
        insert_sorted(s, x, ns) == s.insert(p, x),
        forall|q: int| 0 <= q < p ==> !key_lt(sort_key(x.0, ns), sort_key(#[trigger] s[q].0, ns)),
        p < s.len() ==> key_lt(sort_key(x.0, ns), sort_key(s[p].0, ns)),
    decreases s.len(),
{
    if s.len() == 0 {
        assert(s.insert(0, x) =~= seq![x]);
        0
    } else if key_lt(sort_key(x.0, ns), sort_key(s[0].0, ns)) {
        assert(s.insert(0, x) =~= seq![x] + s);
        0
    } else {
        let rest = s.drop_first();
        let p = lemma_insert_sorted_position(rest, x, ns);
        assert(seq![s[0]] + rest.insert(p, x) =~= s.insert(p + 1, x));
        assert forall|q: int| 0 <= q < p + 1 implies !key_lt(sort_key(x.0, ns), sort_key(#[trigger] s[q].0, ns)) by {
            if q > 0 {
                assert(s[q] == rest[q - 1]);
            }
        }
        if p < rest.len() {
            assert(s[p + 1] == rest[p]);
        }
        p + 1
    }
}

/// Canonicalisation puts the attributes of a start tag in canonical order,
/// and keeps each of them, each as often as it was written.
pub proof fn law_attributes_in_canonical_order(attrs: Seq<RawAttribute>, ns: Map<Seq<char>, Seq<char>>)
    ensures
        in_canonical_order(sort_attributes(attrs, ns), ns),
        sort_attributes(attrs, ns).to_multiset() == attrs.to_multiset(),
    decreases attrs.len(),
{
    if attrs.len() > 0 {
        let init = attrs.drop_last();
        let x = attrs.last();
        law_attributes_in_canonical_order(init, ns);
        let s = sort_attributes(init, ns);
        let p = lemma_insert_sorted_position(s, x, ns);
        let r = s.insert(p, x);
        assert(attrs =~= init.push(x));
        assert forall|i: int, j: int| 0 <= i < j < r.len() implies !key_lt(
            sort_key(#[trigger] r[j].0, ns),
            sort_key(#[trigger] r[i].0, ns),
        ) by {
            let kx = sort_key(x.0, ns);
            if i < p && j < p {
                assert(r[i] == s[i] && r[j] == s[j]);
            } else if i < p && j == p {
                assert(r[i] == s[i] && r[j] == x);
            } else if i < p {
                assert(r[i] == s[i] && r[j] == s[j - 1]);
            } else if i == p {
                assert(r[i] == x && r[j] == s[j - 1]);
                let kp = sort_key(s[p].0, ns);
                let kj = sort_key(s[j - 1].0, ns);
                if key_lt(kj, kx) {
                    if j - 1 == p {
                        crate::start::lemma_key_lt_asymmetric(kx, kp);
                    } else {
                        lemma_key_lt_transitive(kj, kx, kp);
                        assert(!key_lt(sort_key(s[j - 1].0, ns), sort_key(s[p].0, ns)));
                    }
                }
            } else {
                assert(r[i] == s[i - 1] && r[j] == s[j - 1]);
            }
        }
    }
}

/// Binding a name that no deeper level binds changes what that name reads
/// as, and nothing else.
pub proof fn lemma_merged_bind<W>(levels: Seq<Map<Seq<char>, W>>, depth: nat, key: Seq<char>, value: W)
    requires
        forall|i: int| depth < i < levels.len() ==> !(#[trigger] levels[i]).contains_key(key),
    ensures
        merged(bind_at(levels, depth, key, value)) == merged(levels).insert(key, value),
{
    let p = padded(levels, depth + 1);
    lemma_merged_padded(levels, depth + 1);
    assert forall|i: int| depth < i < p.len() implies !(#[trigger] p[i]).contains_key(key) by {
        assert(i < levels.len() && p[i] == levels[i]);
    }
    lemma_merged_update(p, depth as int, key, value);
}

/// Adding a binding at level `d` of padded levels, when no deeper level
/// binds the name.
proof fn lemma_merged_update<W>(p: Seq<Map<Seq<char>, W>>, d: int, key: Seq<char>, value: W)
    requires
        0 <= d < p.len(),
        forall|i: int| d < i < p.len() ==> !(#[trigger] p[i]).contains_key(key),
    ensures
        merged(p.update(d, p[d].insert(key, value))) == merged(p).insert(key, value),
    decreases p.len(),
{
    let u = p.update(d, p[d].insert(key, value));
    let init = p.drop_last();
    if d == p.len() - 1 {
        assert(u.drop_last() =~= init);
        assert(merged(u) =~= merged(p).insert(key, value));
    } else {
        assert forall|i: int| d < i < init.len() implies !(#[trigger] init[i]).contains_key(key) by {
            assert(init[i] == p[i]);
        }
        lemma_merged_update(init, d, key, value);
        assert(u.drop_last() =~= init.update(d, init[d].insert(key, value)));
        assert(!p.last().contains_key(key));
        assert(merged(u) =~= merged(p).insert(key, value));
    }
}

/// The namespace declarations of a tag declare different names.
pub open spec fn distinct_declarations(attrs: Seq<RawAttribute>) -> bool {
    forall|i: int, j: int|
        0 <= i < attrs.len() && 0 <= j < attrs.len() && i != j && declared_key(
            #[trigger] attrs[i].0,
        ) is Some ==> declared_key(attrs[i].0) != declared_key(#[trigger] attrs[j].0)
}

/// After registering the declarations of a tag, each declared name reads as
/// the URI that the tag declares for it.
pub proof fn lemma_register_binds(levels: UrlLevels, depth: nat, attrs: Seq<RawAttribute>)
    requires
        levels.len() <= depth + 1,
        distinct_declarations(attrs),
    ensures
        register(levels, depth, attrs).0.len() <= depth + 1,
        forall|i: int|
            0 <= i < attrs.len() && declared_key(#[trigger] attrs[i].0) is Some ==> {
                let k = declared_key(attrs[i].0).unwrap();
                merged(register(levels, depth, attrs).0).contains_key(k) && merged(
                    register(levels, depth, attrs).0,
                )[k] == attrs[i].1
            },
    decreases attrs.len(),
{
    if attrs.len() > 0 {
        let init = attrs.drop_last();
        assert(distinct_declarations(init)) by {
            assert forall|i: int, j: int|
                0 <= i < init.len() && 0 <= j < init.len() && i != j && declared_key(
                    #[trigger] init[i].0,
                ) is Some implies declared_key(init[i].0) != declared_key(#[trigger] init[j].0) by {
                assert(init[i] == attrs[i] && init[j] == attrs[j]);
            }
        }
        lemma_register_binds(levels, depth, init);
        let lv = register(levels, depth, init).0;
        let a = attrs.last();
        let last = attrs.len() - 1;
        match declared_key(a.0) {
            None => {
                assert forall|i: int|
                    0 <= i < attrs.len() && declared_key(#[trigger] attrs[i].0) is Some implies {
                    let k = declared_key(attrs[i].0).unwrap();
                    merged(register(levels, depth, attrs).0).contains_key(k) && merged(
                        register(levels, depth, attrs).0,
                    )[k] == attrs[i].1
                } by {
                    assert(i < last);
                    assert(attrs[i] == init[i]);
                }
            },
            Some(k) => {
                if !(merged(lv).contains_key(k) && merged(lv)[k] == a.1) {
                    lemma_merged_bind(lv, depth, k, a.1);
                }
                assert forall|i: int|
                    0 <= i < attrs.len() && declared_key(#[trigger] attrs[i].0) is Some implies {
                    let ki = declared_key(attrs[i].0).unwrap();
                    merged(register(levels, depth, attrs).0).contains_key(ki) && merged(
                        register(levels, depth, attrs).0,
                    )[ki] == attrs[i].1
                } by {
                    if i < last {
                        assert(attrs[i] == init[i]);
                        assert(declared_key(attrs[i].0) != declared_key(attrs[last].0));
                    }
                }
            },
        }
    }
}

/// Registering declarations that are all in force already changes nothing
/// and keeps none of them.
proof fn lemma_register_in_force(levels: UrlLevels, depth: nat, attrs: Seq<RawAttribute>)
    requires
        forall|i: int|
            0 <= i < attrs.len() && declared_key(#[trigger] attrs[i].0) is Some ==> {
                let k = declared_key(attrs[i].0).unwrap();
                merged(levels).contains_key(k) && merged(levels)[k] == attrs[i].1
            },
    ensures
        register(levels, depth, attrs).0 == levels,
        forall|i: int|
            0 <= i < register(levels, depth, attrs).1.len() ==> declared_key(
                #[trigger] register(levels, depth, attrs).1[i].0,
            ) is None,
    decreases attrs.len(),
{
    if attrs.len() > 0 {
        let init = attrs.drop_last();
        assert forall|i: int|
            0 <= i < init.len() && declared_key(#[trigger] init[i].0) is Some implies {
                let k = declared_key(init[i].0).unwrap();
                merged(levels).contains_key(k) && merged(levels)[k] == init[i].1
            } by {
            assert(init[i] == attrs[i]);
        }
        lemma_register_in_force(levels, depth, init);
        let kept = register(levels, depth, init).1;
        let a = attrs.last();
        assert(a == attrs[attrs.len() - 1]);
        if declared_key(a.0) is None {
            assert forall|i: int| 0 <= i < kept.push(a).len() implies declared_key(
                #[trigger] kept.push(a)[i].0,
            ) is None by {
                if i < kept.len() {
                    assert(kept.push(a)[i] == kept[i]);
                }
            }
        }
    }
}

/// Superfluous namespace declarations are eliminated: put in canonical form
/// again, in the scope that its first canonicalisation created, a tag keeps
/// none of its namespace declarations and changes no binding.
pub proof fn law_declarations_superfluous_once_registered(levels: UrlLevels, depth: nat, attrs: Seq<RawAttribute>)
    requires
        levels.len() <= depth + 1,
        distinct_declarations(attrs),
    ensures
        register(register(levels, depth, attrs).0, depth, attrs).0 == register(levels, depth, attrs).0,
        forall|i: int|
            0 <= i < register(register(levels, depth, attrs).0, depth, attrs).1.len() ==> declared_key(
                #[trigger] register(register(levels, depth, attrs).0, depth, attrs).1[i].0,
            ) is None,
{
    lemma_register_binds(levels, depth, attrs);
    lemma_register_in_force(register(levels, depth, attrs).0, depth, attrs);
}

/// How a character is written in character data: `&` and `<` as the
/// references `&amp;` and `&lt;`, any other character as itself.
pub open spec fn written_as_text(c: char) -> Seq<char> {
    if c == '&' {
        seq!['&', 'a', 'm', 'p', ';']
    } else if c == '<' {
        seq!['&', 'l', 't', ';']
    } else {
        seq![c]
    }
}

/// A numeric character reference with the digits `d`: `&#x` and the digits
/// in base 16, or `&#` and the digits in base 10, then `;`.
pub open spec fn numeric_ref_text(d: Seq<char>, hex: bool) -> Seq<char> {
    if hex {
        seq!['&', '#', 'x'] + d + seq![';']
    } else {
        seq!['&', '#'] + d + seq![';']
    }
}

/// A run of digits from `i` to `j`, followed by no digit, ends at `j`.
proof fn lemma_digit_run_to(s: Seq<char>, i: int, j: int, hex: bool)
    requires
        0 <= i <= j <= s.len(),
        forall|k: int| i <= k < j ==> is_digit(#[trigger] s[k], hex),
        j == s.len() || !is_digit(s[j], hex),
    ensures
        digit_run_end(s, i, hex) == j,
    decreases j - i,
{
    if i < j {
        lemma_digit_run_to(s, i + 1, j, hex);
    }
}

/// A numeric reference to `c` is read as one reference, to `c`, that
/// spans the whole text.
proof fn lemma_numeric_ref_read(c: char, d: Seq<char>, hex: bool)
    requires
        d.len() > 0,
        forall|i: int| 0 <= i < d.len() ==> is_digit(#[trigger] d[i], hex),
        digits_value(d, hex) == c as nat,
    ensures
        reference_at(numeric_ref_text(d, hex), 0) == Some(
            (CharRef::Code(c as u32), numeric_ref_text(d, hex).len() as int),
        ),
{
    let s = numeric_ref_text(d, hex);
    let start: int = if hex { 3 } else { 2 };
    assert(s.len() == start + d.len() + 1);
    assert forall|k: int| start <= k < start + d.len() implies is_digit(#[trigger] s[k], hex) by {
        assert(s[k] == d[k - start]);
    }
    assert(s[start + d.len()] == ';');
    lemma_digit_run_to(s, start, start + d.len(), hex);
    assert(s.subrange(start, start + d.len()) =~= d);
    assert(s[0] == '&' && s[1] == '#');
    assert(!lit_at(s, 1, seq!['a', 'm', 'p', ';']) && !lit_at(s, 1, seq!['l', 't', ';'])
        && !lit_at(s, 1, seq!['g', 't', ';']) && !lit_at(s, 1, seq!['a', 'p', 'o', 's', ';'])
        && !lit_at(s, 1, seq!['q', 'u', 'o', 't', ';'])) by {
        assert(s.subrange(1, 4)[0] == '#');
        if s.len() >= 6 {
            assert(s.subrange(1, 6)[0] == '#');
        }
        if s.len() >= 5 {
            assert(s.subrange(1, 5)[0] == '#');
        }
    }
    if hex {
        assert(s.subrange(1, 3) =~= seq!['#', 'x']);
    } else {
        assert(s[2] == d[0]);
        assert(s.subrange(1, 3)[1] == s[2]);
        assert(s.subrange(1, 2) =~= seq!['#']);
    }
}

/// How the text that writes `c` is read: as the reference `&amp;` or
/// `&lt;` spanning it, or as the character itself.
proof fn lemma_written_read(c: char)
    ensures
        c == '&' ==> reference_at(written_as_text(c), 0) == Some((CharRef::Amp, 5int)),
        c == '<' ==> reference_at(written_as_text(c), 0) == Some((CharRef::Lt, 4int)),
        c != '&' && c != '<' ==> reference_at(written_as_text(c), 0) is None && written_as_text(c).len() == 1,
{
    let w = written_as_text(c);
    if c == '&' {
        assert(w.subrange(1, 5) =~= seq!['a', 'm', 'p', ';']);
    } else if c == '<' {
        assert(w.subrange(1, 4) =~= seq!['l', 't', ';']);
    }
}

/// Every reference in the text of a numeric reference to a character, and
/// in the text that writes a character, denotes a character.
proof fn lemma_reference_texts_valid(c: char, d: Seq<char>, hex: bool)
    requires
        d.len() > 0,
        forall|i: int| 0 <= i < d.len() ==> is_digit(#[trigger] d[i], hex),
        digits_value(d, hex) == c as nat,
    ensures
        refs_valid(numeric_ref_text(d, hex)),
        refs_valid(written_as_text(c)),
{
    let s = numeric_ref_text(d, hex);
    let w = written_as_text(c);
    lemma_numeric_ref_read(c, d, hex);
    lemma_written_read(c);
    assert(is_scalar(c as u32));
    assert(refs_valid_from(s, s.len() as int));
    assert(refs_valid_from(w, w.len() as int));
}

/// A reference to a character reads as that character written in character
/// data: in the same situation, `&#N;`, `&#xH;` and the character itself
/// (`&amp;` for `&`, `&lt;` for `<`) have one canonical form, and each of
/// them can be put in canonical form.
pub proof fn law_reference_same_as_character(c: char, d: Seq<char>, hex: bool, situation: Situation)
    requires
        d.len() > 0,
        forall|i: int| 0 <= i < d.len() ==> is_digit(#[trigger] d[i], hex),
        digits_value(d, hex) == c as nat,
    ensures
        canonical_text(numeric_ref_text(d, hex), situation) == ref_replacement(
            CharRef::Code(c as u32),
            situation,
        ),
        canonical_text(numeric_ref_text(d, hex), situation) == canonical_text(
            written_as_text(c),
            situation,
        ),
        refs_valid(numeric_ref_text(d, hex)),
        refs_valid(written_as_text(c)),
{
    let s = numeric_ref_text(d, hex);
    let w = written_as_text(c);
    lemma_numeric_ref_read(c, d, hex);
    lemma_written_read(c);
    assert(canonical_from(s, s.len() as int, situation) =~= Seq::<char>::empty());
    assert(canonical_text(s, situation) =~= ref_replacement(CharRef::Code(c as u32), situation));
    assert(canonical_from(w, w.len() as int, situation) =~= Seq::<char>::empty());
    if c != '&' && c != '<' {
        assert((c as u32) as char == c);
    }
    assert(canonical_text(w, situation) =~= ref_replacement(CharRef::Code(c as u32), situation));
    lemma_reference_texts_valid(c, d, hex);
}

/// A character that canonical form never writes as itself in the given
/// situation: `<` and carriage return anywhere, `>` in text content, `"`,
/// tab and line feed in attribute values.
pub open spec fn needs_escape(c: char, situation: Situation) -> bool {
    ||| c == '<'
    ||| c == '\r'
    ||| situation == Situation::Content && c == '>'
    ||| situation == Situation::Attribute && (c == '"' || c == '\t' || c == '\n')
}

/// `t` holds no character that needs escaping in `situation`.
pub open spec fn free_of_escapes(t: Seq<char>, situation: Situation) -> bool {
    forall|k: int| 0 <= k < t.len() ==> !needs_escape(#[trigger] t[k], situation)
}

proof fn lemma_free_concat(a: Seq<char>, b: Seq<char>, situation: Situation)
    requires
        free_of_escapes(a, situation),
        free_of_escapes(b, situation),
    ensures
        free_of_escapes(a + b, situation),
{
    assert forall|k: int| 0 <= k < (a + b).len() implies !needs_escape(#[trigger] (a + b)[k], situation) by {
        if k < a.len() {
            assert((a + b)[k] == a[k]);
        } else {
            assert((a + b)[k] == b[k - a.len()]);
        }
    }
}

proof fn lemma_replacements_free(r: CharRef, c: char, situation: Situation)
    ensures
        free_of_escapes(ref_replacement(r, situation), situation),
        free_of_escapes(char_replacement(c, situation), situation),
{
    let amp = seq!['&', 'a', 'm', 'p', ';'];
    let lt = seq!['&', 'l', 't', ';'];
    let gt = seq!['&', 'g', 't', ';'];
    let quot = seq!['&', 'q', 'u', 'o', 't', ';'];
    let cr = seq!['&', '#', 'x', 'D', ';'];
    let tab = seq!['&', '#', 'x', '9', ';'];
    let lf = seq!['&', '#', 'x', 'A', ';'];
    assert(free_of_escapes(amp, situation));
    assert(free_of_escapes(lt, situation));
    assert(free_of_escapes(gt, situation));
    assert(free_of_escapes(quot, situation));
    assert(free_of_escapes(cr, situation));
    assert(free_of_escapes(tab, situation));
    assert(free_of_escapes(lf, situation));
    assert(free_of_escapes(seq![c], situation) || char_replacement(c, situation) != seq![c]);
    if let CharRef::Code(code) = r {
        let d = code as char;
        assert(free_of_escapes(seq![d], situation) || char_replacement(d, situation) != seq![d]);
    }
}

proof fn lemma_canonical_from_free(s: Seq<char>, i: int, situation: Situation)
    ensures
        free_of_escapes(canonical_from(s, i, situation), situation),
    decreases s.len() - i,
{
    if 0 <= i < s.len() {
        lemma_reference_end(s, i);
        match reference_at(s, i) {
            Some((r, e)) => {
                lemma_canonical_from_free(s, e, situation);
                lemma_replacements_free(r, s[i], situation);
                lemma_free_concat(ref_replacement(r, situation), canonical_from(s, e, situation), situation);
            },
            None => {
                lemma_canonical_from_free(s, i + 1, situation);
                lemma_replacements_free(CharRef::Amp, s[i], situation);
                lemma_free_concat(char_replacement(s[i], situation), canonical_from(s, i + 1, situation), situation);
            },
        }
    }
}

/// Canonical character data is escaped: whatever the input, its canonical
/// form holds no `<` and no carriage return; in text content no `>`, and in
/// an attribute value no `"`, tab or line feed.
pub proof fn law_canonical_text_escaped(s: Seq<char>, situation: Situation)
    ensures
        free_of_escapes(canonical_text(s, situation), situation),
{
    lemma_canonical_from_free(s, 0, situation);
}

/// What stands pending outside the document element: nothing after it, and
/// before it at most the one line feed that separates a processing
/// instruction or a comment from it.
pub open spec fn outside_text_normalised(m: Model) -> bool {
    m.depth == 0 ==> {
        &&& m.after_root ==> m.text.len() == 0
        &&& m.text =~= Seq::<char>::empty() || m.text =~= seq!['\n']
    }
}

/// White space outside the document element is normalised: a
/// canonicalisation starts with nothing pending, and after every event it
/// handles, nothing but a single line feed stands pending outside the
/// document element, and nothing at all once that element has ended.
pub proof fn law_outside_whitespace_normalised(m: Model, e: XmlEvent)
    requires
        outside_text_normalised(m),
        accepts(m, e),
    ensures
        outside_text_normalised(initial_model(m.retain_comments)),
        outside_text_normalised(step(m, e).0),
{
}

} // verus!
