//! The order in which a start tag writes its attributes does not change its
//! canonical form.

use vstd::prelude::*;
use crate::text::seq_lt;
use crate::start::{
    RawAttribute, UrlLevels, sort_key, key_lt, register, declared_key, canonical_attributes,
    attribute_value, sort_attributes, parse_start_tag, start_tag_result, parse_attributes,
    parse_attribute, scan, lemma_scan, lemma_parse_attribute, CharClass, xmlns_name, xmlns_colon,
};
use crate::namespace::{merged, padded, bind_at};
use crate::laws::{
    in_canonical_order, distinct_declarations, lemma_merged_padded, law_attributes_in_canonical_order,
};

verus! {

broadcast use vstd::seq_lib::group_to_multiset_ensures;

/// Lexicographic order is total.
pub proof fn lemma_seq_lt_total(a: Seq<char>, b: Seq<char>)
    requires
        a != b,
    ensures
        seq_lt(a, b) || seq_lt(b, a),
    decreases a.len(),
{
    if a.len() == 0 && b.len() == 0 {
        assert(a =~= b);
    } else if a.len() > 0 && b.len() > 0 && a[0] == b[0] {
        let ta = a.drop_first();
        let tb = b.drop_first();
        if ta == tb {
            assert(ta.len() == tb.len());
            assert forall|i: int| 0 <= i < a.len() implies a[i] == b[i] by {
                if i > 0 {
                    assert(a[i] == ta[i - 1]);
                    assert(b[i] == tb[i - 1]);
                }
            }
            assert(a =~= b);
        }
        lemma_seq_lt_total(ta, tb);
    }
}

/// The order of sort keys is total.
pub proof fn lemma_key_lt_total(a: (nat, Seq<char>, Seq<char>), b: (nat, Seq<char>, Seq<char>))
    requires
        a != b,
    ensures
        key_lt(a, b) || key_lt(b, a),
{
    if a.0 == b.0 {
        if a.1 != b.1 {
            lemma_seq_lt_total(a.1, b.1);
        } else {
            lemma_seq_lt_total(a.2, b.2);
        }
    }
}

/// Two sequences in canonical order that hold the same attributes, each
/// once, whose different attributes have different keys, are one sequence.
pub proof fn lemma_canonical_order_unique(s1: Seq<RawAttribute>, s2: Seq<RawAttribute>, ns: Map<Seq<char>, Seq<char>>)
    requires
        in_canonical_order(s1, ns),
        in_canonical_order(s2, ns),
        s1.no_duplicates(),
        s2.no_duplicates(),
        forall|x: RawAttribute| s1.contains(x) <==> s2.contains(x),
        forall|x: RawAttribute, y: RawAttribute|
            s1.contains(x) && s1.contains(y) && x != y ==> sort_key(x.0, ns) != sort_key(y.0, ns),
    ensures
        s1 == s2,
    decreases s1.len(),
{
    if s1.len() == 0 {
        if s2.len() > 0 {
            assert(s2.contains(s2[0]));
        }
        assert(s1 =~= s2);
    } else {
        assert(s1.contains(s1[0]));
        let j = choose|j: int| 0 <= j < s2.len() && s2[j] == s1[0];
        assert(s2.contains(s2[0]));
        let i = choose|i: int| 0 <= i < s1.len() && s1[i] == s2[0];
        if s1[0] != s2[0] {
            assert(j > 0 && i > 0);
            assert(!key_lt(sort_key(s2[j].0, ns), sort_key(s2[0].0, ns)));
            assert(!key_lt(sort_key(s1[i].0, ns), sort_key(s1[0].0, ns)));
            assert(s1.contains(s2[0]));
            lemma_key_lt_total(sort_key(s1[0].0, ns), sort_key(s2[0].0, ns));
        }
        let t1 = s1.drop_first();
        let t2 = s2.drop_first();
        assert forall|x: RawAttribute| t1.contains(x) <==> t2.contains(x) by {
            if t1.contains(x) {
                let k = choose|k: int| 0 <= k < t1.len() && t1[k] == x;
                assert(s1[k + 1] == x);
                assert(s1.contains(x));
                let m = choose|m: int| 0 <= m < s2.len() && s2[m] == x;
                assert(m != 0);
                assert(t2[m - 1] == x);
            }
            if t2.contains(x) {
                let k = choose|k: int| 0 <= k < t2.len() && t2[k] == x;
                assert(s2[k + 1] == x);
                assert(s2.contains(x));
                let m = choose|m: int| 0 <= m < s1.len() && s1[m] == x;
                assert(m != 0);
                assert(t1[m - 1] == x);
            }
        }
        assert(in_canonical_order(t1, ns)) by {
            assert forall|a: int, b: int| 0 <= a < b < t1.len() implies !key_lt(
                sort_key(#[trigger] t1[b].0, ns),
                sort_key(#[trigger] t1[a].0, ns),
            ) by {
                assert(t1[a] == s1[a + 1] && t1[b] == s1[b + 1]);
            }
        }
        assert(in_canonical_order(t2, ns)) by {
            assert forall|a: int, b: int| 0 <= a < b < t2.len() implies !key_lt(
                sort_key(#[trigger] t2[b].0, ns),
                sort_key(#[trigger] t2[a].0, ns),
            ) by {
                assert(t2[a] == s2[a + 1] && t2[b] == s2[b + 1]);
            }
        }
        assert forall|x: RawAttribute, y: RawAttribute|
            t1.contains(x) && t1.contains(y) && x != y implies sort_key(x.0, ns) != sort_key(y.0, ns) by {
            let a = choose|a: int| 0 <= a < t1.len() && t1[a] == x;
            let b = choose|b: int| 0 <= b < t1.len() && t1[b] == y;
            assert(s1[a + 1] == x && s1[b + 1] == y);
            assert(s1.contains(x) && s1.contains(y));
        }
        assert(t1.no_duplicates()) by {
            assert forall|a: int, b: int| 0 <= a < t1.len() && 0 <= b < t1.len() && a != b implies t1[a] != t1[b] by {
                assert(t1[a] == s1[a + 1] && t1[b] == s1[b + 1]);
            }
        }
        assert(t2.no_duplicates()) by {
            assert forall|a: int, b: int| 0 <= a < t2.len() && 0 <= b < t2.len() && a != b implies t2[a] != t2[b] by {
                assert(t2[a] == s2[a + 1] && t2[b] == s2[b + 1]);
            }
        }
        lemma_canonical_order_unique(t1, t2, ns);
        assert(s1 =~= seq![s1[0]] + t1);
        assert(s2 =~= seq![s2[0]] + t2);
    }
}


/// A namespace declaration that binds its name to the URI that `levels`
/// already give it.
pub open spec fn superfluous(levels: UrlLevels, a: RawAttribute) -> bool {
    match declared_key(a.0) {
        Some(k) => merged(levels).contains_key(k) && merged(levels)[k] == a.1,
        None => false,
    }
}

/// A namespace declaration that is not superfluous.
pub open spec fn recorded(levels: UrlLevels, a: RawAttribute) -> bool {
    declared_key(a.0) is Some && !superfluous(levels, a)
}

/// The bindings that the declarations among `attrs` record on `levels`.
pub open spec fn recorded_map(levels: UrlLevels, attrs: Seq<RawAttribute>) -> Map<Seq<char>, Seq<char>>
    decreases attrs.len(),
{
    if attrs.len() == 0 {
        Map::empty()
    } else {
        let m = recorded_map(levels, attrs.drop_last());
        let a = attrs.last();
        if recorded(levels, a) {
            m.insert(declared_key(a.0).unwrap(), a.1)
        } else {
            m
        }
    }
}

/// `levels` with the bindings that `attrs` record added at `depth`.
pub open spec fn registered_levels(levels: UrlLevels, depth: nat, attrs: Seq<RawAttribute>) -> UrlLevels {
    let r = recorded_map(levels, attrs);
    if r == Map::<Seq<char>, Seq<char>>::empty() {
        levels
    } else {
        let p = padded(levels, depth + 1);
        p.update(depth as int, p[depth as int].union_prefer_right(r))
    }
}

/// What `recorded_map` holds: for each recorded declaration, its name bound
/// to its URI, and nothing else.
pub proof fn lemma_recorded_map(levels: UrlLevels, attrs: Seq<RawAttribute>)
    requires
        distinct_declarations(attrs),
    ensures
        forall|k: Seq<char>| #[trigger] recorded_map(levels, attrs).contains_key(k) <==> exists|i: int|
            0 <= i < attrs.len() && recorded(levels, attrs[i]) && declared_key(#[trigger] attrs[i].0) == Some(k),
        forall|i: int| 0 <= i < attrs.len() && recorded(levels, #[trigger] attrs[i]) ==> recorded_map(
            levels,
            attrs,
        )[declared_key(attrs[i].0).unwrap()] == attrs[i].1,
    decreases attrs.len(),
{
    if attrs.len() > 0 {
        let init = attrs.drop_last();
        let last = attrs.len() - 1;
        assert(distinct_declarations(init)) by {
            assert forall|i: int, j: int|
                0 <= i < init.len() && 0 <= j < init.len() && i != j && declared_key(
                    #[trigger] init[i].0,
                ) is Some implies declared_key(init[i].0) != declared_key(#[trigger] init[j].0) by {
                assert(init[i] == attrs[i] && init[j] == attrs[j]);
            }
        }
        lemma_recorded_map(levels, init);
        let m = recorded_map(levels, init);
        assert forall|k: Seq<char>| #[trigger] recorded_map(levels, attrs).contains_key(k) <==> exists|i: int|
            0 <= i < attrs.len() && recorded(levels, attrs[i]) && declared_key(#[trigger] attrs[i].0) == Some(k) by {
            if recorded_map(levels, attrs).contains_key(k) {
                if m.contains_key(k) {
                    let i = choose|i: int|
                        0 <= i < init.len() && recorded(levels, init[i]) && declared_key(#[trigger] init[i].0) == Some(k);
                    assert(attrs[i] == init[i]);
                } else {
                    assert(declared_key(attrs[last].0) == Some(k));
                }
            }
            if exists|i: int|
                0 <= i < attrs.len() && recorded(levels, attrs[i]) && declared_key(#[trigger] attrs[i].0) == Some(k) {
                let i = choose|i: int|
                    0 <= i < attrs.len() && recorded(levels, attrs[i]) && declared_key(#[trigger] attrs[i].0) == Some(k);
                if i < last {
                    assert(init[i] == attrs[i]);
                    assert(m.contains_key(k));
                }
            }
        }
        assert forall|i: int| 0 <= i < attrs.len() && recorded(levels, #[trigger] attrs[i]) implies recorded_map(
            levels,
            attrs,
        )[declared_key(attrs[i].0).unwrap()] == attrs[i].1 by {
            if i < last {
                assert(init[i] == attrs[i]);
                assert(declared_key(attrs[i].0) != declared_key(attrs[last].0));
            }
        }
    }
}

/// Levels that bind a name alike, level by level, read it alike.
proof fn lemma_merged_agree(l1: UrlLevels, l2: UrlLevels, k: Seq<char>)
    requires
        l1.len() == l2.len(),
        forall|i: int| 0 <= i < l1.len() ==> (#[trigger] l1[i]).contains_key(k) == l2[i].contains_key(k),
        forall|i: int| 0 <= i < l1.len() && (#[trigger] l1[i]).contains_key(k) ==> l1[i][k] == l2[i][k],
    ensures
        merged(l1).contains_key(k) == merged(l2).contains_key(k),
        merged(l1).contains_key(k) ==> merged(l1)[k] == merged(l2)[k],
    decreases l1.len(),
{
    if l1.len() > 0 {
        let i1 = l1.drop_last();
        let i2 = l2.drop_last();
        assert forall|i: int| 0 <= i < i1.len() implies (#[trigger] i1[i]).contains_key(k) == i2[i].contains_key(k)
            && (i1[i].contains_key(k) ==> i1[i][k] == i2[i][k]) by {
            assert(i1[i] == l1[i] && i2[i] == l2[i]);
        }
        lemma_merged_agree(i1, i2, k);
        assert(l1.last() == l1[l1.len() - 1] && l2.last() == l2[l2.len() - 1]);
    }
}

/// A name that the declarations do not record reads after registering as
/// it read before.
pub proof fn lemma_registered_reads(levels: UrlLevels, depth: nat, attrs: Seq<RawAttribute>, k: Seq<char>)
    requires
        !recorded_map(levels, attrs).contains_key(k),
    ensures
        merged(registered_levels(levels, depth, attrs)).contains_key(k) == merged(levels).contains_key(k),
        merged(levels).contains_key(k) ==> merged(registered_levels(levels, depth, attrs))[k] == merged(levels)[k],
{
    let r = recorded_map(levels, attrs);
    if r != Map::<Seq<char>, Seq<char>>::empty() {
        let p = padded(levels, depth + 1);
        let u = p.update(depth as int, p[depth as int].union_prefer_right(r));
        lemma_merged_padded(levels, depth + 1);
        assert forall|i: int| 0 <= i < u.len() implies (#[trigger] u[i]).contains_key(k) == p[i].contains_key(k) by {
            if i == depth {
                assert(u[i] == p[i].union_prefer_right(r));
            }
        }
        assert forall|i: int| 0 <= i < u.len() && (#[trigger] u[i]).contains_key(k) implies u[i][k] == p[i][k] by {
            if i == depth {
                assert(u[i] == p[i].union_prefer_right(r));
            }
        }
        lemma_merged_agree(u, p, k);
    }
}

/// Registering declarations that declare different names: the levels that
/// result are `registered_levels`, and the attributes kept are those that
/// are not superfluous.
pub proof fn lemma_register_closed(levels: UrlLevels, depth: nat, attrs: Seq<RawAttribute>)
    requires
        distinct_declarations(attrs),
    ensures
        register(levels, depth, attrs).0 == registered_levels(levels, depth, attrs),
        forall|x: RawAttribute| #[trigger] register(levels, depth, attrs).1.contains(x) <==> attrs.contains(x)
            && !superfluous(levels, x),
        attrs.no_duplicates() ==> register(levels, depth, attrs).1.no_duplicates(),
    decreases attrs.len(),
{
    if attrs.len() > 0 {
        let init = attrs.drop_last();
        let last = attrs.len() - 1;
        let a = attrs.last();
        assert(distinct_declarations(init)) by {
            assert forall|i: int, j: int|
                0 <= i < init.len() && 0 <= j < init.len() && i != j && declared_key(
                    #[trigger] init[i].0,
                ) is Some implies declared_key(init[i].0) != declared_key(#[trigger] init[j].0) by {
                assert(init[i] == attrs[i] && init[j] == attrs[j]);
            }
        }
        lemma_register_closed(levels, depth, init);
        lemma_recorded_map(levels, init);
        let (lv, kept) = register(levels, depth, init);
        let r = recorded_map(levels, init);
        assert forall|x: RawAttribute| attrs.contains(x) <==> init.contains(x) || x == a by {
            if attrs.contains(x) {
                let i = choose|i: int| 0 <= i < attrs.len() && attrs[i] == x;
                if i < last {
                    assert(init[i] == x);
                }
            }
            if init.contains(x) {
                let i = choose|i: int| 0 <= i < init.len() && init[i] == x;
                assert(attrs[i] == x);
            }
            assert(attrs[last] == a);
        }
        if attrs.no_duplicates() {
            assert(init.no_duplicates()) by {
                assert forall|i: int, j: int| 0 <= i < init.len() && 0 <= j < init.len() && i != j implies init[i] != init[j] by {
                    assert(init[i] == attrs[i] && init[j] == attrs[j]);
                }
            }
            assert(!init.contains(a)) by {
                if init.contains(a) {
                    let i = choose|i: int| 0 <= i < init.len() && init[i] == a;
                    assert(attrs[i] == attrs[last]);
                }
            }
        }
        match declared_key(a.0) {
            None => {
                assert(recorded_map(levels, attrs) == r);
                assert forall|x: RawAttribute| #[trigger] kept.push(a).contains(x) <==> kept.contains(x) || x == a by {
                    if kept.push(a).contains(x) {
                        let i = choose|i: int| 0 <= i < kept.push(a).len() && kept.push(a)[i] == x;
                        if i < kept.len() {
                            assert(kept[i] == x);
                        }
                    }
                    if kept.contains(x) {
                        let i = choose|i: int| 0 <= i < kept.len() && kept[i] == x;
                        assert(kept.push(a)[i] == x);
                    }
                    assert(kept.push(a)[kept.len() as int] == a);
                }
                if attrs.no_duplicates() {
                    assert(kept.push(a).no_duplicates()) by {
                        assert forall|i: int, j: int|
                            0 <= i < kept.push(a).len() && 0 <= j < kept.push(a).len() && i != j implies kept.push(a)[i]
                            != kept.push(a)[j] by {
                            if i < kept.len() {
                                assert(kept.push(a)[i] == kept[i]);
                                assert(kept.contains(kept[i]));
                            }
                            if j < kept.len() {
                                assert(kept.push(a)[j] == kept[j]);
                                assert(kept.contains(kept[j]));
                            }
                        }
                    }
                }
            },
            Some(k) => {
                assert(!r.contains_key(k)) by {
                    if r.contains_key(k) {
                        let i = choose|i: int|
                            0 <= i < init.len() && recorded(levels, init[i]) && declared_key(#[trigger] init[i].0) == Some(k);
                        assert(init[i] == attrs[i]);
                        assert(declared_key(attrs[i].0) != declared_key(attrs[last].0));
                    }
                }
                lemma_registered_reads(levels, depth, init, k);
                assert(merged(lv).contains_key(k) == merged(levels).contains_key(k));
                assert(merged(lv).contains_key(k) ==> merged(lv)[k] == merged(levels)[k]);
                if superfluous(levels, a) {
                    assert(recorded_map(levels, attrs) == r);
                } else {
                    let v = a.1;
                    assert(recorded_map(levels, attrs) == r.insert(k, v));
                    assert(recorded_map(levels, attrs).contains_key(k));
                    let p = padded(levels, depth + 1);
                    if r == Map::<Seq<char>, Seq<char>>::empty() {
                        assert(p[depth as int].insert(k, v) =~= p[depth as int].union_prefer_right(r.insert(k, v)));
                        assert(bind_at(lv, depth, k, v) =~= registered_levels(levels, depth, attrs));
                    } else {
                        assert(padded(lv, depth + 1) =~= lv);
                        assert(p[depth as int].union_prefer_right(r).insert(k, v) =~= p[depth as int].union_prefer_right(
                            r.insert(k, v),
                        ));
                        assert(bind_at(lv, depth, k, v) =~= registered_levels(levels, depth, attrs));
                    }
                    assert forall|x: RawAttribute| #[trigger] kept.push(a).contains(x) <==> kept.contains(x) || x == a by {
                        if kept.push(a).contains(x) {
                            let i = choose|i: int| 0 <= i < kept.push(a).len() && kept.push(a)[i] == x;
                            if i < kept.len() {
                                assert(kept[i] == x);
                            }
                        }
                        if kept.contains(x) {
                            let i = choose|i: int| 0 <= i < kept.len() && kept[i] == x;
                            assert(kept.push(a)[i] == x);
                        }
                        assert(kept.push(a)[kept.len() as int] == a);
                    }
                    if attrs.no_duplicates() {
                        assert(kept.push(a).no_duplicates()) by {
                            assert forall|i: int, j: int|
                                0 <= i < kept.push(a).len() && 0 <= j < kept.push(a).len() && i != j implies kept.push(a)[i]
                                != kept.push(a)[j] by {
                                if i < kept.len() {
                                    assert(kept.push(a)[i] == kept[i]);
                                    assert(kept.contains(kept[i]));
                                }
                                if j < kept.len() {
                                    assert(kept.push(a)[j] == kept[j]);
                                    assert(kept.contains(kept[j]));
                                }
                            }
                        }
                    }
                }
            },
        }
    }
}


/// No two attributes have the same name.
pub open spec fn distinct_names(attrs: Seq<RawAttribute>) -> bool {
    forall|i: int, j: int|
        0 <= i < attrs.len() && 0 <= j < attrs.len() && i != j ==> (#[trigger] attrs[i]).0 != (#[trigger] attrs[j]).0
}

/// No two attributes have the same key in canonical order.
pub open spec fn distinct_sort_keys(attrs: Seq<RawAttribute>, ns: Map<Seq<char>, Seq<char>>) -> bool {
    forall|i: int, j: int|
        0 <= i < attrs.len() && 0 <= j < attrs.len() && i != j ==> sort_key((#[trigger] attrs[i]).0, ns)
            != sort_key((#[trigger] attrs[j]).0, ns)
}

/// Values in canonical form keep each attribute's name, index by index.
proof fn lemma_canonical_attributes(raws: Seq<RawAttribute>)
    ensures
        canonical_attributes(raws).len() == raws.len(),
        forall|i: int| 0 <= i < raws.len() ==> #[trigger] canonical_attributes(raws)[i] == (
            raws[i].0,
            attribute_value(raws[i].1),
        ),
        distinct_names(raws) ==> canonical_attributes(raws).no_duplicates(),
        distinct_declarations(raws) ==> distinct_declarations(canonical_attributes(raws)),
{
    let c = canonical_attributes(raws);
    if distinct_names(raws) {
        assert forall|i: int, j: int| 0 <= i < c.len() && 0 <= j < c.len() && i != j implies c[i] != c[j] by {
            assert(raws[i].0 != raws[j].0);
        }
    }
    if distinct_declarations(raws) {
        assert forall|i: int, j: int|
            0 <= i < c.len() && 0 <= j < c.len() && i != j && declared_key(#[trigger] c[i].0) is Some implies declared_key(
                c[i].0,
            ) != declared_key(#[trigger] c[j].0) by {
            assert(c[i].0 == raws[i].0 && c[j].0 == raws[j].0);
            assert(declared_key(raws[i].0) is Some);
        }
    }
}

/// The same attributes, in whatever order, have their values put in
/// canonical form alike.
proof fn lemma_canonical_attributes_same(r1: Seq<RawAttribute>, r2: Seq<RawAttribute>)
    requires
        r1.to_multiset() == r2.to_multiset(),
    ensures
        forall|x: RawAttribute| canonical_attributes(r1).contains(x) <==> canonical_attributes(r2).contains(x),
{
    lemma_canonical_attributes(r1);
    lemma_canonical_attributes(r2);
    let c1 = canonical_attributes(r1);
    let c2 = canonical_attributes(r2);
    assert forall|x: RawAttribute| c1.contains(x) implies c2.contains(x) by {
        let i = choose|i: int| 0 <= i < c1.len() && c1[i] == x;
        assert(r1.contains(r1[i]));
        assert(r1.to_multiset().count(r1[i]) > 0);
        assert(r2.contains(r1[i]));
        let j = choose|j: int| 0 <= j < r2.len() && r2[j] == r1[i];
        assert(c2[j] == x);
    }
    assert forall|x: RawAttribute| c2.contains(x) implies c1.contains(x) by {
        let j = choose|j: int| 0 <= j < c2.len() && c2[j] == x;
        assert(r2.contains(r2[j]));
        assert(r2.to_multiset().count(r2[j]) > 0);
        assert(r1.contains(r2[j]));
        let i = choose|i: int| 0 <= i < r1.len() && r1[i] == r2[j];
        assert(c1[i] == x);
    }
}

/// Declarations that hold the same attributes record the same bindings.
proof fn lemma_recorded_map_same(levels: UrlLevels, a1: Seq<RawAttribute>, a2: Seq<RawAttribute>)
    requires
        distinct_declarations(a1),
        distinct_declarations(a2),
        forall|x: RawAttribute| a1.contains(x) <==> a2.contains(x),
    ensures
        recorded_map(levels, a1) == recorded_map(levels, a2),
{
    lemma_recorded_map(levels, a1);
    lemma_recorded_map(levels, a2);
    let m1 = recorded_map(levels, a1);
    let m2 = recorded_map(levels, a2);
    assert forall|k: Seq<char>| m1.contains_key(k) implies m2.contains_key(k) && m2[k] == m1[k] by {
        let i = choose|i: int| 0 <= i < a1.len() && recorded(levels, a1[i]) && declared_key(#[trigger] a1[i].0) == Some(k);
        assert(a1.contains(a1[i]));
        let j = choose|j: int| 0 <= j < a2.len() && a2[j] == a1[i];
        assert(recorded(levels, a2[j]) && declared_key(a2[j].0) == Some(k));
    }
    assert forall|k: Seq<char>| m2.contains_key(k) implies m1.contains_key(k) by {
        let j = choose|j: int| 0 <= j < a2.len() && recorded(levels, a2[j]) && declared_key(#[trigger] a2[j].0) == Some(k);
        assert(a2.contains(a2[j]));
        let i = choose|i: int| 0 <= i < a1.len() && a1[i] == a2[j];
        assert(recorded(levels, a1[i]) && declared_key(a1[i].0) == Some(k));
    }
    assert(m1 =~= m2);
}

/// Sorting keeps what a sequence holds, and that it holds nothing twice.
proof fn lemma_sorted_same_elements(attrs: Seq<RawAttribute>, ns: Map<Seq<char>, Seq<char>>)
    ensures
        in_canonical_order(sort_attributes(attrs, ns), ns),
        forall|x: RawAttribute| sort_attributes(attrs, ns).contains(x) <==> attrs.contains(x),
        attrs.no_duplicates() ==> sort_attributes(attrs, ns).no_duplicates(),
{
    let s = sort_attributes(attrs, ns);
    law_attributes_in_canonical_order(attrs, ns);
    assert forall|x: RawAttribute| s.contains(x) <==> attrs.contains(x) by {
        assert(s.to_multiset().count(x) == attrs.to_multiset().count(x));
    }
    if attrs.no_duplicates() {
        attrs.lemma_multiset_has_no_duplicates();
        s.lemma_multiset_has_no_duplicates_conv();
    }
}

/// The order in which a tag writes its attributes changes neither the
/// namespace bindings that it leaves nor the attributes it writes, in
/// their order: two lists of the same attributes, of distinct names, that
/// declare distinct names and have distinct keys in canonical order,
/// register the same bindings and keep the same attributes, sorted alike.
pub proof fn law_attribute_order_irrelevant(levels: UrlLevels, depth: nat, r1: Seq<RawAttribute>, r2: Seq<RawAttribute>)
    requires
        r1.to_multiset() == r2.to_multiset(),
        distinct_names(r1),
        distinct_declarations(r1),
        distinct_sort_keys(r1, merged(register(levels, depth, canonical_attributes(r1)).0)),
    ensures
        register(levels, depth, canonical_attributes(r1)).0 == register(
            levels,
            depth,
            canonical_attributes(r2),
        ).0,
        sort_attributes(
            register(levels, depth, canonical_attributes(r1)).1,
            merged(register(levels, depth, canonical_attributes(r1)).0),
        ) == sort_attributes(
            register(levels, depth, canonical_attributes(r2)).1,
            merged(register(levels, depth, canonical_attributes(r2)).0),
        ),
{
    let c1 = canonical_attributes(r1);
    let c2 = canonical_attributes(r2);
    lemma_distinct_names_permutation(r1, r2);
    lemma_canonical_attributes(r1);
    lemma_canonical_attributes(r2);
    lemma_canonical_attributes_same(r1, r2);
    lemma_register_closed(levels, depth, c1);
    lemma_register_closed(levels, depth, c2);
    lemma_recorded_map_same(levels, c1, c2);
    let (lv, k1) = register(levels, depth, c1);
    let k2 = register(levels, depth, c2).1;
    let ns = merged(lv);
    assert forall|x: RawAttribute| k1.contains(x) <==> k2.contains(x) by {
        assert(k1.contains(x) <==> c1.contains(x) && !superfluous(levels, x));
        assert(k2.contains(x) <==> c2.contains(x) && !superfluous(levels, x));
    }
    lemma_sorted_same_elements(k1, ns);
    lemma_sorted_same_elements(k2, ns);
    let s1 = sort_attributes(k1, ns);
    let s2 = sort_attributes(k2, ns);
    assert forall|x: RawAttribute, y: RawAttribute|
        s1.contains(x) && s1.contains(y) && x != y implies sort_key(x.0, ns) != sort_key(y.0, ns) by {
        assert(k1.contains(x) && k1.contains(y));
        assert(c1.contains(x) && c1.contains(y));
        let i = choose|i: int| 0 <= i < c1.len() && c1[i] == x;
        let j = choose|j: int| 0 <= j < c1.len() && c1[j] == y;
        assert(r1[i].0 == x.0 && r1[j].0 == y.0);
    }
    assert forall|x: RawAttribute| s1.contains(x) <==> s2.contains(x) by {
        assert(s1.contains(x) <==> k1.contains(x));
        assert(s2.contains(x) <==> k2.contains(x));
        assert(k1.contains(x) <==> k2.contains(x));
    }
    lemma_canonical_order_unique(s1, s2, ns);
}

/// No attribute name holds `=`.
pub open spec fn names_without_equals(attrs: Seq<RawAttribute>) -> bool {
    forall|a: int, k: int| 0 <= a < attrs.len() && 0 <= k < attrs[a].0.len() ==> #[trigger] attrs[a].0[k] != '='
}

/// The attribute names that a start tag holds have no `=` in them.
proof fn lemma_parsed_names(s: Seq<char>, i: int)
    ensures
        parse_attributes(s, i) matches Some(attrs) ==> names_without_equals(attrs),
    decreases s.len() - i,
{
    if 0 <= i <= s.len() {
        lemma_scan(s, i, CharClass::Space);
        let j = scan(s, i, CharClass::Space);
        if j < s.len() && j != i {
            lemma_parse_attribute(s, j);
            if let Some((a, e)) = parse_attribute(s, j) {
                lemma_parsed_names(s, e);
                lemma_scan(s, j, CharClass::Name);
                let n = scan(s, j, CharClass::Name);
                assert(a.0 == s.subrange(j, n));
                if let Some(rest) = parse_attributes(s, e) {
                    let attrs = seq![a] + rest;
                    assert forall|x: int, k: int| 0 <= x < attrs.len() && 0 <= k < attrs[x].0.len() implies #[trigger] attrs[x].0[k]
                        != '=' by {
                        if x == 0 {
                            assert(attrs[x].0[k] == s[j + k]);
                        } else {
                            assert(attrs[x] == rest[x - 1]);
                        }
                    }
                }
            }
        }
    }
}

/// Attributes of distinct names, none holding `=`, declare distinct names.
proof fn lemma_distinct_declarations(attrs: Seq<RawAttribute>)
    requires
        distinct_names(attrs),
        names_without_equals(attrs),
    ensures
        distinct_declarations(attrs),
{
    assert forall|i: int, j: int|
        0 <= i < attrs.len() && 0 <= j < attrs.len() && i != j && declared_key(#[trigger] attrs[i].0) is Some implies declared_key(
            attrs[i].0,
        ) != declared_key(#[trigger] attrs[j].0) by {
        let ni = attrs[i].0;
        let nj = attrs[j].0;
        assert(ni != nj);
        if declared_key(ni) == declared_key(nj) {
            if ni == xmlns_name() {
                if nj != xmlns_name() {
                    assert(nj.skip(6) == seq!['=']);
                    assert(nj[6] == nj.skip(6)[0]);
                    assert(attrs[j].0[6] != '=');
                }
            } else if nj == xmlns_name() {
                assert(ni.skip(6) == seq!['=']);
                assert(ni[6] == ni.skip(6)[0]);
                assert(attrs[i].0[6] != '=');
            } else {
                assert(ni.take(6) == xmlns_colon() && nj.take(6) == xmlns_colon());
                assert(ni.skip(6) == nj.skip(6));
                assert(ni =~= ni.take(6) + ni.skip(6));
                assert(nj =~= nj.take(6) + nj.skip(6));
            }
        }
    }
}

/// The same attributes in another order have distinct names too.
proof fn lemma_distinct_names_permutation(r1: Seq<RawAttribute>, r2: Seq<RawAttribute>)
    requires
        distinct_names(r1),
        r1.to_multiset() == r2.to_multiset(),
    ensures
        distinct_names(r2),
        distinct_declarations(r1) ==> distinct_declarations(r2),
{
    assert(r1.no_duplicates()) by {
        assert forall|i: int, j: int| 0 <= i < r1.len() && 0 <= j < r1.len() && i != j implies r1[i] != r1[j] by {
            assert(r1[i].0 != r1[j].0);
        }
    }
    r1.lemma_multiset_has_no_duplicates();
    r2.lemma_multiset_has_no_duplicates_conv();
    assert forall|i: int, j: int|
        0 <= i < r2.len() && 0 <= j < r2.len() && i != j implies (#[trigger] r2[i]).0 != (#[trigger] r2[j]).0 by {
        assert(r2[i] != r2[j]);
        assert(r2.contains(r2[i]) && r2.contains(r2[j]));
        assert(r2.to_multiset().count(r2[i]) > 0 && r2.to_multiset().count(r2[j]) > 0);
        assert(r1.contains(r2[i]) && r1.contains(r2[j]));
        let a = choose|a: int| 0 <= a < r1.len() && r1[a] == r2[i];
        let b = choose|b: int| 0 <= b < r1.len() && r1[b] == r2[j];
        assert(r1[a].0 != r1[b].0);
    }
    if distinct_declarations(r1) {
        assert forall|i: int, j: int|
            0 <= i < r2.len() && 0 <= j < r2.len() && i != j && declared_key(#[trigger] r2[i].0) is Some implies declared_key(
                r2[i].0,
            ) != declared_key(#[trigger] r2[j].0) by {
            assert(r2[i] != r2[j]);
            assert(r2.contains(r2[i]) && r2.contains(r2[j]));
            assert(r2.to_multiset().count(r2[i]) > 0 && r2.to_multiset().count(r2[j]) > 0);
            assert(r1.contains(r2[i]) && r1.contains(r2[j]));
            let a = choose|a: int| 0 <= a < r1.len() && r1[a] == r2[i];
            let b = choose|b: int| 0 <= b < r1.len() && r1[b] == r2[j];
            assert(declared_key(r1[a].0) is Some);
        }
    }
}

/// The canonical form of a start tag does not depend on the order in which
/// it writes its attributes: two tags with the same name and the same
/// attributes, of distinct names and distinct keys in canonical order,
/// written in any order, have the same canonical form and leave the same
/// namespace bindings.
pub proof fn law_start_tag_attribute_order_irrelevant(t1: Seq<char>, t2: Seq<char>, depth: nat, levels: UrlLevels)
    requires
        parse_start_tag(t1) is Some,
        parse_start_tag(t2) is Some,
        parse_start_tag(t1).unwrap().0 == parse_start_tag(t2).unwrap().0,
        parse_start_tag(t1).unwrap().1.to_multiset() == parse_start_tag(t2).unwrap().1.to_multiset(),
        distinct_names(parse_start_tag(t1).unwrap().1),
        distinct_sort_keys(
            parse_start_tag(t1).unwrap().1,
            merged(register(levels, depth, canonical_attributes(parse_start_tag(t1).unwrap().1)).0),
        ),
    ensures
        start_tag_result(t1, depth, levels) == start_tag_result(t2, depth, levels),
{
    let r1 = parse_start_tag(t1).unwrap().1;
    let r2 = parse_start_tag(t2).unwrap().1;
    lemma_distinct_names_permutation(r1, r2);
    lemma_parsed_names(t1, scan(t1, 0, CharClass::Name));
    lemma_parsed_names(t2, scan(t2, 0, CharClass::Name));
    lemma_distinct_declarations(r1);
    law_attribute_order_irrelevant(levels, depth, r1, r2);
}

} // verus!
