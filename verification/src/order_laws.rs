//! The canonical order of attributes, stated name against name: the
//! default namespace declaration first, then the other declarations by
//! prefix, then unqualified attributes by name, then qualified attributes
//! by namespace URI and local name, names compared by code point.

use vstd::prelude::*;
use crate::text::seq_lt;
use crate::start::{sort_key, key_lt, colon_from, xmlns_colon};

verus! {

/// `xmlns`, the name that declares the default namespace.
pub open spec fn default_declaration() -> Seq<char> {
    seq!['x', 'm', 'l', 'n', 's']
}

/// `xmlns:` followed by `prefix`, the name that declares `prefix`.
pub open spec fn prefix_declaration(prefix: Seq<char>) -> Seq<char> {
    seq!['x', 'm', 'l', 'n', 's', ':'] + prefix
}

/// `s` holds no `:`.
pub open spec fn no_colon(s: Seq<char>) -> bool {
    forall|k: int| 0 <= k < s.len() ==> #[trigger] s[k] != ':'
}

/// An unqualified attribute name that declares no namespace.
pub open spec fn unqualified(name: Seq<char>) -> bool {
    name != default_declaration() && no_colon(name)
}

/// The qualified name `prefix:local`, where the prefix is not `xmlns`.
pub open spec fn qualified(prefix: Seq<char>, local: Seq<char>) -> Seq<char> {
    prefix + seq![':'] + local
}

/// A prefix and local part that make a qualified attribute name.
pub open spec fn qualified_parts(prefix: Seq<char>, local: Seq<char>) -> bool {
    no_colon(prefix) && no_colon(local) && prefix != default_declaration()
}

/// The namespace URI of a prefix under `ns`: empty where it is not bound.
pub open spec fn uri_of(prefix: Seq<char>, ns: Map<Seq<char>, Seq<char>>) -> Seq<char> {
    if ns.contains_key(prefix) {
        ns[prefix]
    } else {
        Seq::empty()
    }
}

/// Where the first `:` at or after `i` stands.
proof fn lemma_colon_at(s: Seq<char>, i: int, j: int)
    requires
        0 <= i <= j <= s.len(),
        forall|k: int| i <= k < j ==> #[trigger] s[k] != ':',
        j == s.len() || s[j] == ':',
    ensures
        colon_from(s, i) == j,
    decreases j - i,
{
    if i < j {
        lemma_colon_at(s, i + 1, j);
    }
}

/// A common beginning does not change which of two texts comes first.
proof fn lemma_seq_lt_common_prefix(x: Seq<char>, p: Seq<char>, q: Seq<char>)
    ensures
        seq_lt(x + p, x + q) == seq_lt(p, q),
    decreases x.len(),
{
    if x.len() == 0 {
        assert(x + p =~= p);
        assert(x + q =~= q);
    } else {
        lemma_seq_lt_common_prefix(x.drop_first(), p, q);
        assert((x + p).drop_first() =~= x.drop_first() + p);
        assert((x + q).drop_first() =~= x.drop_first() + q);
    }
}

/// A name without `:` that is not `xmlns` is sorted by itself, among
/// unqualified attributes.
proof fn lemma_unqualified_key(a: Seq<char>, ns: Map<Seq<char>, Seq<char>>)
    requires
        unqualified(a),
    ensures
        sort_key(a, ns) == (2nat, a, Seq::<char>::empty()),
{
    lemma_colon_at(a, 0, a.len() as int);
    if a.len() >= 6 {
        assert(a.take(6)[5] == a[5]);
        assert(xmlns_colon()[5] == ':');
    }
}

/// A declaration of a prefix is sorted by its name, among declarations.
proof fn lemma_declaration_key(p: Seq<char>, ns: Map<Seq<char>, Seq<char>>)
    ensures
        sort_key(prefix_declaration(p), ns) == (1nat, prefix_declaration(p), Seq::<char>::empty()),
{
    let a = prefix_declaration(p);
    assert(a.take(6) =~= xmlns_colon());
    assert(a != default_declaration()) by {
        assert(a.len() != default_declaration().len());
    }
}

/// A qualified name is sorted by the URI of its prefix and its local part,
/// among qualified attributes.
proof fn lemma_qualified_key(p: Seq<char>, l: Seq<char>, ns: Map<Seq<char>, Seq<char>>)
    requires
        qualified_parts(p, l),
    ensures
        sort_key(qualified(p, l), ns) == (3nat, uri_of(p, ns), l),
{
    let a = qualified(p, l);
    let c = p.len() as int;
    assert(a[c] == ':');
    assert forall|k: int| 0 <= k < c implies #[trigger] a[k] != ':' by {
        assert(a[k] == p[k]);
    }
    lemma_colon_at(a, 0, c);
    assert forall|k: int| c + 1 <= k < a.len() implies #[trigger] a[k] != ':' by {
        assert(a[k] == l[k - c - 1]);
    }
    lemma_colon_at(a, c + 1, a.len() as int);
    assert(a.take(c) =~= p);
    assert(a.subrange(c + 1, a.len() as int) =~= l);
    assert(a != default_declaration()) by {
        if a.len() == 5 {
            if c < 5 {
                assert(default_declaration()[c] != ':');
            }
        }
    }
    if a.len() >= 6 && a.take(6) == xmlns_colon() {
        if c < 5 {
            assert(a.take(6)[c] == a[c]);
            assert(xmlns_colon()[c] != ':');
        } else if c == 5 {
            assert(p =~= default_declaration()) by {
                assert forall|k: int| 0 <= k < 5 implies p[k] == default_declaration()[k] by {
                    assert(a.take(6)[k] == a[k]);
                    assert(a[k] == p[k]);
                }
            }
        } else {
            assert(a.take(6)[5] == a[5]);
            assert(a[5] == p[5]);
        }
    }
}

/// Unqualified attributes are ordered by name, character by character in
/// code-point order: `a` comes before `b` exactly when `a` precedes `b`
/// lexicographically.
pub proof fn law_unqualified_order(a: Seq<char>, b: Seq<char>, ns: Map<Seq<char>, Seq<char>>)
    requires
        unqualified(a),
        unqualified(b),
    ensures
        key_lt(sort_key(a, ns), sort_key(b, ns)) == seq_lt(a, b),
{
    lemma_unqualified_key(a, ns);
    lemma_unqualified_key(b, ns);
}

/// Namespace declarations of prefixes are ordered by prefix, in code-point
/// order.
pub proof fn law_declaration_order(p: Seq<char>, q: Seq<char>, ns: Map<Seq<char>, Seq<char>>)
    ensures
        key_lt(sort_key(prefix_declaration(p), ns), sort_key(prefix_declaration(q), ns)) == seq_lt(
            p,
            q,
        ),
{
    lemma_declaration_key(p, ns);
    lemma_declaration_key(q, ns);
    lemma_seq_lt_common_prefix(seq!['x', 'm', 'l', 'n', 's', ':'], p, q);
}

/// Qualified attributes are ordered by the URI of their prefix, then by
/// local name, both in code-point order.
pub proof fn law_qualified_order(
    p: Seq<char>,
    l: Seq<char>,
    q: Seq<char>,
    m: Seq<char>,
    ns: Map<Seq<char>, Seq<char>>,
)
    requires
        qualified_parts(p, l),
        qualified_parts(q, m),
    ensures
        key_lt(sort_key(qualified(p, l), ns), sort_key(qualified(q, m), ns)) == (seq_lt(
            uri_of(p, ns),
            uri_of(q, ns),
        ) || (uri_of(p, ns) == uri_of(q, ns) && seq_lt(l, m))),
{
    lemma_qualified_key(p, l, ns);
    lemma_qualified_key(q, m, ns);
}

/// The groups come in order: the default namespace declaration before
/// every other attribute, declarations of prefixes before unqualified
/// attributes, and unqualified attributes before qualified ones.
pub proof fn law_group_order(
    p: Seq<char>,
    u: Seq<char>,
    q: Seq<char>,
    l: Seq<char>,
    other: Seq<char>,
    ns: Map<Seq<char>, Seq<char>>,
)
    requires
        unqualified(u),
        qualified_parts(q, l),
    ensures
        other != default_declaration() ==> key_lt(
            sort_key(default_declaration(), ns),
            sort_key(other, ns),
        ),
        key_lt(sort_key(prefix_declaration(p), ns), sort_key(u, ns)),
        key_lt(sort_key(prefix_declaration(p), ns), sort_key(qualified(q, l), ns)),
        key_lt(sort_key(u, ns), sort_key(qualified(q, l), ns)),
{
    lemma_declaration_key(p, ns);
    lemma_unqualified_key(u, ns);
    lemma_qualified_key(q, l, ns);
}

} // verus!
