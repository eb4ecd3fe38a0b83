//! Canonical form of character data: character references are replaced by
//! the characters they stand for, and the characters that canonical XML
//! writes as references are written so.

use vstd::prelude::*;
use crate::text::{chars_of, push_all, string_of};

verus! {

/// Where character data stands, which decides how some characters are written.
#[derive(Clone, Copy, PartialEq, Eq, Structural, Debug)]
pub enum Situation {
    /// The value of an attribute.
    Attribute,
    /// Text content of an element.
    Content,
}

/// A character reference, as recognised in character data.
#[derive(Clone, Copy, PartialEq, Eq, Structural, Debug)]
pub enum CharRef {
    /// `&amp;`
    Amp,
    /// `&lt;`
    Lt,
    /// `&gt;`
    Gt,
    /// `&apos;`
    Apos,
    /// `&quot;`
    Quot,
    /// A decimal or hexadecimal reference whose value fits in 32 bits.
    Code(u32),
    /// A decimal or hexadecimal reference whose value does not fit in 32 bits.
    OutOfRange,
}

pub open spec fn is_dec_digit(c: char) -> bool {
    '0' <= c && c <= '9'
}

pub open spec fn is_hex_digit(c: char) -> bool {
    is_dec_digit(c) || ('a' <= c && c <= 'f') || ('A' <= c && c <= 'F')
}

pub open spec fn is_digit(c: char, hex: bool) -> bool {
    if hex {
        is_hex_digit(c)
    } else {
        is_dec_digit(c)
    }
}

/// The value of one digit.
pub open spec fn digit_value(c: char) -> nat {
    if is_dec_digit(c) {
        (c as nat - '0' as nat) as nat
    } else if 'a' <= c && c <= 'f' {
        (c as nat - 'a' as nat + 10) as nat
    } else {
        (c as nat - 'A' as nat + 10) as nat
    }
}

/// The number that a run of digits denotes, in base 16 or 10.
pub open spec fn digits_value(d: Seq<char>, hex: bool) -> nat
    decreases d.len(),
{
    if d.len() == 0 {
        0
    } else {
        digits_value(d.drop_last(), hex) * (if hex { 16nat } else { 10nat }) + digit_value(d.last())
    }
}

/// The end of the run of digits that starts at `i`.
pub open spec fn digit_run_end(s: Seq<char>, i: int, hex: bool) -> int
    decreases s.len() - i,
{
    if i < 0 || i >= s.len() || !is_digit(s[i], hex) {
        i
    } else {
        digit_run_end(s, i + 1, hex)
    }
}

/// `lit` occurs in `s` at `i`.
pub open spec fn lit_at(s: Seq<char>, i: int, lit: Seq<char>) -> bool {
    0 <= i && i + lit.len() <= s.len() && s.subrange(i, i + lit.len()) == lit
}

/// The reference that a number denotes.
pub open spec fn code_ref(value: nat) -> CharRef {
    if value <= u32::MAX {
        CharRef::Code(value as u32)
    } else {
        CharRef::OutOfRange
    }
}

/// A numeric reference whose digits start at `start`: the reference and the
/// index after its `;`.
pub open spec fn numeric_ref_at(s: Seq<char>, start: int, hex: bool) -> Option<(CharRef, int)> {
    let e = digit_run_end(s, start, hex);
    if e > start && e < s.len() && s[e] == ';' {
        Some((code_ref(digits_value(s.subrange(start, e), hex)), e + 1))
    } else {
        None
    }
}

/// The character reference that starts at `i`, if one does, with the index
/// just after it.
pub open spec fn reference_at(s: Seq<char>, i: int) -> Option<(CharRef, int)> {
    if !(0 <= i < s.len() && s[i] == '&') {
        None
    } else if lit_at(s, i + 1, seq!['a', 'm', 'p', ';']) {
        Some((CharRef::Amp, i + 5))
    } else if lit_at(s, i + 1, seq!['l', 't', ';']) {
        Some((CharRef::Lt, i + 4))
    } else if lit_at(s, i + 1, seq!['g', 't', ';']) {
        Some((CharRef::Gt, i + 4))
    } else if lit_at(s, i + 1, seq!['a', 'p', 'o', 's', ';']) {
        Some((CharRef::Apos, i + 6))
    } else if lit_at(s, i + 1, seq!['q', 'u', 'o', 't', ';']) {
        Some((CharRef::Quot, i + 6))
    } else if lit_at(s, i + 1, seq!['#', 'x']) {
        numeric_ref_at(s, i + 3, true)
    } else if lit_at(s, i + 1, seq!['#']) {
        numeric_ref_at(s, i + 2, false)
    } else {
        None
    }
}

/// A code point that is a Unicode scalar value, that is, a `char`.
pub open spec fn is_scalar(code: u32) -> bool {
    code < 0xD800 || (0xE000 <= code && code <= 0x10FFFF)
}

/// The canonical text of a reference: the character it stands for, escaped
/// as that character is in canonical form.
pub open spec fn ref_replacement(r: CharRef, situation: Situation) -> Seq<char> {
    match r {
        CharRef::Amp => seq!['&', 'a', 'm', 'p', ';'],
        CharRef::Lt => seq!['&', 'l', 't', ';'],
        CharRef::Apos => seq!['\''],
        CharRef::Gt => match situation {
            Situation::Attribute => seq!['>'],
            Situation::Content => seq!['&', 'g', 't', ';'],
        },
        CharRef::Quot => match situation {
            Situation::Attribute => seq!['&', 'q', 'u', 'o', 't', ';'],
            Situation::Content => seq!['"'],
        },
        CharRef::Code(code) => if code == 0x26 {
            seq!['&', 'a', 'm', 'p', ';']
        } else {
            char_replacement(code as char, situation)
        },
        CharRef::OutOfRange => Seq::empty(),
    }
}

/// The canonical text of a character, other than `&`, whether written as
/// itself or by a reference: `<` is always escaped, `>` in text content,
/// `"`, tab and line feed in attribute values, and carriage return always
/// written as a reference.
pub open spec fn char_replacement(c: char, situation: Situation) -> Seq<char> {
    if c == '<' {
        seq!['&', 'l', 't', ';']
    } else if c == '>' && situation == Situation::Content {
        seq!['&', 'g', 't', ';']
    } else if c == '"' && situation == Situation::Attribute {
        seq!['&', 'q', 'u', 'o', 't', ';']
    } else if c == '\r' {
        seq!['&', '#', 'x', 'D', ';']
    } else if c == '\t' && situation == Situation::Attribute {
        seq!['&', '#', 'x', '9', ';']
    } else if c == '\n' && situation == Situation::Attribute {
        seq!['&', '#', 'x', 'A', ';']
    } else {
        seq![c]
    }
}

/// A reference ends after the position where it starts.
pub proof fn lemma_reference_end(s: Seq<char>, i: int)
    ensures
        reference_at(s, i) matches Some((_, e)) ==> i < e <= s.len(),
{
    if reference_at(s, i) is Some {
        if lit_at(s, i + 1, seq!['#', 'x']) && !lit_at(s, i + 1, seq!['a', 'm', 'p', ';'])
            && !lit_at(s, i + 1, seq!['l', 't', ';']) && !lit_at(s, i + 1, seq!['g', 't', ';'])
            && !lit_at(s, i + 1, seq!['a', 'p', 'o', 's', ';'])
            && !lit_at(s, i + 1, seq!['q', 'u', 'o', 't', ';']) {
            lemma_digit_run_end(s, i + 3, true);
        } else {
            lemma_digit_run_end(s, i + 2, false);
        }
    }
}

/// A run of digits ends at or after where it starts, and is made of digits.
pub proof fn lemma_digit_run_end(s: Seq<char>, i: int, hex: bool)
    ensures
        digit_run_end(s, i, hex) >= i,
        0 <= i ==> digit_run_end(s, i, hex) <= s.len() || i > s.len(),
        forall|k: int| i <= k < digit_run_end(s, i, hex) ==> is_digit(#[trigger] s[k], hex),
        0 <= i <= s.len() ==> (digit_run_end(s, i, hex) == s.len() || !is_digit(
            s[digit_run_end(s, i, hex)],
            hex,
        )),
    decreases s.len() - i,
{
    if !(i < 0 || i >= s.len() || !is_digit(s[i], hex)) {
        lemma_digit_run_end(s, i + 1, hex);
    }
}

/// The canonical form of the character data `s` from index `i` on.
pub open spec fn canonical_from(s: Seq<char>, i: int, situation: Situation) -> Seq<char>
    decreases s.len() - i,
{
    if i < 0 || i >= s.len() {
        Seq::empty()
    } else {
        proof {
            lemma_reference_end(s, i);
        }
        match reference_at(s, i) {
            Some((r, e)) => ref_replacement(r, situation) + canonical_from(s, e, situation),
            None => char_replacement(s[i], situation) + canonical_from(s, i + 1, situation),
        }
    }
}

/// The canonical form of the character data `s`.
pub open spec fn canonical_text(s: Seq<char>, situation: Situation) -> Seq<char> {
    canonical_from(s, 0, situation)
}

/// Every reference met from index `i` on denotes a character, or a number
/// too large for 32 bits.
pub open spec fn refs_valid_from(s: Seq<char>, i: int) -> bool
    decreases s.len() - i,
{
    if i < 0 || i >= s.len() {
        true
    } else {
        proof {
            lemma_reference_end(s, i);
        }
        match reference_at(s, i) {
            Some((r, e)) => (match r {
                CharRef::Code(code) => is_scalar(code),
                _ => true,
            }) && refs_valid_from(s, e),
            None => refs_valid_from(s, i + 1),
        }
    }
}

/// Every reference in `s` can be replaced by a character.
pub open spec fn refs_valid(s: Seq<char>) -> bool {
    refs_valid_from(s, 0)
}

/// `Option<char>` that `char::from_u32` documents: the character with that
/// code, unless the code is a surrogate or above `0x10FFFF`.
#[verifier::external_body]
fn char_from_u32(code: u32) -> (r: Option<char>)
    ensures
        is_scalar(code) <==> r is Some,
        r matches Some(c) ==> c == code as char,
{
    char::from_u32(code)
}

/// Whether `lit` occurs in `s` at `i`.
fn lit_at_exec(s: &Vec<char>, i: usize, lit: &[char]) -> (r: bool)
    ensures
        r == lit_at(s@, i as int, lit@),
{
    if i > s.len() || lit.len() > s.len() - i {
        return false;
    }
    let mut k: usize = 0;
    while k < lit.len()
        invariant
            k <= lit.len(),
            i + lit.len() <= s.len(),
            forall|m: int| 0 <= m < k ==> s@[i + m] == lit@[m],
        decreases lit.len() - k,
    {
        if s[i + k] != lit[k] {
            assert(s@.subrange(i as int, i + lit.len())[k as int] != lit@[k as int]);
            return false;
        }
        k = k + 1;
    }
    assert(s@.subrange(i as int, i + lit.len()) =~= lit@);
    true
}

fn is_digit_exec(c: char, hex: bool) -> (r: bool)
    ensures
        r == is_digit(c, hex),
{
    ('0' <= c && c <= '9') || (hex && (('a' <= c && c <= 'f') || ('A' <= c && c <= 'F')))
}

fn digit_value_exec(c: char) -> (r: u32)
    requires
        is_hex_digit(c),
    ensures
        r == digit_value(c),
        r < 16,
{
    if '0' <= c && c <= '9' {
        (c as u32) - ('0' as u32)
    } else if 'a' <= c && c <= 'f' {
        (c as u32) - ('a' as u32) + 10
    } else {
        (c as u32) - ('A' as u32) + 10
    }
}

/// The numeric reference whose digits start at `start`.
fn numeric_ref_at_exec(s: &Vec<char>, start: usize, hex: bool) -> (r: Option<(CharRef, usize)>)
    requires
        start <= s.len(),
    ensures
        match r {
            Some((c, e)) => numeric_ref_at(s@, start as int, hex) == Some((c, e as int)),
            None => numeric_ref_at(s@, start as int, hex) is None,
        },
{
    let mut e = start;
    let mut acc: Option<u32> = Some(0);
    proof {
        lemma_digit_run_end(s@, start as int, hex);
        assert(s@.subrange(start as int, start as int) =~= Seq::<char>::empty());
    }
    while e < s.len() && is_digit_exec(s[e], hex)
        invariant
            start <= e <= s.len(),
            digit_run_end(s@, e as int, hex) == digit_run_end(s@, start as int, hex),
            acc == (if digits_value(s@.subrange(start as int, e as int), hex) <= u32::MAX {
                Some(digits_value(s@.subrange(start as int, e as int), hex) as u32)
            } else {
                None::<u32>
            }),
        decreases s.len() - e,
    {
        let d = digit_value_exec(s[e]);
        let ghost before = digits_value(s@.subrange(start as int, e as int), hex);
        assert(s@.subrange(start as int, e + 1).drop_last() =~= s@.subrange(start as int, e as int));
        assert(digits_value(s@.subrange(start as int, e + 1), hex) == before * (if hex {
            16nat
        } else {
            10nat
        }) + d);
        acc = match acc {
            Some(v) => {
                let wide: u64 = if hex {
                    (v as u64) * 16 + (d as u64)
                } else {
                    (v as u64) * 10 + (d as u64)
                };
                if wide <= 0xFFFF_FFFF {
                    Some(wide as u32)
                } else {
                    None
                }
            },
            None => {
                assert(before * (if hex { 16nat } else { 10nat }) + d > u32::MAX) by (nonlinear_arith)
                    requires
                        before > u32::MAX,
                ;
                None
            },
        };
        e = e + 1;
    }
    if e > start && e < s.len() && s[e] == ';' {
        let r = match acc {
            Some(v) => CharRef::Code(v),
            None => CharRef::OutOfRange,
        };
        Some((r, e + 1))
    } else {
        None
    }
}

/// The character reference that starts at `i`, if one does.
fn reference_at_exec(s: &Vec<char>, i: usize) -> (r: Option<(CharRef, usize)>)
    requires
        i < s.len(),
    ensures
        match r {
            Some((c, e)) => reference_at(s@, i as int) == Some((c, e as int)),
            None => reference_at(s@, i as int) is None,
        },
{
    if s[i] != '&' {
        return None;
    }
    let amp = lit_at_exec(s, i + 1, &['a', 'm', 'p', ';']);
    assert(amp == lit_at(s@, i + 1, seq!['a', 'm', 'p', ';']));
    if amp {
        return Some((CharRef::Amp, i + 5));
    }
    let lt = lit_at_exec(s, i + 1, &['l', 't', ';']);
    assert(lt == lit_at(s@, i + 1, seq!['l', 't', ';']));
    if lt {
        return Some((CharRef::Lt, i + 4));
    }
    let gt = lit_at_exec(s, i + 1, &['g', 't', ';']);
    assert(gt == lit_at(s@, i + 1, seq!['g', 't', ';']));
    if gt {
        return Some((CharRef::Gt, i + 4));
    }
    let apos = lit_at_exec(s, i + 1, &['a', 'p', 'o', 's', ';']);
    assert(apos == lit_at(s@, i + 1, seq!['a', 'p', 'o', 's', ';']));
    if apos {
        return Some((CharRef::Apos, i + 6));
    }
    let quot = lit_at_exec(s, i + 1, &['q', 'u', 'o', 't', ';']);
    assert(quot == lit_at(s@, i + 1, seq!['q', 'u', 'o', 't', ';']));
    if quot {
        return Some((CharRef::Quot, i + 6));
    }
    let hex = lit_at_exec(s, i + 1, &['#', 'x']);
    assert(hex == lit_at(s@, i + 1, seq!['#', 'x']));
    if hex {
        return numeric_ref_at_exec(s, i + 3, true);
    }
    let dec = i + 1 < s.len() && s[i + 1] == '#';
    proof {
        if i + 2 <= s.len() {
            let one = seq!['#'];
            assert(one.len() == 1 && one[0] == '#');
            assert(s@.subrange(i + 1, i + 2)[0] == s@[i + 1]);
            if dec {
                assert(s@.subrange(i + 1, i + 2) =~= one);
            }
        }
    }
    assert(dec == lit_at(s@, i + 1, seq!['#']));
    if dec {
        return numeric_ref_at_exec(s, i + 2, false);
    }
    None
}

/// Appends the canonical text of reference `r`.
fn push_ref_replacement(out: &mut Vec<char>, r: CharRef, situation: Situation)
    requires
        r matches CharRef::Code(code) ==> is_scalar(code),
    ensures
        final(out)@ == old(out)@ + ref_replacement(r, situation),
{
    match r {
        CharRef::Amp => push_all(out, &['&', 'a', 'm', 'p', ';']),
        CharRef::Lt => push_all(out, &['&', 'l', 't', ';']),
        CharRef::Apos => push_all(out, &['\'']),
        CharRef::Gt => match situation {
            Situation::Attribute => push_all(out, &['>']),
            Situation::Content => push_all(out, &['&', 'g', 't', ';']),
        },
        CharRef::Quot => match situation {
            Situation::Attribute => push_all(out, &['&', 'q', 'u', 'o', 't', ';']),
            Situation::Content => push_all(out, &['"']),
        },
        CharRef::Code(code) => {
            if code == 0x26 {
                push_all(out, &['&', 'a', 'm', 'p', ';']);
            } else {
                match char_from_u32(code) {
                    Some(c) => push_char_replacement(out, c, situation),
                    None => {},
                }
            }
        },
        CharRef::OutOfRange => {},
    }
}

/// Appends the canonical text of a character that is not part of a reference.
fn push_char_replacement(out: &mut Vec<char>, c: char, situation: Situation)
    ensures
        final(out)@ == old(out)@ + char_replacement(c, situation),
{
    if c == '<' {
        push_all(out, &['&', 'l', 't', ';']);
    } else if c == '>' && situation == Situation::Content {
        push_all(out, &['&', 'g', 't', ';']);
    } else if c == '"' && situation == Situation::Attribute {
        push_all(out, &['&', 'q', 'u', 'o', 't', ';']);
    } else if c == '\r' {
        push_all(out, &['&', '#', 'x', 'D', ';']);
    } else if c == '\t' && situation == Situation::Attribute {
        push_all(out, &['&', '#', 'x', '9', ';']);
    } else if c == '\n' && situation == Situation::Attribute {
        push_all(out, &['&', '#', 'x', 'A', ';']);
    } else {
        push_all(out, &[c]);
    }
}

/// Whether every reference in `s` can be replaced by a character, the
/// condition under which canonicalising `s` succeeds.
pub fn references_are_valid(s: &Vec<char>) -> (r: bool)
    ensures
        r == refs_valid(s@),
{
    let mut i: usize = 0;
    while i < s.len()
        invariant
            i <= s.len(),
            refs_valid(s@) == refs_valid_from(s@, i as int),
        decreases s.len() - i,
    {
        proof {
            lemma_reference_end(s@, i as int);
        }
        match reference_at_exec(s, i) {
            Some((r, e)) => {
                if let CharRef::Code(code) = r {
                    if char_from_u32(code).is_none() {
                        return false;
                    }
                }
                i = e;
            },
            None => {
                i = i + 1;
            },
        }
    }
    true
}

/// The canonical form of the character data `s`.
pub fn canonical_chars(s: &Vec<char>, situation: Situation) -> (out: Vec<char>)
    requires
        refs_valid(s@),
    ensures
        out@ == canonical_text(s@, situation),
{
    let mut out: Vec<char> = Vec::new();
    let mut i: usize = 0;
    while i < s.len()
        invariant
            i <= s.len(),
            refs_valid_from(s@, i as int),
            out@ + canonical_from(s@, i as int, situation) == canonical_text(s@, situation),
        decreases s.len() - i,
    {
        proof {
            lemma_reference_end(s@, i as int);
        }
        let ghost old_out = out@;
        match reference_at_exec(s, i) {
            Some((r, e)) => {
                push_ref_replacement(&mut out, r, situation);
                proof {
                    assert(out@ + canonical_from(s@, e as int, situation) =~= old_out
                        + canonical_from(s@, i as int, situation));
                }
                i = e;
            },
            None => {
                push_char_replacement(&mut out, s[i], situation);
                proof {
                    assert(out@ + canonical_from(s@, i + 1, situation) =~= old_out
                        + canonical_from(s@, i as int, situation));
                }
                i = i + 1;
            },
        }
    }
    assert(canonical_from(s@, i as int, situation) =~= Seq::<char>::empty());
    assert(out@ + Seq::<char>::empty() =~= out@);
    out
}

/// The canonical form of the character data `input`, in an attribute value
/// or in text content as `situation` says.
///
/// Every numeric reference in `input` must denote a character (not a
/// surrogate, nor a code above `0x10FFFF`), unless its value does not fit
/// in 32 bits: such a reference is left out. A `&` that does not start a
/// character reference stands for itself.
pub fn canonicalize_character_references(input: &str, situation: Situation) -> (r: String)
    requires
        refs_valid(input@),
    ensures
        r@ == canonical_text(input@, situation),
{
    let chars = chars_of(input);
    let out = canonical_chars(&chars, situation);
    string_of(&out)
}

/// The text of a general reference `&name;` of text content, in canonical form.
pub open spec fn general_ref_text(name: Seq<char>) -> Seq<char> {
    seq!['&'] + name + seq![';']
}

/// The canonical form of the reference `&name;` in text content.
pub fn canonicalize_character_reference(name: &str) -> (r: String)
    requires
        refs_valid(general_ref_text(name@)),
    ensures
        r@ == canonical_text(general_ref_text(name@), Situation::Content),
{
    let mut chars: Vec<char> = Vec::new();
    chars.push('&');
    let name_chars = chars_of(name);
    push_all(&mut chars, name_chars.as_slice());
    chars.push(';');
    assert(chars@ =~= general_ref_text(name@));
    let out = canonical_chars(&chars, Situation::Content);
    string_of(&out)
}

} // verus!
