//! Declarations as the compiler's semantic index reports them, and string helpers
//! shared by the features that present them.
use vstd::prelude::*;

use crate::text::{chars_of, push_char, Range};

verus! {

/// Kind of a declared symbol.
#[derive(Clone, Copy, Debug, PartialEq, Eq, Structural)]
pub enum SemanticSymbolKind {
    Struct,
    Enum,
    Field,
    Variant,
    Interface,
    InterfaceMethod,
    Const,
    Function,
    ExternFunction,
    Method,
}

/// A declared symbol: its name, kind, rendered signature, documentation, the type
/// that contains it (fields, variants, interface methods), where it is declared,
/// and the ranges of the whole declaration and of its name.
#[derive(Clone, Debug)]
pub struct SemanticSymbol {
    pub name: String,
    pub kind: SemanticSymbolKind,
    pub signature: String,
    pub docs: String,
    pub container_name: Option<String>,
    pub source_path: String,
    pub line: usize,
    pub range: Range,
    pub selection_range: Range,
}

/// `char::is_whitespace`: the Unicode `White_Space` characters.
pub open spec fn is_unicode_whitespace(c: char) -> bool {
    let v = c as u32;
    (0x09 <= v <= 0x0D) || v == 0x20 || v == 0x85 || v == 0xA0 || v == 0x1680 || (0x2000 <= v
        <= 0x200A) || v == 0x2028 || v == 0x2029 || v == 0x202F || v == 0x205F || v == 0x3000
}

/// Whether `c` is Unicode whitespace.
pub fn is_whitespace(c: char) -> (b: bool)
    ensures
        b == is_unicode_whitespace(c),
{
    let v = c as u32;
    (0x09 <= v && v <= 0x0D) || v == 0x20 || v == 0x85 || v == 0xA0 || v == 0x1680 || (0x2000 <= v
        && v <= 0x200A) || v == 0x2028 || v == 0x2029 || v == 0x202F || v == 0x205F || v == 0x3000
}

/// Number of leading whitespace characters of `s` from `i` on.
pub open spec fn leading_ws_from(s: Seq<char>, i: nat) -> nat
    decreases s.len() - i,
{
    if i < s.len() && is_unicode_whitespace(s[i as int]) {
        leading_ws_from(s, i + 1)
    } else {
        i
    }
}

/// Index just after the last non-whitespace character of `s[..i]` (scanning down).
pub open spec fn trailing_ws_to(s: Seq<char>, i: nat, floor: nat) -> nat
    decreases i,
{
    if i > floor && i <= s.len() && is_unicode_whitespace(s[i - 1]) {
        trailing_ws_to(s, (i - 1) as nat, floor)
    } else {
        i
    }
}

/// `str::trim`: `s` without leading and trailing whitespace.
pub open spec fn trimmed(s: Seq<char>) -> Seq<char> {
    let start = leading_ws_from(s, 0);
    s.subrange(start as int, trailing_ws_to(s, s.len(), start) as int)
}

/// `str::trim_start`: `s` without leading whitespace.
pub open spec fn trimmed_start(s: Seq<char>) -> Seq<char> {
    s.skip(leading_ws_from(s, 0) as int)
}

/// Skipping whitespace in a suffix of `s` is skipping it in `s` from where the suffix starts.
pub proof fn lemma_leading_ws_shift(s: Seq<char>, from: nat)
    requires
        from <= s.len(),
    ensures
        leading_ws_from(s.subrange(from as int, s.len() as int), 0) + from == leading_ws_from(s, from),
{
    lemma_leading_ws_shift_at(s, from, 0);
}

proof fn lemma_leading_ws_shift_at(s: Seq<char>, from: nat, j: nat)
    requires
        from + j <= s.len(),
    ensures
        leading_ws_from(s.subrange(from as int, s.len() as int), j) + from == leading_ws_from(
            s,
            from + j,
        ),
    decreases s.len() - (from + j),
{
    let sub = s.subrange(from as int, s.len() as int);
    if from + j < s.len() {
        assert(sub[j as int] == s[(from + j) as int]);
        if is_unicode_whitespace(s[(from + j) as int]) {
            lemma_leading_ws_shift_at(s, from, j + 1);
        }
    }
}

pub proof fn lemma_leading_ws_bound(s: Seq<char>, i: nat)
    requires
        i <= s.len(),
    ensures
        i <= leading_ws_from(s, i) <= s.len(),
    decreases s.len() - i,
{
    if i < s.len() && is_unicode_whitespace(s[i as int]) {
        lemma_leading_ws_bound(s, i + 1);
    }
}

pub proof fn lemma_trailing_ws_bound(s: Seq<char>, i: nat, floor: nat)
    requires
        floor <= i <= s.len(),
    ensures
        floor <= trailing_ws_to(s, i, floor) <= i,
    decreases i,
{
    if i > floor && is_unicode_whitespace(s[i - 1]) {
        lemma_trailing_ws_bound(s, (i - 1) as nat, floor);
    }
}

/// Index of the first non-whitespace character of `s[from..to]` (or `to`).
pub fn skip_leading_whitespace(s: &Vec<char>, from: usize, to: usize) -> (i: usize)
    requires
        from <= to <= s.len(),
    ensures
        from <= i <= to,
        i == leading_ws_from(s@.subrange(from as int, to as int), 0) + from,
{
    let ghost sub = s@.subrange(from as int, to as int);
    let mut i = from;
    while i < to && is_whitespace(s[i])
        invariant
            from <= i <= to <= s.len(),
            sub == s@.subrange(from as int, to as int),
            leading_ws_from(sub, (i - from) as nat) == leading_ws_from(sub, 0),
        decreases to - i,
    {
        i = i + 1;
    }
    i
}

/// End of `s[from..to]` without its trailing whitespace, never below `floor`.
pub fn skip_trailing_whitespace(s: &Vec<char>, from: usize, to: usize, floor: usize) -> (i: usize)
    requires
        from <= floor <= to <= s.len(),
    ensures
        floor <= i <= to,
        i == trailing_ws_to(s@.subrange(from as int, to as int), (to - from) as nat, (floor
            - from) as nat) + from,
{
    let ghost sub = s@.subrange(from as int, to as int);
    let mut i = to;
    while i > floor && is_whitespace(s[i - 1])
        invariant
            from <= floor <= i <= to <= s.len(),
            sub == s@.subrange(from as int, to as int),
            trailing_ws_to(sub, (i - from) as nat, (floor - from) as nat) == trailing_ws_to(
                sub,
                (to - from) as nat,
                (floor - from) as nat,
            ),
        decreases i,
    {
        i = i - 1;
    }
    i
}

/// A string holding `s[from..to]` with surrounding whitespace removed.
pub fn trimmed_string(s: &Vec<char>, from: usize, to: usize) -> (r: String)
    requires
        from <= to <= s.len(),
    ensures
        r@ == trimmed(s@.subrange(from as int, to as int)),
{
    let ghost sub = s@.subrange(from as int, to as int);
    let start = skip_leading_whitespace(s, from, to);
    let end = skip_trailing_whitespace(s, from, to, start);
    proof {
        lemma_leading_ws_bound(sub, 0);
    }
    let mut r = String::new();
    let mut i = start;
    while i < end
        invariant
            start <= i <= end <= s.len(),
            r@ == s@.subrange(start as int, i as int),
        decreases end - i,
    {
        push_char(&mut r, s[i]);
        i = i + 1;
    }
    assert(r@ =~= sub.subrange((start - from) as int, (end - from) as int));
    r
}

/// Whether `s` begins with `prefix`.
pub open spec fn has_prefix(s: Seq<char>, prefix: Seq<char>) -> bool {
    prefix.len() <= s.len() && s.take(prefix.len() as int) == prefix
}

/// Whether the characters `s[from..]` begin with those of `prefix`.
pub fn chars_start_with(s: &Vec<char>, from: usize, prefix: &str) -> (b: bool)
    requires
        from <= s.len(),
    ensures
        b == has_prefix(s@.skip(from as int), prefix@),
{
    let p = chars_of(prefix);
    if p.len() > s.len() - from {
        return false;
    }
    let mut i: usize = 0;
    while i < p.len()
        invariant
            p@ == prefix@,
            from + p.len() <= s.len(),
            i <= p.len(),
            forall|j: int| 0 <= j < i ==> s@[from + j] == p@[j],
        decreases p.len() - i,
    {
        if s[from + i] != p[i] {
            assert(s@.skip(from as int).take(p.len() as int)[i as int] != prefix@[i as int]);
            return false;
        }
        i = i + 1;
    }
    assert(s@.skip(from as int).take(p.len() as int) =~= prefix@);
    true
}

} // verus!
