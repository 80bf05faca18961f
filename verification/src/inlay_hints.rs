//! Conservative inlay hints: the type of an unannotated `let` binding when it can
//! be read off the initializer's syntax, and the parameter name in front of each
//! argument of a call to a function the same file declares.
use vstd::prelude::*;
use vstd::string::*;
use crate::ast::{BinaryOp, Expr, FunctionDecl, SourceFile, Span, Stmt, joined, type_ref_label,
    type_label, views, join_strings};
use crate::symbol::{has_prefix, chars_start_with};
use crate::text::{Position, Range, byte_char_index_from, char_utf16_width, char_utf8_width,
    chars_equal, lemma_byte_char_index_bound, lemma_len_take_bound, lemma_len_take_step,
    lemma_utf16_le_utf8, position_before, position_in_range, position_lt, text_chars, utf16_len, utf8_len};
use crate::token::{Token, TokenKind, non_newline_at_or_before, previous_non_newline, token_col0,
    token_line0, token_column_index, token_line_index};

verus! {

broadcast use vstd::seq_lib::group_seq_properties;

/// What an inlay hint annotates.
#[derive(Clone, Copy, Debug, PartialEq, Eq, Structural)]
pub enum InlayHintKind {
    Type,
    Parameter,
}

/// An inlay hint: a label shown at a position (with padding on its right).
#[derive(Clone, Debug)]
pub struct InlayHint {
    pub position: Position,
    pub label: String,
    pub kind: InlayHintKind,
}

/// What a hint shows: its position, label text and kind.
pub open spec fn hint_view(h: InlayHint) -> (Position, Seq<char>, InlayHintKind) {
    (h.position, h.label@, h.kind)
}

/// The views of a list of hints.
pub open spec fn hint_views(v: Seq<InlayHint>) -> Seq<(Position, Seq<char>, InlayHintKind)> {
    v.map_values(|h: InlayHint| hint_view(h))
}

/// Whether byte offset `b` of the text `s` falls on a character boundary (the end
/// of the text counts).
pub open spec fn byte_boundary(s: Seq<char>, b: int) -> bool {
    utf8_len(s.take(byte_char_index_from(s, b, 0) as int)) == b
}

/// The number of characters of `chars` that start before byte offset `b`.
pub fn char_index_at_byte(chars: &Vec<char>, b: usize) -> (k: usize)
    requires
        utf8_len(chars@) <= usize::MAX,
    ensures
        k == byte_char_index_from(chars@, b as int, 0),
        k <= chars.len(),
{
    let mut bytes: usize = 0;
    let mut i: usize = 0;
    proof {
        lemma_byte_char_index_bound(chars@, b as int, 0);
    }
    while i < chars.len() && bytes < b
        invariant
            i <= chars.len(),
            utf8_len(chars@) <= usize::MAX,
            bytes == utf8_len(chars@.take(i as int)),
            byte_char_index_from(chars@, b as int, i as nat) == byte_char_index_from(
                chars@,
                b as int,
                0,
            ),
        decreases chars.len() - i,
    {
        proof {
            lemma_len_take_step(chars@, i as int);
            lemma_len_take_bound(chars@, i + 1);
        }
        bytes = bytes + char_utf8_width(chars[i]);
        i = i + 1;
    }
    i
}

/// The UTF-8 byte length and the UTF-16 length of `chars[..count]`.
pub fn prefix_lengths(chars: &Vec<char>, count: usize) -> (r: (usize, usize))
    requires
        count <= chars.len(),
        utf8_len(chars@) <= usize::MAX,
    ensures
        r.0 == utf8_len(chars@.take(count as int)),
        r.1 == utf16_len(chars@.take(count as int)),
{
    let mut bytes: usize = 0;
    let mut units: usize = 0;
    let mut i: usize = 0;
    while i < count
        invariant
            i <= count <= chars.len(),
            utf8_len(chars@) <= usize::MAX,
            bytes == utf8_len(chars@.take(i as int)),
            units == utf16_len(chars@.take(i as int)),
        decreases count - i,
    {
        proof {
            lemma_len_take_step(chars@, i as int);
            lemma_len_take_bound(chars@, i + 1);
            lemma_utf16_le_utf8(chars@.take(i + 1));
        }
        bytes = bytes + char_utf8_width(chars[i]);
        units = units + char_utf16_width(chars[i]);
        i = i + 1;
    }
    (bytes, units)
}

/// The UTF-16 column of a token: the UTF-16 length of its line up to its byte
/// column, or the byte column itself when that does not fall on a character boundary.
pub open spec fn token_character(t: Token) -> nat {
    let s = t.text@;
    let k = byte_char_index_from(s, token_col0(t) as int, 0);
    if utf8_len(s.take(k as int)) == token_col0(t) {
        utf16_len(s.take(k as int))
    } else {
        token_col0(t)
    }
}

/// The LSP position where a token starts.
pub open spec fn token_start(t: Token) -> Position {
    Position { line: token_line0(t) as u32, character: token_character(t) as u32 }
}

/// The LSP position where `token` starts.
pub fn token_position(token: &Token) -> (p: Position)
    ensures
        p == token_start(*token),
{
    let b = token_column_index(token);
    let chars = text_chars(token.text.as_str());
    let k = char_index_at_byte(&chars, b);
    let (bytes, units) = prefix_lengths(&chars, k);
    let character = if bytes == b {
        units
    } else {
        b
    };
    let line = token_line_index(token);
    Position {
        line: #[verifier::truncate] (line as u32),
        character: #[verifier::truncate] (character as u32),
    }
}

/// ASCII whitespace characters.
pub open spec fn is_ascii_ws_char(c: char) -> bool {
    c == ' ' || c == '\t' || c == '\n' || c == '\x0C' || c == '\r'
}

/// First index at or after `from` whose character is not ASCII whitespace.
pub open spec fn skip_ws_chars(s: Seq<char>, from: int) -> int
    decreases s.len() - from,
{
    if 0 <= from < s.len() && is_ascii_ws_char(s[from]) {
        skip_ws_chars(s, from + 1)
    } else {
        from
    }
}

proof fn lemma_skip_ws_chars_bound(s: Seq<char>, from: int)
    requires
        0 <= from <= s.len(),
    ensures
        from <= skip_ws_chars(s, from) <= s.len(),
    decreases s.len() - from,
{
    if from < s.len() && is_ascii_ws_char(s[from]) {
        lemma_skip_ws_chars_bound(s, from + 1);
    }
}

fn skip_ws(chars: &Vec<char>, from: usize) -> (k: usize)
    requires
        from <= chars.len(),
    ensures
        k == skip_ws_chars(chars@, from as int),
        from <= k <= chars.len(),
{
    proof {
        lemma_skip_ws_chars_bound(chars@, from as int);
    }
    let mut i = from;
    while i < chars.len() && (chars[i] == ' ' || chars[i] == '\t' || chars[i] == '\n' || chars[i]
        == '\x0C' || chars[i] == '\r')
        invariant
            from <= i <= chars.len(),
            skip_ws_chars(chars@, i as int) == skip_ws_chars(chars@, from as int),
        decreases chars.len() - i,
    {
        i = i + 1;
    }
    i
}

/// Zero-based byte column of a statement start.
pub open spec fn span_col0(span: Span) -> nat {
    if span.column > 0 {
        (span.column - 1) as nat
    } else {
        0
    }
}

/// Zero-based line of a statement start.
pub open spec fn span_line0(span: Span) -> nat {
    if span.line > 0 {
        (span.line - 1) as nat
    } else {
        0
    }
}

/// A `let` statement's span is usable when the byte just after its `let` keyword
/// falls on a character boundary of its line.
pub open spec fn let_span_ok(span: Span) -> bool {
    byte_boundary(span.text@, (span_col0(span) + 3) as int)
}

/// Index of the first character of the bound name: after `let`, whitespace, and an
/// optional `mut` followed by whitespace.
pub open spec fn let_name_start(s: Seq<char>, after_let: int) -> int {
    let k1 = skip_ws_chars(s, after_let);
    if has_prefix(s.skip(k1), "mut"@) && k1 + 3 < s.len() && is_ascii_ws_char(s[k1 + 3]) {
        skip_ws_chars(s, k1 + 3)
    } else {
        k1
    }
}

/// The position just after the name bound by the `let` statement at `span`, when
/// the name stands there.
pub open spec fn let_name_end(span: Span, name: Seq<char>) -> Option<Position> {
    let s = span.text@;
    let k = let_name_start(s, byte_char_index_from(s, (span_col0(span) + 3) as int, 0) as int);
    if has_prefix(s.skip(k), name) {
        Some(
            Position {
                line: span_line0(span) as u32,
                character: (utf16_len(s.take(k)) + utf16_len(name)) as u32,
            },
        )
    } else {
        None
    }
}

/// Where a type hint for the `let` binding of `name` at `span` goes.
pub fn let_name_end_position(span: &Span, name: &String) -> (r: Option<Position>)
    requires
        let_span_ok(*span),
    ensures
        r == let_name_end(*span, name@),
{
    let chars = text_chars(span.text.as_str());
    let col0 = if span.column > 0 {
        span.column - 1
    } else {
        0
    };
    proof {
        lemma_byte_char_index_bound(chars@, col0 + 3, 0);
        lemma_len_take_bound(chars@, byte_char_index_from(chars@, col0 + 3, 0) as int);
    }
    let after_let = char_index_at_byte(&chars, col0 + 3);
    let k1 = skip_ws(&chars, after_let);
    proof {
        reveal_strlit("mut");
    }
    let mut k = k1;
    if chars_start_with(&chars, k1, "mut") && k1 + 3 < chars.len() {
        let c = chars[k1 + 3];
        if c == ' ' || c == '\t' || c == '\n' || c == '\x0C' || c == '\r' {
            k = skip_ws(&chars, k1 + 3);
        }
    }
    if !chars_start_with(&chars, k, name.as_str()) {
        return None;
    }
    let (_, units) = prefix_lengths(&chars, k);
    let name_chars = text_chars(name.as_str());
    let (_, name_units) = prefix_lengths(&name_chars, name_chars.len());
    assert(name_chars@.take(name_chars.len() as int) =~= name@);
    let line = if span.line > 0 {
        span.line - 1
    } else {
        0
    };
    let total: u128 = units as u128 + name_units as u128;
    Some(
        Position {
            line: #[verifier::truncate] (line as u32),
            character: #[verifier::truncate] (total as u32),
        },
    )
}

/// Operators whose result is always `bool`.
pub open spec fn is_comparison_or_logic(op: BinaryOp) -> bool {
    match op {
        BinaryOp::Equal | BinaryOp::NotEqual | BinaryOp::Less | BinaryOp::LessEqual
        | BinaryOp::Greater | BinaryOp::GreaterEqual | BinaryOp::LogicalAnd
        | BinaryOp::LogicalOr => true,
        _ => false,
    }
}

/// The common label of two inferred labels, when both are known and equal.
pub open spec fn agreed(a: Option<Seq<char>>, b: Option<Seq<char>>) -> Option<Seq<char>> {
    match (a, b) {
        (Some(x), Some(y)) => if x == y {
            Some(x)
        } else {
            None
        },
        _ => None,
    }
}

/// The label shared by every entry of `labels`, when there is at least one.
pub open spec fn uniform_label(labels: Seq<Seq<char>>) -> Option<Seq<char>> {
    if labels.len() > 0 && (forall|i: int| 0 <= i < labels.len() ==> #[trigger] labels[i] == labels[0]) {
        Some(labels[0])
    } else {
        None
    }
}

/// The type an expression's syntax shows, written as a hint label.
pub open spec fn infer_type(e: Expr) -> Option<Seq<char>>
    decreases e, 1nat,
{
    match e {
        Expr::String => Some("string"@),
        Expr::Int => Some("i64"@),
        Expr::Float => Some("f64"@),
        Expr::Char => Some("char"@),
        Expr::Bool => Some("bool"@),
        Expr::StructLiteral { path } => Some(joined(views(path@), "."@)),
        Expr::Cast { target } => Some(type_label(target)),
        Expr::Unary { expr } => if infer_type(*expr) == Some("bool"@) {
            Some("bool"@)
        } else {
            None
        },
        Expr::Binary { left, op, right } => if is_comparison_or_logic(op) {
            Some("bool"@)
        } else {
            agreed(infer_type(*left), infer_type(*right))
        },
        Expr::If { then_branch, else_branch } => agreed(
            infer_type(*then_branch),
            infer_type(*else_branch),
        ),
        Expr::Match { arms } => uniform_label(arm_labels(arms@)),
        Expr::Opaque => None,
    }
}

/// The labels inferred for the arms of a `match`, skipping arms with none.
pub open spec fn arm_labels(arms: Seq<Expr>) -> Seq<Seq<char>>
    decreases arms, 0nat,
{
    if arms.len() == 0 {
        Seq::empty()
    } else {
        match infer_type(arms.last()) {
            Some(l) => arm_labels(arms.drop_last()).push(l),
            None => arm_labels(arms.drop_last()),
        }
    }
}

/// A string holding `s`.
fn owned(s: &str) -> (r: String)
    ensures
        r@ == s@,
{
    s.to_owned()
}

/// Whether `s` reads exactly `lit`.
fn string_is(s: &String, lit: &str) -> (b: bool)
    ensures
        b == (s@ == lit@),
{
    let a = text_chars(s.as_str());
    let c = text_chars(lit);
    chars_equal(&a, &c)
}

/// The label two branches agree on.
fn same_hint_type(left: &Expr, right: &Expr, Ghost(parent): Ghost<Expr>) -> (r: Option<String>)
    requires
        decreases_to!(parent => *left),
        decreases_to!(parent => *right),
    ensures
        r matches Some(l) ==> agreed(infer_type(*left), infer_type(*right)) == Some(l@),
        r is None ==> agreed(infer_type(*left), infer_type(*right)) is None,
    decreases parent, 1nat,
{
    let l = match infer_hint_type(left) {
        Some(l) => l,
        None => return None,
    };
    let r = match infer_hint_type(right) {
        Some(r) => r,
        None => return None,
    };
    if l == r {
        Some(l)
    } else {
        None
    }
}

/// The label of a binary expression: `bool` for comparisons and logic, otherwise
/// the type both operands agree on.
fn infer_binary_hint_type(
    left: &Expr,
    op: &BinaryOp,
    right: &Expr,
    Ghost(parent): Ghost<Expr>,
) -> (r: Option<String>)
    requires
        decreases_to!(parent => *left),
        decreases_to!(parent => *right),
    ensures
        r matches Some(l) ==> (if is_comparison_or_logic(*op) {
            Some("bool"@)
        } else {
            agreed(infer_type(*left), infer_type(*right))
        }) == Some(l@),
        r is None ==> (if is_comparison_or_logic(*op) {
            Some("bool"@)
        } else {
            agreed(infer_type(*left), infer_type(*right))
        }) is None,
    decreases parent, 2nat,
{
    match op {
        BinaryOp::Equal | BinaryOp::NotEqual | BinaryOp::Less | BinaryOp::LessEqual
        | BinaryOp::Greater | BinaryOp::GreaterEqual | BinaryOp::LogicalAnd
        | BinaryOp::LogicalOr => Some(owned("bool")),
        _ => same_hint_type(left, right, Ghost(parent)),
    }
}

/// The type label a hint shows for `expr`, when its syntax determines one.
pub fn infer_hint_type(expr: &Expr) -> (r: Option<String>)
    ensures
        r matches Some(l) ==> infer_type(*expr) == Some(l@),
        r is None ==> infer_type(*expr) is None,
    decreases expr, 3nat,
{
    match expr {
        Expr::String => Some(owned("string")),
        Expr::Int => Some(owned("i64")),
        Expr::Float => Some(owned("f64")),
        Expr::Char => Some(owned("char")),
        Expr::Bool => Some(owned("bool")),
        Expr::StructLiteral { path } => Some(join_strings(path, ".")),
        Expr::Cast { target } => Some(type_ref_label(target)),
        Expr::Unary { expr: inner } => match infer_hint_type(inner) {
            Some(l) => if string_is(&l, "bool") {
                Some(owned("bool"))
            } else {
                None
            },
            None => None,
        },
        Expr::Binary { left, op, right } => infer_binary_hint_type(left, op, right, Ghost(*expr)),
        Expr::If { then_branch, else_branch } => same_hint_type(
            then_branch,
            else_branch,
            Ghost(*expr),
        ),
        Expr::Match { arms } => {
            let mut first: Option<String> = None;
            let mut all_same = true;
            let mut i: usize = 0;
            while i < arms.len()
                invariant
                    i <= arms.len(),
                    *expr == (Expr::Match { arms: *arms }),
                    first matches Some(f) ==> arm_labels(arms@.take(i as int)).len() > 0
                        && arm_labels(arms@.take(i as int))[0] == f@,
                    first is None ==> arm_labels(arms@.take(i as int)).len() == 0,
                    all_same == (forall|j: int|
                        0 <= j < arm_labels(arms@.take(i as int)).len() ==> #[trigger] arm_labels(
                            arms@.take(i as int),
                        )[j] == arm_labels(arms@.take(i as int))[0]),
                decreases arms.len() - i,
            {
                proof {
                    assert(decreases_to!(*expr => (*expr)->arms));
                    assert((*expr)->arms == *arms);
                    assert(decreases_to!(*arms => arms@));
                    assert(decreases_to!(arms@ => arms@[i as int]));
                }
                let label = infer_hint_type(&arms[i]);
                let ghost before = arm_labels(arms@.take(i as int));
                proof {
                    assert(arms@.take(i + 1).drop_last() =~= arms@.take(i as int));
                    assert(arms@.take(i + 1).last() == arms@[i as int]);
                }
                match label {
                    Some(l) => {
                        let ghost after = before.push(l@);
                        assert(arm_labels(arms@.take(i + 1)) == after);
                        assert(after[after.len() - 1] == l@);
                        assert(forall|j: int| 0 <= j < before.len() ==> after[j] == before[j]);
                        assert(before.len() > 0 ==> after[0] == before[0]);
                        match &first {
                            Some(f) => {
                                if !(l == *f) {
                                    all_same = false;
                                }
                            },
                            None => {
                                first = Some(l);
                            },
                        }
                    },
                    None => {
                        assert(arm_labels(arms@.take(i + 1)) == before);
                    },
                }
                i = i + 1;
            }
            assert(arms@.take(arms.len() as int) =~= arms@);
            if all_same {
                first
            } else {
                None
            }
        },
        Expr::Opaque => None,
    }
}

/// Keywords after which an identifier names a declaration rather than a callee.
pub open spec fn is_declaration_keyword(k: TokenKind) -> bool {
    k is Fn || k is Struct || k is Enum || k is Interface
}

/// The name an identifier token carries.
pub open spec fn ident_name(k: TokenKind) -> Seq<char> {
    match k {
        TokenKind::Ident(n) => n@,
        _ => Seq::empty(),
    }
}

/// Where a run of `.identifier` pairs starting at `cursor` ends, or `None` when a
/// dot is not followed by an identifier.
pub open spec fn dotted_chain_end(tokens: Seq<Token>, cursor: int) -> Option<int>
    decreases tokens.len() - cursor,
{
    if 0 <= cursor < tokens.len() && tokens[cursor].kind is Dot {
        if cursor + 1 < tokens.len() && tokens[cursor + 1].kind is Ident {
            dotted_chain_end(tokens, cursor + 2)
        } else {
            None
        }
    } else {
        Some(cursor)
    }
}

pub proof fn lemma_dotted_chain_end(tokens: Seq<Token>, cursor: int)
    ensures
        dotted_chain_end(tokens, cursor) matches Some(c) ==> cursor <= c,
    decreases tokens.len() - cursor,
{
    if 0 <= cursor < tokens.len() && tokens[cursor].kind is Dot && cursor + 1 < tokens.len()
        && tokens[cursor + 1].kind is Ident {
        lemma_dotted_chain_end(tokens, cursor + 2);
    }
}

/// The call starting at token `index`: an identifier, possibly followed by
/// `.identifier` pairs, then `(`; not a name just declared by `fn`, `struct`,
/// `enum` or `interface`. Gives the last identifier, the index of `(`, and the index
/// after it.
pub open spec fn callee_at(tokens: Seq<Token>, index: int) -> Option<(Seq<char>, int, int)> {
    if (match non_newline_at_or_before(tokens, index - 1) {
        Some(j) => is_declaration_keyword(tokens[j].kind),
        None => false,
    }) {
        None
    } else if !(0 <= index < tokens.len() && tokens[index].kind is Ident) {
        None
    } else {
        match dotted_chain_end(tokens, index + 1) {
            Some(c) => if c < tokens.len() && tokens[c].kind is LParen {
                Some((ident_name(tokens[c - 1].kind), c, c + 1))
            } else {
                None
            },
            None => None,
        }
    }
}

pub proof fn lemma_callee_at_advances(tokens: Seq<Token>, index: int)
    ensures
        callee_at(tokens, index) matches Some((_, lparen, next)) ==> index < lparen < next
            == lparen + 1 <= tokens.len(),
{
    lemma_dotted_chain_end(tokens, index + 1);
}

fn is_dot(k: &TokenKind) -> (b: bool)
    ensures
        b == (*k is Dot),
{
    matches!(k, TokenKind::Dot)
}

/// The call whose callee starts at token `index`, if any (see [`callee_at`]).
pub fn call_callee_at(tokens: &Vec<Token>, index: usize) -> (r: Option<(String, usize, usize)>)
    requires
        index <= tokens.len(),
    ensures
        r matches Some((name, lparen, next)) ==> callee_at(tokens@, index as int) == Some(
            (name@, lparen as int, next as int),
        ),
        r is None ==> callee_at(tokens@, index as int) is None,
{
    match previous_non_newline(tokens, index) {
        Some(j) => {
            if matches!(
                tokens[j].kind,
                TokenKind::Fn | TokenKind::Struct | TokenKind::Enum | TokenKind::Interface
            ) {
                return None;
            }
        },
        None => {},
    }
    if index >= tokens.len() {
        return None;
    }
    let mut last_ident = match &tokens[index].kind {
        TokenKind::Ident(name) => name.clone(),
        _ => return None,
    };
    let mut cursor = index + 1;
    while cursor < tokens.len() && is_dot(&tokens[cursor].kind)
        invariant
            index + 1 <= cursor <= tokens.len(),
            index < tokens.len(),
            dotted_chain_end(tokens@, cursor as int) == dotted_chain_end(tokens@, index + 1),
            tokens@[cursor - 1].kind is Ident,
            last_ident@ == ident_name(tokens@[cursor - 1].kind),
        decreases tokens.len() - cursor,
    {
        if cursor + 1 >= tokens.len() {
            return None;
        }
        match &tokens[cursor + 1].kind {
            TokenKind::Ident(name) => {
                last_ident = name.clone();
            },
            _ => return None,
        }
        cursor = cursor + 2;
    }
    if cursor < tokens.len() && matches!(tokens[cursor].kind, TokenKind::LParen) {
        Some((last_ident, cursor, cursor + 1))
    } else {
        None
    }
}

/// Tokens that open a bracketed group.
pub open spec fn opens_group(k: TokenKind) -> bool {
    k is LParen || k is LBracket || k is LBrace
}

/// Tokens that close a bracketed group.
pub open spec fn closes_group(k: TokenKind) -> bool {
    k is RParen || k is RBracket || k is RBrace
}

/// Scans an argument list from `index` at nesting `depth`, collecting the index of
/// each argument's first token; `None` when the list is never closed.
pub open spec fn argument_starts_from(
    tokens: Seq<Token>,
    index: int,
    depth: nat,
    expect_arg: bool,
    args: Seq<int>,
) -> Option<Seq<int>>
    decreases tokens.len() - index,
{
    if index < 0 || index >= tokens.len() {
        None
    } else {
        let k = tokens[index].kind;
        if k is RParen && depth == 0 {
            Some(args)
        } else if k is Comma && depth == 0 {
            argument_starts_from(tokens, index + 1, depth, true, args)
        } else if k is Newline && expect_arg {
            argument_starts_from(tokens, index + 1, depth, expect_arg, args)
        } else {
            let args2 = if expect_arg {
                args.push(index)
            } else {
                args
            };
            let depth2 = if opens_group(k) {
                depth + 1
            } else if closes_group(k) && depth > 0 {
                (depth - 1) as nat
            } else {
                depth
            };
            argument_starts_from(tokens, index + 1, depth2, false, args2)
        }
    }
}

/// The first-token indices of the arguments of the call whose `(` is at `lparen`.
pub open spec fn argument_starts(tokens: Seq<Token>, lparen: int) -> Option<Seq<int>> {
    argument_starts_from(tokens, lparen + 1, 0, true, Seq::empty())
}

/// Indices held as `usize`, viewed as integers.
pub open spec fn as_ints(v: Seq<usize>) -> Seq<int> {
    v.map_values(|a: usize| a as int)
}

/// The first-token index of each argument of the call whose `(` is at `lparen_index`.
pub fn call_argument_start_indices(tokens: &Vec<Token>, lparen_index: usize) -> (r: Option<
    Vec<usize>,
>)
    requires
        lparen_index < tokens.len(),
    ensures
        r matches Some(v) ==> argument_starts(tokens@, lparen_index as int) == Some(as_ints(v@)),
        r is None ==> argument_starts(tokens@, lparen_index as int) is None,
{
    let mut args: Vec<usize> = Vec::new();
    let mut depth: usize = 0;
    let mut expect_arg = true;
    let mut index = lparen_index + 1;
    assert(as_ints(args@) =~= Seq::<int>::empty());
    while index < tokens.len()
        invariant
            lparen_index < index <= tokens.len(),
            depth <= index,
            argument_starts_from(tokens@, index as int, depth as nat, expect_arg, as_ints(args@))
                == argument_starts(tokens@, lparen_index as int),
        decreases tokens.len() - index,
    {
        let token = &tokens[index];
        let at_depth0 = depth == 0;
        if at_depth0 && matches!(token.kind, TokenKind::RParen) {
            return Some(args);
        }
        if at_depth0 && matches!(token.kind, TokenKind::Comma) {
            expect_arg = true;
            index = index + 1;
            continue;
        }
        if expect_arg && matches!(token.kind, TokenKind::Newline) {
            index = index + 1;
            continue;
        }
        if expect_arg {
            let ghost before = args@;
            args.push(index);
            assert(as_ints(args@) =~= as_ints(before).push(index as int));
            expect_arg = false;
        }
        match token.kind {
            TokenKind::LParen | TokenKind::LBracket | TokenKind::LBrace => {
                depth = depth + 1;
            },
            TokenKind::RParen | TokenKind::RBracket | TokenKind::RBrace => {
                if depth > 0 {
                    depth = depth - 1;
                }
            },
            _ => {},
        }
        index = index + 1;
    }
    None
}

/// Whether the argument starting at `arg` is the identifier `param` itself.
pub open spec fn argument_names_parameter(tokens: Seq<Token>, arg: int, param: Seq<char>) -> bool {
    0 <= arg < tokens.len() && tokens[arg].kind is Ident && ident_name(tokens[arg].kind) == param
}

/// Whether the argument starting at token `arg_index` is just the parameter's name.
pub fn argument_matches_parameter(tokens: &Vec<Token>, arg_index: usize, param_name: &String) -> (b:
    bool)
    ensures
        b == argument_names_parameter(tokens@, arg_index as int, param_name@),
{
    if arg_index >= tokens.len() {
        return false;
    }
    match &tokens[arg_index].kind {
        TokenKind::Ident(name) => *name == *param_name,
        _ => false,
    }
}

/// A parameter list without its `self` receiver.
pub open spec fn without_self(params: Seq<Seq<char>>) -> Seq<Seq<char>>
    decreases params.len(),
{
    if params.len() == 0 {
        Seq::empty()
    } else if params.last() == "self"@ {
        without_self(params.drop_last())
    } else {
        without_self(params.drop_last()).push(params.last())
    }
}

/// The name and parameter names of a function or extern function.
pub open spec fn free_signature(f: FunctionDecl) -> (Seq<char>, Seq<Seq<char>>) {
    (f.name@, views(f.params@))
}

/// The name and parameter names of a method, without `self`.
pub open spec fn method_signature(f: FunctionDecl) -> (Seq<char>, Seq<Seq<char>>) {
    (f.name@, without_self(views(f.params@)))
}

/// The signatures a call can resolve to, in order of precedence: functions and
/// extern functions from the last declared to the first (a later declaration of a
/// name replaces an earlier one), then interface methods and impl methods in order
/// (they only take names that nothing has taken yet).
pub open spec fn signature_candidates(file: SourceFile) -> Seq<(Seq<char>, Seq<Seq<char>>)> {
    let free = file.functions@ + file.extern_functions@;
    Seq::new(free.len(), |i: int| free_signature(free[free.len() - 1 - i])) + (
    file.interface_methods@ + file.impl_methods@).map_values(|f: FunctionDecl| method_signature(f))
}

/// The parameter names of the first signature named `name` in `sigs`.
pub open spec fn first_signature(sigs: Seq<(Seq<char>, Seq<Seq<char>>)>, name: Seq<char>) -> Option<
    Seq<Seq<char>>,
>
    decreases sigs.len(),
{
    if sigs.len() == 0 {
        None
    } else {
        match first_signature(sigs.drop_last(), name) {
            Some(p) => Some(p),
            None => if sigs.last().0 == name {
                Some(sigs.last().1)
            } else {
                None
            },
        }
    }
}

/// A parameter list, unless it is empty.
pub open spec fn nonempty_params(p: Option<Seq<Seq<char>>>) -> Option<Seq<Seq<char>>> {
    match p {
        Some(ps) => if ps.len() > 0 {
            Some(ps)
        } else {
            None
        },
        None => None,
    }
}

/// The parameter names shown for calls of `name` in `file`: those of the signature
/// the name resolves to, when it has any parameters.
pub open spec fn parameter_signature(file: SourceFile, name: Seq<char>) -> Option<Seq<Seq<char>>> {
    nonempty_params(first_signature(signature_candidates(file), name))
}

/// Signatures held as strings, viewed as character sequences.
pub open spec fn signature_views(v: Seq<(String, Vec<String>)>) -> Seq<(Seq<char>, Seq<Seq<char>>)> {
    v.map_values(|e: (String, Vec<String>)| (e.0@, views(e.1@)))
}

proof fn lemma_first_signature_prefix(sigs: Seq<(Seq<char>, Seq<Seq<char>>)>, i: int, name: Seq<char>)
    requires
        0 <= i <= sigs.len(),
        first_signature(sigs.take(i), name) is Some,
    ensures
        first_signature(sigs, name) == first_signature(sigs.take(i), name),
    decreases sigs.len(),
{
    if i == sigs.len() {
        assert(sigs.take(i) =~= sigs);
    } else {
        assert(sigs.drop_last().take(i) =~= sigs.take(i));
        lemma_first_signature_prefix(sigs.drop_last(), i, name);
    }
}

/// A copy of a list of strings.
fn clone_strings(v: &Vec<String>) -> (r: Vec<String>)
    ensures
        r@ == v@,
{
    let mut r: Vec<String> = Vec::new();
    let mut i: usize = 0;
    while i < v.len()
        invariant
            i <= v.len(),
            r@ == v@.take(i as int),
        decreases v.len() - i,
    {
        r.push(v[i].clone());
        assert(r@ =~= v@.take(i + 1));
        i = i + 1;
    }
    assert(v@.take(v.len() as int) =~= v@);
    r
}

/// The parameter names of a method, without `self`.
fn params_without_self(params: &Vec<String>) -> (r: Vec<String>)
    ensures
        views(r@) == without_self(views(params@)),
{
    proof {
        reveal_strlit("self");
    }
    let mut r: Vec<String> = Vec::new();
    let mut i: usize = 0;
    while i < params.len()
        invariant
            i <= params.len(),
            views(r@) == without_self(views(params@.take(i as int))),
        decreases params.len() - i,
    {
        let ghost before = r@;
        assert(views(params@.take(i + 1)).drop_last() =~= views(params@.take(i as int)));
        assert(views(params@.take(i + 1)).last() == params@[i as int]@);
        if !string_is(&params[i], "self") {
            r.push(params[i].clone());
            assert(views(r@) =~= views(before).push(params@[i as int]@));
        }
        i = i + 1;
    }
    assert(params@.take(params.len() as int) =~= params@);
    r
}

/// The candidate signatures of `file` in order of precedence (see
/// [`signature_candidates`]).
fn signature_candidate_list(file: &SourceFile) -> (c: Vec<(String, Vec<String>)>)
    ensures
        signature_views(c@) == signature_candidates(*file),
{
    let ghost free = file.functions@ + file.extern_functions@;
    let ghost rev = Seq::new(free.len(), |i: int| free_signature(free[free.len() - 1 - i]));
    let mut c: Vec<(String, Vec<String>)> = Vec::new();
    let mut j = file.extern_functions.len();
    while j > 0
        invariant
            j <= file.extern_functions.len(),
            free == file.functions@ + file.extern_functions@,
            rev == Seq::new(free.len(), |i: int| free_signature(free[free.len() - 1 - i])),
            c.len() == file.extern_functions.len() - j,
            signature_views(c@) == rev.take(c.len() as int),
        decreases j,
    {
        let f = &file.extern_functions[j - 1];
        let ghost before = c@;
        c.push((f.name.clone(), clone_strings(&f.params)));
        assert(free[free.len() - 1 - before.len()] == file.extern_functions@[j - 1]);
        assert(signature_views(c@) =~= rev.take(c.len() as int));
        j = j - 1;
    }
    let mut j = file.functions.len();
    while j > 0
        invariant
            j <= file.functions.len(),
            free == file.functions@ + file.extern_functions@,
            rev == Seq::new(free.len(), |i: int| free_signature(free[free.len() - 1 - i])),
            c.len() == file.extern_functions.len() + file.functions.len() - j,
            signature_views(c@) == rev.take(c.len() as int),
        decreases j,
    {
        let f = &file.functions[j - 1];
        let ghost before = c@;
        c.push((f.name.clone(), clone_strings(&f.params)));
        assert(free[free.len() - 1 - before.len()] == file.functions@[j - 1]);
        assert(signature_views(c@) =~= rev.take(c.len() as int));
        j = j - 1;
    }
    assert(rev.take(free.len() as int) =~= rev);
    let ghost methods = file.interface_methods@ + file.impl_methods@;
    let mut k: usize = 0;
    while k < file.interface_methods.len()
        invariant
            k <= file.interface_methods.len(),
            methods == file.interface_methods@ + file.impl_methods@,
            signature_views(c@) == rev + methods.take(k as int).map_values(
                |f: FunctionDecl| method_signature(f),
            ),
        decreases file.interface_methods.len() - k,
    {
        let f = &file.interface_methods[k];
        let ghost before = c@;
        c.push((f.name.clone(), params_without_self(&f.params)));
        assert(methods[k as int] == file.interface_methods@[k as int]);
        assert(signature_views(c@) =~= signature_views(before).push(method_signature(*f)));
        assert(methods.take(k + 1).map_values(|f: FunctionDecl| method_signature(f))
            =~= methods.take(k as int).map_values(|f: FunctionDecl| method_signature(f)).push(
            method_signature(*f),
        ));
        assert(signature_views(c@) =~= rev + methods.take(k + 1).map_values(
            |f: FunctionDecl| method_signature(f),
        ));
        k = k + 1;
    }
    let mut k: usize = 0;
    while k < file.impl_methods.len()
        invariant
            k <= file.impl_methods.len(),
            methods == file.interface_methods@ + file.impl_methods@,
            signature_views(c@) == rev + methods.take(
                file.interface_methods.len() + k,
            ).map_values(|f: FunctionDecl| method_signature(f)),
        decreases file.impl_methods.len() - k,
    {
        let f = &file.impl_methods[k];
        let ghost before = c@;
        c.push((f.name.clone(), params_without_self(&f.params)));
        let ghost m = file.interface_methods.len() + k;
        assert(methods[m] == file.impl_methods@[k as int]);
        assert(signature_views(c@) =~= signature_views(before).push(method_signature(*f)));
        assert(methods.take(m + 1).map_values(|f: FunctionDecl| method_signature(f))
            =~= methods.take(m).map_values(|f: FunctionDecl| method_signature(f)).push(
            method_signature(*f),
        ));
        assert(signature_views(c@) =~= rev + methods.take(
            file.interface_methods.len() + k + 1,
        ).map_values(|f: FunctionDecl| method_signature(f)));
        k = k + 1;
    }
    assert(methods.take(methods.len() as int) =~= methods);
    c
}

/// Whether `name` occurs in `v`.
pub fn contains_string(v: &Vec<String>, name: &String) -> (b: bool)
    ensures
        b == views(v@).contains(name@),
{
    let mut i: usize = 0;
    while i < v.len()
        invariant
            i <= v.len(),
            forall|j: int| 0 <= j < i ==> v@[j]@ != name@,
        decreases v.len() - i,
    {
        if v[i] == *name {
            assert(views(v@)[i as int] == name@);
            return true;
        }
        i = i + 1;
    }
    false
}

proof fn lemma_signature_step(
    old_seen: Seq<Seq<char>>,
    new_seen: Seq<Seq<char>>,
    old_sigs: Seq<(Seq<char>, Seq<Seq<char>>)>,
    new_sigs: Seq<(Seq<char>, Seq<Seq<char>>)>,
    prefix: Seq<(Seq<char>, Seq<Seq<char>>)>,
    cand: (Seq<char>, Seq<Seq<char>>),
)
    requires
        forall|n: Seq<char>| #[trigger] old_seen.contains(n) == (first_signature(prefix, n) is Some),
        forall|n: Seq<char>| #[trigger]
            first_signature(old_sigs, n) == nonempty_params(first_signature(prefix, n)),
        new_seen == (if old_seen.contains(cand.0) {
            old_seen
        } else {
            old_seen.push(cand.0)
        }),
        new_sigs == (if !old_seen.contains(cand.0) && cand.1.len() > 0 {
            old_sigs.push(cand)
        } else {
            old_sigs
        }),
    ensures
        forall|n: Seq<char>| #[trigger]
            new_seen.contains(n) == (first_signature(prefix.push(cand), n) is Some),
        forall|n: Seq<char>| #[trigger]
            first_signature(new_sigs, n) == nonempty_params(first_signature(prefix.push(cand), n)),
{
    assert(prefix.push(cand).drop_last() =~= prefix);
    assert forall|n: Seq<char>| #[trigger]
        new_seen.contains(n) == (first_signature(prefix.push(cand), n) is Some) by {
        if !old_seen.contains(cand.0) {
            if n == cand.0 {
                assert(new_seen[new_seen.len() - 1] == n);
            } else if new_seen.contains(n) {
                let w = choose|w: int| 0 <= w < new_seen.len() && new_seen[w] == n;
                assert(old_seen[w] == n);
            } else {
                if old_seen.contains(n) {
                    let w = choose|w: int| 0 <= w < old_seen.len() && old_seen[w] == n;
                    assert(new_seen[w] == n);
                }
            }
        }
    }
    assert forall|n: Seq<char>| #[trigger]
        first_signature(new_sigs, n) == nonempty_params(first_signature(prefix.push(cand), n)) by {
        assert(old_seen.contains(n) == (first_signature(prefix, n) is Some));
        assert(old_seen.contains(cand.0) == (first_signature(prefix, cand.0) is Some));
        assert(first_signature(old_sigs, n) == nonempty_params(first_signature(prefix, n)));
        if !old_seen.contains(cand.0) && cand.1.len() > 0 {
            assert(new_sigs.drop_last() =~= old_sigs);
        }
    }
}

/// The parameter names of every function and method the file declares, by name: a
/// later function or extern function replaces an earlier one of the same name, a
/// method only fills a name nothing else took, and names without parameters are
/// left out.
pub fn parameter_hint_signatures(file: &SourceFile) -> (sigs: Vec<(String, Vec<String>)>)
    ensures
        forall|name: Seq<char>| #[trigger]
            first_signature(signature_views(sigs@), name) == parameter_signature(*file, name),
{
    let candidates = signature_candidate_list(file);
    let ghost cv = signature_views(candidates@);
    let mut seen: Vec<String> = Vec::new();
    let mut sigs: Vec<(String, Vec<String>)> = Vec::new();
    let mut i: usize = 0;
    while i < candidates.len()
        invariant
            i <= candidates.len(),
            cv == signature_views(candidates@),
            forall|name: Seq<char>| #[trigger]
                views(seen@).contains(name) == (first_signature(cv.take(i as int), name) is Some),
            i < candidates.len() ==> cv[i as int] == (candidates@[i as int].0@, views(candidates@[i as int].1@)),
            forall|name: Seq<char>| #[trigger]
                first_signature(signature_views(sigs@), name) == nonempty_params(
                    first_signature(cv.take(i as int), name),
                ),
        decreases candidates.len() - i,
    {
        let name = &candidates[i].0;
        let params = &candidates[i].1;
        let ghost old_seen = seen@;
        let ghost old_sigs = sigs@;
        assert(cv.take(i + 1) =~= cv.take(i as int).push((name@, views(params@))));
        let fresh = !contains_string(&seen, name);
        if fresh {
            seen.push(name.clone());
            assert(views(seen@) =~= views(old_seen).push(name@));
            if params.len() > 0 {
                sigs.push((name.clone(), clone_strings(params)));
                assert(signature_views(sigs@) =~= signature_views(old_sigs).push(
                    (name@, views(params@)),
                ));
            }
        }
        proof {
            lemma_signature_step(
                views(old_seen),
                views(seen@),
                signature_views(old_sigs),
                signature_views(sigs@),
                cv.take(i as int),
                (name@, views(params@)),
            );
        }
        i = i + 1;
    }
    assert(cv.take(candidates.len() as int) =~= cv);
    sigs
}

/// The parameter names recorded for `name`, if any.
fn signature_for<'a>(sigs: &'a Vec<(String, Vec<String>)>, name: &String) -> (r: Option<
    &'a Vec<String>,
>)
    ensures
        r matches Some(p) ==> first_signature(signature_views(sigs@), name@) == Some(views(p@)),
        r is None ==> first_signature(signature_views(sigs@), name@) is None,
{
    let ghost sv = signature_views(sigs@);
    let mut i: usize = 0;
    while i < sigs.len()
        invariant
            i <= sigs.len(),
            sv == signature_views(sigs@),
            first_signature(sv.take(i as int), name@) is None,
        decreases sigs.len() - i,
    {
        assert(sv.take(i + 1).drop_last() =~= sv.take(i as int));
        if sigs[i].0 == *name {
            proof {
                lemma_first_signature_prefix(sv, i + 1, name@);
            }
            return Some(&sigs[i].1);
        }
        i = i + 1;
    }
    assert(sv.take(sigs.len() as int) =~= sv);
    None
}

/// Whether `p` lies in the half-open `range`.
pub open spec fn in_range(p: Position, range: Range) -> bool {
    !position_lt(p, range.start) && position_lt(p, range.end)
}

/// Parameter-name hints for the first `n` argument/parameter pairs of a call: one
/// per argument that is not already the parameter's own name and starts in range.
pub open spec fn argument_hints(
    tokens: Seq<Token>,
    args: Seq<int>,
    params: Seq<Seq<char>>,
    range: Range,
    n: nat,
) -> Seq<(Position, Seq<char>, InlayHintKind)>
    decreases n,
{
    if n == 0 {
        Seq::empty()
    } else {
        let previous = argument_hints(tokens, args, params, range, (n - 1) as nat);
        let arg = args[n - 1];
        let param = params[n - 1];
        if argument_names_parameter(tokens, arg, param) {
            previous
        } else if in_range(token_start(tokens[arg]), range) {
            previous.push((token_start(tokens[arg]), param + ":"@, InlayHintKind::Parameter))
        } else {
            previous
        }
    }
}

/// The hints for one call of `callee` whose `(` is at `lparen`.
pub open spec fn call_hints(
    tokens: Seq<Token>,
    file: SourceFile,
    range: Range,
    callee: Seq<char>,
    lparen: int,
) -> Seq<(Position, Seq<char>, InlayHintKind)> {
    match parameter_signature(file, callee) {
        None => Seq::empty(),
        Some(params) => match argument_starts(tokens, lparen) {
            None => Seq::empty(),
            Some(args) => argument_hints(
                tokens,
                args,
                params,
                range,
                if args.len() < params.len() {
                    args.len()
                } else {
                    params.len()
                },
            ),
        },
    }
}

/// The parameter-name hints of every call found scanning the tokens from `index`.
pub open spec fn parameter_hints_from(
    tokens: Seq<Token>,
    file: SourceFile,
    range: Range,
    index: int,
) -> Seq<(Position, Seq<char>, InlayHintKind)>
    decreases tokens.len() - index,
{
    if index < 0 || index >= tokens.len() {
        Seq::empty()
    } else {
        proof {
            lemma_callee_at_advances(tokens, index);
        }
        match callee_at(tokens, index) {
            None => parameter_hints_from(tokens, file, range, index + 1),
            Some((callee, lparen, next)) => call_hints(tokens, file, range, callee, lparen)
                + parameter_hints_from(tokens, file, range, next),
        }
    }
}

proof fn lemma_argument_starts_bound(
    tokens: Seq<Token>,
    index: int,
    depth: nat,
    expect_arg: bool,
    args: Seq<int>,
)
    requires
        0 <= index,
        forall|j: int| 0 <= j < args.len() ==> 0 <= #[trigger] args[j] < tokens.len(),
    ensures
        argument_starts_from(tokens, index, depth, expect_arg, args) matches Some(r) ==> forall|
            j: int,
        | 0 <= j < r.len() ==> 0 <= #[trigger] r[j] < tokens.len(),
    decreases tokens.len() - index,
{
    if index < tokens.len() {
        let k = tokens[index].kind;
        if k is RParen && depth == 0 {
        } else if k is Comma && depth == 0 {
            lemma_argument_starts_bound(tokens, index + 1, depth, true, args);
        } else if k is Newline && expect_arg {
            lemma_argument_starts_bound(tokens, index + 1, depth, expect_arg, args);
        } else {
            let args2 = if expect_arg {
                args.push(index)
            } else {
                args
            };
            let depth2 = if opens_group(k) {
                depth + 1
            } else if closes_group(k) && depth > 0 {
                (depth - 1) as nat
            } else {
                depth
            };
            lemma_argument_starts_bound(tokens, index + 1, depth2, false, args2);
        }
    }
}

/// A hint that shows `label:` before an argument.
fn parameter_inlay_hint(position: Position, label: &String) -> (h: InlayHint)
    ensures
        hint_view(h) == (position, label@ + ":"@, InlayHintKind::Parameter),
{
    let mut text = label.clone();
    text.append(":");
    InlayHint { position, label: text, kind: InlayHintKind::Parameter }
}

/// A hint that shows `: label` after a binding's name.
fn type_inlay_hint(position: Position, label: String) -> (h: InlayHint)
    ensures
        hint_view(h) == (position, ": "@ + label@, InlayHintKind::Type),
{
    let mut text = owned(": ");
    text.append(label.as_str());
    InlayHint { position, label: text, kind: InlayHintKind::Type }
}

/// Pushes the parameter-name hints of one call.
fn push_argument_hints(
    tokens: &Vec<Token>,
    args: &Vec<usize>,
    params: &Vec<String>,
    range: &Range,
    hints: &mut Vec<InlayHint>,
)
    requires
        forall|j: int| 0 <= j < args.len() ==> #[trigger] args@[j] < tokens.len(),
    ensures
        hint_views(final(hints)@) == hint_views(old(hints)@) + argument_hints(
            tokens@,
            as_ints(args@),
            views(params@),
            *range,
            if args.len() < params.len() {
                args.len() as nat
            } else {
                params.len() as nat
            },
        ),
{
    let ghost start = hint_views(hints@);
    let mut j: usize = 0;
    assert(start + argument_hints(tokens@, as_ints(args@), views(params@), *range, 0) =~= start);
    while j < args.len() && j < params.len()
        invariant
            j <= args.len(),
            j <= params.len(),
            forall|k: int| 0 <= k < args.len() ==> #[trigger] args@[k] < tokens.len(),
            hint_views(hints@) == start + argument_hints(
                tokens@,
                as_ints(args@),
                views(params@),
                *range,
                j as nat,
            ),
        decreases args.len() - j,
    {
        let ghost before = hint_views(hints@);
        let arg = args[j];
        assert(as_ints(args@)[j as int] == arg as int);
        assert(views(params@)[j as int] == params@[j as int]@);
        if !argument_matches_parameter(tokens, arg, &params[j]) {
            let position = token_position(&tokens[arg]);
            if position_in_range(position, range) {
                hints.push(parameter_inlay_hint(position, &params[j]));
                assert(hint_views(hints@) =~= before.push(hint_view(hints@[hints@.len() - 1])));
            }
        }
        j = j + 1;
    }
}

/// Appends the parameter-name hints of every call in `tokens` to a function or
/// method the file declares.
pub fn collect_parameter_inlay_hints(
    tokens: &Vec<Token>,
    file: &SourceFile,
    range: &Range,
    hints: &mut Vec<InlayHint>,
)
    ensures
        hint_views(final(hints)@) == hint_views(old(hints)@) + parameter_hints_from(
            tokens@,
            *file,
            *range,
            0,
        ),
{
    let params = parameter_hint_signatures(file);
    let ghost start = hint_views(hints@);
    let ghost total = parameter_hints_from(tokens@, *file, *range, 0);
    let mut index: usize = 0;
    assert(start + total =~= start + total);
    while index < tokens.len()
        invariant
            index <= tokens.len(),
            total == parameter_hints_from(tokens@, *file, *range, 0),
            forall|name: Seq<char>| #[trigger]
                first_signature(signature_views(params@), name) == parameter_signature(
                    *file,
                    name,
                ),
            hint_views(hints@) + parameter_hints_from(tokens@, *file, *range, index as int)
                =~= start + total,
        decreases tokens.len() - index,
    {
        let ghost before = hint_views(hints@);
        let ghost rest = parameter_hints_from(tokens@, *file, *range, index as int);
        proof {
            lemma_callee_at_advances(tokens@, index as int);
        }
        let (callee, lparen_index, next_index) = match call_callee_at(tokens, index) {
            Some(call) => call,
            None => {
                index = index + 1;
                continue;
            },
        };
        let ghost tail = parameter_hints_from(tokens@, *file, *range, next_index as int);
        let ghost this_call = call_hints(tokens@, *file, *range, callee@, lparen_index as int);
        assert(rest == this_call + tail);
        index = next_index;
        let param_names = match signature_for(&params, &callee) {
            Some(p) => p,
            None => {
                assert(this_call =~= Seq::<(Position, Seq<char>, InlayHintKind)>::empty());
                assert(before + rest =~= hint_views(hints@) + tail);
                continue;
            },
        };
        let args = match call_argument_start_indices(tokens, lparen_index) {
            Some(a) => a,
            None => {
                assert(this_call =~= Seq::<(Position, Seq<char>, InlayHintKind)>::empty());
                assert(before + rest =~= hint_views(hints@) + tail);
                continue;
            },
        };
        proof {
            lemma_argument_starts_bound(tokens@, lparen_index + 1, 0, true, Seq::empty());
            assert forall|j: int| 0 <= j < args.len() implies #[trigger] args@[j] < tokens.len() by {
                assert(as_ints(args@)[j] == args@[j] as int);
            }
        }
        push_argument_hints(tokens, &args, param_names, range, hints);
        assert(before + rest =~= hint_views(hints@) + tail);
    }
}

/// The type hint of one unannotated `let`, when its name and type can be placed.
pub open spec fn let_hint(
    name: Seq<char>,
    value: Expr,
    span: Span,
    range: Range,
) -> Seq<(Position, Seq<char>, InlayHintKind)> {
    match (let_name_end(span, name), infer_type(value)) {
        (Some(p), Some(l)) => if in_range(p, range) {
            seq![(p, ": "@ + l, InlayHintKind::Type)]
        } else {
            Seq::empty()
        },
        _ => Seq::empty(),
    }
}

/// The type hints inside one statement, in source order.
pub open spec fn stmt_hints(stmt: Stmt, range: Range) -> Seq<(Position, Seq<char>, InlayHintKind)>
    decreases stmt, 1nat,
{
    match stmt {
        Stmt::Let { name, annotated, value, span } => if annotated {
            Seq::empty()
        } else {
            let_hint(name@, value, span, range)
        },
        Stmt::LetElse { else_body } => stmts_hints(else_body@, range),
        Stmt::IfLet { body, else_body } => stmts_hints(body@, range) + match else_body {
            Some(e) => stmts_hints(e@, range),
            None => Seq::empty(),
        },
        Stmt::Match { arms } => arms_hints(arms@, range),
        Stmt::For { body } => stmts_hints(body@, range),
        Stmt::Defer { stmt } => stmt_hints(*stmt, range),
        Stmt::Unsafe { body } => stmts_hints(body@, range),
        Stmt::Simple => Seq::empty(),
    }
}

/// The type hints inside a list of statements.
pub open spec fn stmts_hints(stmts: Seq<Stmt>, range: Range) -> Seq<
    (Position, Seq<char>, InlayHintKind),
>
    decreases stmts, 0nat,
{
    if stmts.len() == 0 {
        Seq::empty()
    } else {
        stmts_hints(stmts.drop_last(), range) + stmt_hints(stmts.last(), range)
    }
}

/// The type hints inside the arms of a statement-level `match`.
pub open spec fn arms_hints(arms: Seq<Vec<Stmt>>, range: Range) -> Seq<
    (Position, Seq<char>, InlayHintKind),
>
    decreases arms, 0nat,
{
    if arms.len() == 0 {
        Seq::empty()
    } else {
        arms_hints(arms.drop_last(), range) + stmts_hints(arms.last()@, range)
    }
}

/// Every unannotated `let` inside `stmt` has a usable span (see [`let_span_ok`]).
pub open spec fn stmt_spans_ok(stmt: Stmt) -> bool
    decreases stmt, 1nat,
{
    match stmt {
        Stmt::Let { annotated, span, .. } => annotated || let_span_ok(span),
        Stmt::LetElse { else_body } => stmts_spans_ok(else_body@),
        Stmt::IfLet { body, else_body } => stmts_spans_ok(body@) && match else_body {
            Some(e) => stmts_spans_ok(e@),
            None => true,
        },
        Stmt::Match { arms } => arms_spans_ok(arms@),
        Stmt::For { body } => stmts_spans_ok(body@),
        Stmt::Defer { stmt } => stmt_spans_ok(*stmt),
        Stmt::Unsafe { body } => stmts_spans_ok(body@),
        Stmt::Simple => true,
    }
}

/// Every statement of the list has usable spans.
pub open spec fn stmts_spans_ok(stmts: Seq<Stmt>) -> bool
    decreases stmts, 0nat,
{
    if stmts.len() == 0 {
        true
    } else {
        stmts_spans_ok(stmts.drop_last()) && stmt_spans_ok(stmts.last())
    }
}

/// Every arm of a statement-level `match` has usable spans.
pub open spec fn arms_spans_ok(arms: Seq<Vec<Stmt>>) -> bool
    decreases arms, 0nat,
{
    if arms.len() == 0 {
        true
    } else {
        arms_spans_ok(arms.drop_last()) && stmts_spans_ok(arms.last()@)
    }
}

proof fn lemma_stmts_spans_ok_prefix(stmts: Seq<Stmt>, i: int)
    requires
        stmts_spans_ok(stmts),
        0 <= i < stmts.len(),
    ensures
        stmts_spans_ok(stmts.take(i)),
        stmt_spans_ok(stmts[i]),
    decreases stmts.len(),
{
    assert(stmts.drop_last() =~= stmts.take(stmts.len() - 1));
    if i < stmts.len() - 1 {
        lemma_stmts_spans_ok_prefix(stmts.drop_last(), i);
        assert(stmts.drop_last().take(i) =~= stmts.take(i));
    }
}

proof fn lemma_arms_spans_ok_prefix(arms: Seq<Vec<Stmt>>, i: int)
    requires
        arms_spans_ok(arms),
        0 <= i < arms.len(),
    ensures
        stmts_spans_ok(arms[i]@),
    decreases arms.len(),
{
    if i < arms.len() - 1 {
        lemma_arms_spans_ok_prefix(arms.drop_last(), i);
    }
}

/// Appends the type hints inside one statement.
fn collect_stmt_hints(stmt: &Stmt, range: &Range, hints: &mut Vec<InlayHint>)
    requires
        stmt_spans_ok(*stmt),
    ensures
        hint_views(final(hints)@) == hint_views(old(hints)@) + stmt_hints(*stmt, *range),
    decreases stmt, 1nat,
{
    let ghost start = hint_views(hints@);
    match stmt {
        Stmt::Let { name, annotated, value, span } => {
            if !*annotated {
                let position = let_name_end_position(span, name);
                let label = infer_hint_type(value);
                match (position, label) {
                    (Some(position), Some(label)) => {
                        if position_in_range(position, range) {
                            hints.push(type_inlay_hint(position, label));
                            assert(hint_views(hints@) =~= start + let_hint(
                                name@,
                                *value,
                                *span,
                                *range,
                            ));
                            return ;
                        }
                    },
                    _ => {},
                }
            }
            assert(hint_views(hints@) =~= start + stmt_hints(*stmt, *range));
        },
        Stmt::LetElse { else_body } => {
            collect_inlay_hints_from_stmts(else_body, range, hints);
        },
        Stmt::IfLet { body, else_body } => {
            collect_inlay_hints_from_stmts(body, range, hints);
            let ghost middle = hint_views(hints@);
            match else_body {
                Some(e) => {
                    assert(decreases_to!(*stmt => (*stmt)->IfLet_else_body));
                    collect_inlay_hints_from_stmts(e, range, hints);
                },
                None => {},
            }
            assert(hint_views(hints@) =~= start + stmt_hints(*stmt, *range));
        },
        Stmt::Match { arms } => {
            let mut j: usize = 0;
            while j < arms.len()
                invariant
                    j <= arms.len(),
                    *stmt == (Stmt::Match { arms: *arms }),
                    stmt_spans_ok(*stmt),
                    hint_views(hints@) == start + arms_hints(arms@.take(j as int), *range),
                decreases arms.len() - j,
            {
                proof {
                    assert(decreases_to!(*stmt => (*stmt)->arms));
                    assert((*stmt)->arms == *arms);
                    assert(decreases_to!(*arms => arms@));
                    assert(decreases_to!(arms@ => arms@[j as int]));
                    lemma_arms_spans_ok_prefix(arms@, j as int);
                    assert(arms@.take(j + 1).drop_last() =~= arms@.take(j as int));
                }
                let ghost before = hint_views(hints@);
                collect_inlay_hints_from_stmts(&arms[j], range, hints);
                assert(hint_views(hints@) =~= start + arms_hints(arms@.take(j + 1), *range));
                j = j + 1;
            }
            assert(arms@.take(arms.len() as int) =~= arms@);
        },
        Stmt::For { body } => {
            collect_inlay_hints_from_stmts(body, range, hints);
        },
        Stmt::Defer { stmt: inner } => {
            collect_stmt_hints(inner, range, hints);
        },
        Stmt::Unsafe { body } => {
            collect_inlay_hints_from_stmts(body, range, hints);
        },
        Stmt::Simple => {
            assert(hint_views(hints@) =~= start + stmt_hints(*stmt, *range));
        },
    }
}

/// Appends the type hints of every unannotated `let` in `stmts`, nested bodies
/// included, in source order.
pub fn collect_inlay_hints_from_stmts(stmts: &Vec<Stmt>, range: &Range, hints: &mut Vec<InlayHint>)
    requires
        stmts_spans_ok(stmts@),
    ensures
        hint_views(final(hints)@) == hint_views(old(hints)@) + stmts_hints(stmts@, *range),
    decreases stmts, 0nat,
{
    let ghost start = hint_views(hints@);
    let mut i: usize = 0;
    assert(start + stmts_hints(stmts@.take(0), *range) =~= start);
    while i < stmts.len()
        invariant
            i <= stmts.len(),
            stmts_spans_ok(stmts@),
            hint_views(hints@) == start + stmts_hints(stmts@.take(i as int), *range),
        decreases stmts.len() - i,
    {
        proof {
            assert(decreases_to!(*stmts => stmts@));
            assert(decreases_to!(stmts@ => stmts@[i as int]));
            lemma_stmts_spans_ok_prefix(stmts@, i as int);
            assert(stmts@.take(i + 1).drop_last() =~= stmts@.take(i as int));
        }
        collect_stmt_hints(&stmts[i], range, hints);
        assert(hint_views(hints@) =~= start + stmts_hints(stmts@.take(i + 1), *range));
        i = i + 1;
    }
    assert(stmts@.take(stmts.len() as int) =~= stmts@);
}

/// The type hints inside the bodies of a list of functions.
pub open spec fn bodies_hints(functions: Seq<FunctionDecl>, range: Range) -> Seq<
    (Position, Seq<char>, InlayHintKind),
>
    decreases functions.len(),
{
    if functions.len() == 0 {
        Seq::empty()
    } else {
        bodies_hints(functions.drop_last(), range) + stmts_hints(functions.last().body@, range)
    }
}

/// Every body of a list of functions has usable spans.
pub open spec fn bodies_spans_ok(functions: Seq<FunctionDecl>) -> bool {
    forall|i: int| 0 <= i < functions.len() ==> stmts_spans_ok(#[trigger] functions[i].body@)
}

/// Every statement whose hints a file can show has usable spans.
pub open spec fn file_spans_ok(file: SourceFile) -> bool {
    bodies_spans_ok(file.functions@) && bodies_spans_ok(file.impl_methods@) && stmts_spans_ok(
        file.script_body@,
    )
}

/// The type hints of a file: in function bodies, then impl method bodies, then the
/// script body.
pub open spec fn file_type_hints(file: SourceFile, range: Range) -> Seq<
    (Position, Seq<char>, InlayHintKind),
> {
    bodies_hints(file.functions@, range) + bodies_hints(file.impl_methods@, range) + stmts_hints(
        file.script_body@,
        range,
    )
}

fn collect_bodies_hints(functions: &Vec<FunctionDecl>, range: &Range, hints: &mut Vec<InlayHint>)
    requires
        bodies_spans_ok(functions@),
    ensures
        hint_views(final(hints)@) == hint_views(old(hints)@) + bodies_hints(functions@, *range),
{
    let ghost start = hint_views(hints@);
    let mut i: usize = 0;
    assert(start + bodies_hints(functions@.take(0), *range) =~= start);
    while i < functions.len()
        invariant
            i <= functions.len(),
            bodies_spans_ok(functions@),
            hint_views(hints@) == start + bodies_hints(functions@.take(i as int), *range),
        decreases functions.len() - i,
    {
        assert(functions@.take(i + 1).drop_last() =~= functions@.take(i as int));
        assert(stmts_spans_ok(functions@[i as int].body@));
        collect_inlay_hints_from_stmts(&functions[i].body, range, hints);
        assert(hint_views(hints@) =~= start + bodies_hints(functions@.take(i + 1), *range));
        i = i + 1;
    }
    assert(functions@.take(functions.len() as int) =~= functions@);
}

/// Appends the type hints of every function body, impl method body and the script
/// body of `file`.
pub fn collect_inlay_hints_from_file(file: &SourceFile, range: &Range, hints: &mut Vec<InlayHint>)
    requires
        file_spans_ok(*file),
    ensures
        hint_views(final(hints)@) == hint_views(old(hints)@) + file_type_hints(*file, *range),
{
    let ghost start = hint_views(hints@);
    collect_bodies_hints(&file.functions, range, hints);
    collect_bodies_hints(&file.impl_methods, range, hints);
    collect_inlay_hints_from_stmts(&file.script_body, range, hints);
    assert(hint_views(hints@) =~= start + file_type_hints(*file, *range));
}

/// Where hint `h` goes in the position-sorted `sorted`: after every hint that does
/// not start after it (so hints at one position keep their order).
pub open spec fn hint_insertion_index(
    sorted: Seq<(Position, Seq<char>, InlayHintKind)>,
    h: (Position, Seq<char>, InlayHintKind),
    from: nat,
) -> nat
    decreases sorted.len() - from,
{
    if from < sorted.len() && !position_lt(h.0, sorted[from as int].0) {
        hint_insertion_index(sorted, h, from + 1)
    } else {
        from
    }
}

/// Stable sort of hints by position.
pub open spec fn sort_hints(v: Seq<(Position, Seq<char>, InlayHintKind)>) -> Seq<
    (Position, Seq<char>, InlayHintKind),
>
    decreases v.len(),
{
    if v.len() == 0 {
        v
    } else {
        let sorted = sort_hints(v.drop_last());
        sorted.insert(hint_insertion_index(sorted, v.last(), 0) as int, v.last())
    }
}

proof fn lemma_hint_insertion_index_bound(
    sorted: Seq<(Position, Seq<char>, InlayHintKind)>,
    h: (Position, Seq<char>, InlayHintKind),
    from: nat,
)
    requires
        from <= sorted.len(),
    ensures
        from <= hint_insertion_index(sorted, h, from) <= sorted.len(),
    decreases sorted.len() - from,
{
    if from < sorted.len() && !position_lt(h.0, sorted[from as int].0) {
        lemma_hint_insertion_index_bound(sorted, h, from + 1);
    }
}

proof fn lemma_sort_hints_len(v: Seq<(Position, Seq<char>, InlayHintKind)>)
    ensures
        sort_hints(v).len() == v.len(),
    decreases v.len(),
{
    if v.len() > 0 {
        lemma_sort_hints_len(v.drop_last());
        lemma_hint_insertion_index_bound(sort_hints(v.drop_last()), v.last(), 0);
    }
}

/// Sorts hints by position, keeping hints at one position in their given order.
fn sort_by_position(hints: Vec<InlayHint>) -> (sorted: Vec<InlayHint>)
    ensures
        hint_views(sorted@) == sort_hints(hint_views(hints@)),
{
    let ghost all = hint_views(hints@);
    let mut rest = hints;
    let mut sorted: Vec<InlayHint> = Vec::new();
    let mut k: usize = 0;
    assert(all.take(0) =~= Seq::<(Position, Seq<char>, InlayHintKind)>::empty());
    assert(all.skip(0) =~= all);
    assert(all.len() == rest.len());
    while rest.len() > 0
        invariant
            k <= all.len(),
            all.len() <= usize::MAX,
            hint_views(rest@) == all.skip(k as int),
            hint_views(sorted@) == sort_hints(all.take(k as int)),
        decreases rest.len(),
    {
        let ghost old_rest = rest@;
        let h = rest.remove(0);
        proof {
            assert(rest@ =~= old_rest.skip(1));
            assert(hint_views(old_rest).len() == old_rest.len());
            assert(hint_views(old_rest)[0] == hint_view(old_rest[0]));
            assert(hint_view(h) == all[k as int]);
            assert forall|i: int| 0 <= i < rest@.len() implies #[trigger] hint_views(rest@)[i]
                == all.skip(k + 1)[i] by {
                assert(hint_views(rest@)[i] == hint_view(old_rest[i + 1]));
                assert(hint_views(old_rest)[i + 1] == all.skip(k as int)[i + 1]);
            }
            assert(hint_views(rest@) =~= all.skip(k + 1));
        }
        let ghost sv = hint_views(sorted@);
        let mut j: usize = 0;
        proof {
            lemma_hint_insertion_index_bound(sv, hint_view(h), 0);
        }
        while j < sorted.len() && !position_before(h.position, sorted[j].position)
            invariant
                j <= sorted.len(),
                sv == hint_views(sorted@),
                hint_insertion_index(sv, hint_view(h), j as nat) == hint_insertion_index(
                    sv,
                    hint_view(h),
                    0,
                ),
            decreases sorted.len() - j,
        {
            assert(sv[j as int].0 == sorted@[j as int].position);
            j = j + 1;
        }
        proof {
            if j < sorted.len() {
                assert(sv[j as int].0 == sorted@[j as int].position);
            }
        }
        let ghost before = sorted@;
        sorted.insert(j, h);
        proof {
            assert(all.take(k + 1).drop_last() =~= all.take(k as int));
            assert(all.take(k + 1).last() == all[k as int]);
            assert(hint_views(sorted@) =~= sv.insert(j as int, hint_view(h)));
        }
        k = k + 1;
    }
    proof {
        assert(all.skip(k as int).len() == 0);
        assert(all.take(k as int) =~= all);
    }
    sorted
}

/// All hints of a parsed file: type hints, then parameter-name hints, stably sorted
/// by position.
pub open spec fn all_hints(tokens: Seq<Token>, file: SourceFile, range: Range) -> Seq<
    (Position, Seq<char>, InlayHintKind),
> {
    sort_hints(file_type_hints(file, range) + parameter_hints_from(tokens, file, range, 0))
}

/// The inlay hints of a document within `range`, given its tokens and syntax tree;
/// none when the text did not lex or parse.
pub fn inlay_hints_for_text(tokens: Option<Vec<Token>>, file: Option<SourceFile>, range: Range) -> (r:
    Vec<InlayHint>)
    requires
        file matches Some(f) ==> file_spans_ok(f),
    ensures
        (match (tokens, file) {
            (Some(t), Some(f)) => hint_views(r@) == all_hints(t@, f, range),
            _ => r@.len() == 0,
        }),
{
    let tokens = match tokens {
        Some(t) => t,
        None => return Vec::new(),
    };
    let file = match file {
        Some(f) => f,
        None => return Vec::new(),
    };
    let mut hints: Vec<InlayHint> = Vec::new();
    collect_inlay_hints_from_file(&file, &range, &mut hints);
    collect_parameter_inlay_hints(&tokens, &file, &range, &mut hints);
    assert(hint_views(Seq::<InlayHint>::empty()) =~= Seq::<(Position, Seq<char>, InlayHintKind)>::empty());
    sort_by_position(hints)
}

/// Every hint of `h` lies in `range`.
pub open spec fn all_in_range(h: Seq<(Position, Seq<char>, InlayHintKind)>, range: Range) -> bool {
    forall|i: int| 0 <= i < h.len() ==> in_range(#[trigger] h[i].0, range)
}

/// The hints of `h` come in order of position.
pub open spec fn hints_sorted(h: Seq<(Position, Seq<char>, InlayHintKind)>) -> bool {
    forall|i: int, j: int| 0 <= i < j < h.len() ==> !position_lt(#[trigger] h[j].0, #[trigger] h[i].0)
}

proof fn lemma_concat_in_range(
    a: Seq<(Position, Seq<char>, InlayHintKind)>,
    b: Seq<(Position, Seq<char>, InlayHintKind)>,
    range: Range,
)
    requires
        all_in_range(a, range),
        all_in_range(b, range),
    ensures
        all_in_range(a + b, range),
{
    assert forall|i: int| 0 <= i < (a + b).len() implies in_range(#[trigger] (a + b)[i].0, range) by {
        if i < a.len() {
            assert((a + b)[i] == a[i]);
        } else {
            assert((a + b)[i] == b[i - a.len()]);
        }
    }
}

proof fn lemma_stmt_hints_in_range(stmt: Stmt, range: Range)
    ensures
        all_in_range(stmt_hints(stmt, range), range),
    decreases stmt, 1nat,
{
    match stmt {
        Stmt::Let { .. } => {},
        Stmt::LetElse { else_body } => lemma_stmts_hints_in_range(else_body@, range),
        Stmt::IfLet { body, else_body } => {
            lemma_stmts_hints_in_range(body@, range);
            match else_body {
                Some(e) => {
                    lemma_stmts_hints_in_range(e@, range);
                    lemma_concat_in_range(stmts_hints(body@, range), stmts_hints(e@, range), range);
                },
                None => {
                    assert(stmts_hints(body@, range) + Seq::empty() =~= stmts_hints(body@, range));
                },
            }
        },
        Stmt::Match { arms } => lemma_arms_hints_in_range(arms@, range),
        Stmt::For { body } => lemma_stmts_hints_in_range(body@, range),
        Stmt::Defer { stmt } => lemma_stmt_hints_in_range(*stmt, range),
        Stmt::Unsafe { body } => lemma_stmts_hints_in_range(body@, range),
        Stmt::Simple => {},
    }
}

proof fn lemma_stmts_hints_in_range(stmts: Seq<Stmt>, range: Range)
    ensures
        all_in_range(stmts_hints(stmts, range), range),
    decreases stmts, 0nat,
{
    if stmts.len() > 0 {
        lemma_stmts_hints_in_range(stmts.drop_last(), range);
        lemma_stmt_hints_in_range(stmts.last(), range);
        lemma_concat_in_range(stmts_hints(stmts.drop_last(), range), stmt_hints(stmts.last(), range), range);
    }
}

proof fn lemma_arms_hints_in_range(arms: Seq<Vec<Stmt>>, range: Range)
    ensures
        all_in_range(arms_hints(arms, range), range),
    decreases arms, 0nat,
{
    if arms.len() > 0 {
        lemma_arms_hints_in_range(arms.drop_last(), range);
        lemma_stmts_hints_in_range(arms.last()@, range);
        lemma_concat_in_range(arms_hints(arms.drop_last(), range), stmts_hints(arms.last()@, range), range);
    }
}

proof fn lemma_bodies_hints_in_range(functions: Seq<FunctionDecl>, range: Range)
    ensures
        all_in_range(bodies_hints(functions, range), range),
    decreases functions.len(),
{
    if functions.len() > 0 {
        lemma_bodies_hints_in_range(functions.drop_last(), range);
        lemma_stmts_hints_in_range(functions.last().body@, range);
        lemma_concat_in_range(
            bodies_hints(functions.drop_last(), range),
            stmts_hints(functions.last().body@, range),
            range,
        );
    }
}

proof fn lemma_argument_hints_in_range(
    tokens: Seq<Token>,
    args: Seq<int>,
    params: Seq<Seq<char>>,
    range: Range,
    n: nat,
)
    ensures
        all_in_range(argument_hints(tokens, args, params, range, n), range),
    decreases n,
{
    if n > 0 {
        lemma_argument_hints_in_range(tokens, args, params, range, (n - 1) as nat);
        let previous = argument_hints(tokens, args, params, range, (n - 1) as nat);
        let all = argument_hints(tokens, args, params, range, n);
        assert forall|i: int| 0 <= i < all.len() implies in_range(#[trigger] all[i].0, range) by {
            if i < previous.len() {
                assert(all[i] == previous[i]);
            }
        }
    }
}

proof fn lemma_parameter_hints_in_range(tokens: Seq<Token>, file: SourceFile, range: Range, index: int)
    ensures
        all_in_range(parameter_hints_from(tokens, file, range, index), range),
    decreases tokens.len() - index,
{
    if 0 <= index < tokens.len() {
        lemma_callee_at_advances(tokens, index);
        match callee_at(tokens, index) {
            None => lemma_parameter_hints_in_range(tokens, file, range, index + 1),
            Some((callee, lparen, next)) => {
                lemma_parameter_hints_in_range(tokens, file, range, next);
                match parameter_signature(file, callee) {
                    None => {},
                    Some(params) => match argument_starts(tokens, lparen) {
                        None => {},
                        Some(args) => lemma_argument_hints_in_range(
                            tokens,
                            args,
                            params,
                            range,
                            if args.len() < params.len() {
                                args.len()
                            } else {
                                params.len()
                            },
                        ),
                    },
                }
                lemma_concat_in_range(
                    call_hints(tokens, file, range, callee, lparen),
                    parameter_hints_from(tokens, file, range, next),
                    range,
                );
            },
        }
    }
}

/// Where `hint_insertion_index` stops: every hint it passes is not after `h`, and
/// the hint it stops at (if any) is after `h`.
proof fn lemma_hint_insertion_index_spot(
    sorted: Seq<(Position, Seq<char>, InlayHintKind)>,
    h: (Position, Seq<char>, InlayHintKind),
    from: nat,
)
    requires
        from <= sorted.len(),
    ensures
        forall|m: int|
            from <= m < hint_insertion_index(sorted, h, from) ==> !position_lt(h.0, #[trigger] sorted[m].0),
        hint_insertion_index(sorted, h, from) < sorted.len() ==> position_lt(
            h.0,
            sorted[hint_insertion_index(sorted, h, from) as int].0,
        ),
    decreases sorted.len() - from,
{
    if from < sorted.len() && !position_lt(h.0, sorted[from as int].0) {
        lemma_hint_insertion_index_spot(sorted, h, from + 1);
    }
}

/// Sorting hints keeps their number, takes each from the input, and puts them in
/// order of position.
proof fn lemma_sort_hints_sorted(v: Seq<(Position, Seq<char>, InlayHintKind)>)
    ensures
        sort_hints(v).len() == v.len(),
        hints_sorted(sort_hints(v)),
        forall|i: int| 0 <= i < v.len() ==> v.contains(#[trigger] sort_hints(v)[i]),
    decreases v.len(),
{
    lemma_sort_hints_len(v);
    if v.len() > 0 {
        let rest = v.drop_last();
        lemma_sort_hints_sorted(rest);
        let s = sort_hints(rest);
        let x = v.last();
        lemma_hint_insertion_index_bound(s, x, 0);
        lemma_hint_insertion_index_spot(s, x, 0);
        let k = hint_insertion_index(s, x, 0) as int;
        let r = s.insert(k, x);
        assert(r == sort_hints(v));
        assert forall|i: int, j: int| 0 <= i < j < r.len() implies !position_lt(
            #[trigger] r[j].0,
            #[trigger] r[i].0,
        ) by {
            if j < k {
                assert(r[i] == s[i] && r[j] == s[j]);
            } else if j == k {
                assert(r[i] == s[i]);
                assert(!position_lt(x.0, s[i].0));
            } else if i < k {
                assert(r[i] == s[i] && r[j] == s[j - 1]);
            } else if i == k {
                assert(r[j] == s[j - 1]);
                assert(position_lt(x.0, s[k].0));
                if j - 1 > k {
                    assert(!position_lt(s[j - 1].0, s[k].0));
                }
            } else {
                assert(r[i] == s[i - 1] && r[j] == s[j - 1]);
            }
        }
        assert forall|i: int| 0 <= i < v.len() implies v.contains(#[trigger] r[i]) by {
            if i < k {
                assert(r[i] == s[i]);
                assert(rest.contains(s[i]));
                let w = choose|w: int| 0 <= w < rest.len() && rest[w] == s[i];
                assert(v[w] == rest[w]);
            } else if i == k {
                assert(v[v.len() - 1] == x);
            } else {
                assert(r[i] == s[i - 1]);
                assert(rest.contains(s[i - 1]));
                let w = choose|w: int| 0 <= w < rest.len() && rest[w] == s[i - 1];
                assert(v[w] == rest[w]);
            }
        }
    }
}

/// The inlay hints of a document come in order of position, every one lies in the
/// requested range, and they are the type hints and parameter-name hints collected,
/// as many as were collected.
pub proof fn lemma_hints_sorted_and_in_range(tokens: Seq<Token>, file: SourceFile, range: Range)
    ensures
        hints_sorted(all_hints(tokens, file, range)),
        all_in_range(all_hints(tokens, file, range), range),
        all_hints(tokens, file, range).len() == file_type_hints(file, range).len()
            + parameter_hints_from(tokens, file, range, 0).len(),
        forall|i: int|
            0 <= i < all_hints(tokens, file, range).len() ==> (file_type_hints(file, range)
                + parameter_hints_from(tokens, file, range, 0)).contains(
                #[trigger] all_hints(tokens, file, range)[i],
            ),
{
    let types = file_type_hints(file, range);
    let params = parameter_hints_from(tokens, file, range, 0);
    lemma_bodies_hints_in_range(file.functions@, range);
    lemma_bodies_hints_in_range(file.impl_methods@, range);
    lemma_stmts_hints_in_range(file.script_body@, range);
    lemma_concat_in_range(bodies_hints(file.functions@, range), bodies_hints(file.impl_methods@, range), range);
    lemma_concat_in_range(
        bodies_hints(file.functions@, range) + bodies_hints(file.impl_methods@, range),
        stmts_hints(file.script_body@, range),
        range,
    );
    lemma_parameter_hints_in_range(tokens, file, range, 0);
    lemma_concat_in_range(types, params, range);
    let v = types + params;
    lemma_sort_hints_sorted(v);
    let all = sort_hints(v);
    assert forall|i: int| 0 <= i < all.len() implies in_range(#[trigger] all[i].0, range) by {
        assert(v.contains(all[i]));
        let w = choose|w: int| 0 <= w < v.len() && v[w] == all[i];
        assert(in_range(v[w].0, range));
    }
}

/// Comparisons and logic are typed `bool` whatever their operands, and arithmetic
/// and bitwise operations take the type both operands agree on: `1 == 2` is a
/// `bool`, `1 + 2` an `i64`, and `1 + "a"` has no hint.
pub proof fn lemma_binary_hint_types(left: Expr, op: BinaryOp, right: Expr)
    ensures
        (op is Equal || op is NotEqual || op is Less || op is LessEqual || op is Greater
            || op is GreaterEqual || op is LogicalAnd || op is LogicalOr) ==> infer_type(
            Expr::Binary { left: Box::new(left), op, right: Box::new(right) },
        ) == Some("bool"@),
        !(op is Equal || op is NotEqual || op is Less || op is LessEqual || op is Greater
            || op is GreaterEqual || op is LogicalAnd || op is LogicalOr) ==> infer_type(
            Expr::Binary { left: Box::new(left), op, right: Box::new(right) },
        ) == (if infer_type(left) is Some && infer_type(left) == infer_type(right) {
            infer_type(left)
        } else {
            None
        }),
{
}

} // verus!
