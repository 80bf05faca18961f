//! The lexical tokens of a Nomo source file, as the compiler's lexer reports them,
//! and the token-stream navigation that several editor features share.
use vstd::prelude::*;

verus! {

/// Kind of a lexical token. Payload-carrying kinds keep what the editor features
/// read: an identifier's name, a string literal's contents, an integer's value, a
/// float literal's spelling.
#[derive(Clone, Debug)]
pub enum TokenKind {
    Package,
    Import,
    Pub,
    Impl,
    Interface,
    Unsafe,
    Extern,
    Fn,
    Struct,
    Enum,
    Const,
    If,
    Else,
    Match,
    Panic,
    As,
    Let,
    Mut,
    Return,
    For,
    In,
    Break,
    Continue,
    Defer,
    Void,
    True,
    False,
    Ident(String),
    Str(String),
    Char,
    Int(i64),
    Float(String),
    Plus,
    Equal,
    EqualEqual,
    BangEqual,
    Star,
    Less,
    Greater,
    Question,
    LessEqual,
    GreaterEqual,
    Arrow,
    FatArrow,
    LParen,
    RParen,
    LBrace,
    RBrace,
    LBracket,
    RBracket,
    Comma,
    Dot,
    Colon,
    Newline,
    Eof,
    /// Any other punctuation or operator.
    Other,
}

/// A token with its one-based line and column (the column counts bytes), and the
/// text of the source line it stands on.
#[derive(Clone, Debug)]
pub struct Token {
    pub kind: TokenKind,
    pub line: usize,
    pub column: usize,
    pub text: String,
}

/// Whether token kind `k` is skipped when looking for the previous or next
/// significant token (line breaks and the end marker).
pub open spec fn is_trivia(k: TokenKind) -> bool {
    k is Newline || k is Eof
}

/// Whether `k` is a line break or end marker.
pub fn token_is_trivia(k: &TokenKind) -> (b: bool)
    ensures
        b == is_trivia(*k),
{
    matches!(k, TokenKind::Newline | TokenKind::Eof)
}

/// Index of the last non-trivia token at or before `index` (scanning down to 0).
pub open spec fn significant_at_or_before(tokens: Seq<Token>, index: int) -> Option<int>
    decreases index + 1,
{
    if index < 0 || index >= tokens.len() {
        None
    } else if !is_trivia(tokens[index].kind) {
        Some(index)
    } else {
        significant_at_or_before(tokens, index - 1)
    }
}

/// Index of the last non-trivia token strictly before `index`.
pub open spec fn previous_significant_index(tokens: Seq<Token>, index: int) -> Option<int> {
    significant_at_or_before(tokens, index - 1)
}

/// Index of the first non-trivia token strictly after `index`.
pub open spec fn next_significant_from(tokens: Seq<Token>, index: int) -> Option<int>
    decreases tokens.len() - index,
{
    if index < 0 || index >= tokens.len() {
        None
    } else if !is_trivia(tokens[index].kind) {
        Some(index)
    } else {
        next_significant_from(tokens, index + 1)
    }
}

pub proof fn lemma_significant_at_or_before(tokens: Seq<Token>, index: int)
    ensures
        significant_at_or_before(tokens, index) matches Some(j) ==> 0 <= j <= index && j
            < tokens.len() && !is_trivia(tokens[j].kind),
    decreases index + 1,
{
    if 0 <= index < tokens.len() && is_trivia(tokens[index].kind) {
        lemma_significant_at_or_before(tokens, index - 1);
    }
}

pub proof fn lemma_next_significant_from(tokens: Seq<Token>, index: int)
    ensures
        next_significant_from(tokens, index) matches Some(j) ==> index <= j < tokens.len()
            && !is_trivia(tokens[j].kind),
    decreases tokens.len() - index,
{
    if 0 <= index < tokens.len() && is_trivia(tokens[index].kind) {
        lemma_next_significant_from(tokens, index + 1);
    }
}

/// Index of the last non-trivia token strictly before `index`.
pub fn previous_significant(tokens: &Vec<Token>, index: usize) -> (r: Option<usize>)
    requires
        index <= tokens.len(),
    ensures
        r matches Some(j) ==> j < index && previous_significant_index(tokens@, index as int) == Some(
            j as int,
        ),
        r is None ==> previous_significant_index(tokens@, index as int) is None,
{
    proof {
        lemma_significant_at_or_before(tokens@, index - 1);
    }
    let mut i = index;
    while i > 0
        invariant
            i <= index <= tokens.len(),
            significant_at_or_before(tokens@, i - 1) == previous_significant_index(
                tokens@,
                index as int,
            ),
        decreases i,
    {
        if !token_is_trivia(&tokens[i - 1].kind) {
            return Some(i - 1);
        }
        i = i - 1;
    }
    None
}

/// Index of the first non-trivia token strictly after `index`.
pub fn next_significant(tokens: &Vec<Token>, index: usize) -> (r: Option<usize>)
    requires
        index < tokens.len(),
    ensures
        r matches Some(j) ==> index < j < tokens.len() && next_significant_from(tokens@, index + 1)
            == Some(j as int),
        r is None ==> next_significant_from(tokens@, index + 1) is None,
{
    proof {
        lemma_next_significant_from(tokens@, index + 1);
    }
    let mut i = index + 1;
    while i < tokens.len()
        invariant
            index < i <= tokens.len(),
            next_significant_from(tokens@, i as int) == next_significant_from(
                tokens@,
                index + 1,
            ),
        decreases tokens.len() - i,
    {
        if !token_is_trivia(&tokens[i].kind) {
            return Some(i);
        }
        i = i + 1;
    }
    None
}

/// Index of the last token before `index` that is not a line break (the end
/// marker counts as a token here).
pub open spec fn non_newline_at_or_before(tokens: Seq<Token>, index: int) -> Option<int>
    decreases index + 1,
{
    if index < 0 || index >= tokens.len() {
        None
    } else if !(tokens[index].kind is Newline) {
        Some(index)
    } else {
        non_newline_at_or_before(tokens, index - 1)
    }
}

pub proof fn lemma_non_newline_at_or_before(tokens: Seq<Token>, index: int)
    ensures
        non_newline_at_or_before(tokens, index) matches Some(j) ==> 0 <= j <= index && j
            < tokens.len() && !(tokens[j].kind is Newline),
    decreases index + 1,
{
    if 0 <= index < tokens.len() && tokens[index].kind is Newline {
        lemma_non_newline_at_or_before(tokens, index - 1);
    }
}

/// Index of the last token strictly before `index` that is not a line break.
pub fn previous_non_newline(tokens: &Vec<Token>, index: usize) -> (r: Option<usize>)
    requires
        index <= tokens.len(),
    ensures
        r matches Some(j) ==> j < index && non_newline_at_or_before(tokens@, index - 1) == Some(
            j as int,
        ),
        r is None ==> non_newline_at_or_before(tokens@, index - 1) is None,
{
    proof {
        lemma_non_newline_at_or_before(tokens@, index - 1);
    }
    let mut i = index;
    while i > 0
        invariant
            i <= index <= tokens.len(),
            non_newline_at_or_before(tokens@, i - 1) == non_newline_at_or_before(
                tokens@,
                index - 1,
            ),
        decreases i,
    {
        if !matches!(tokens[i - 1].kind, TokenKind::Newline) {
            return Some(i - 1);
        }
        i = i - 1;
    }
    None
}

/// Zero-based line of a token (its one-based line minus one, saturating).
pub open spec fn token_line0(t: Token) -> nat {
    if t.line > 0 {
        (t.line - 1) as nat
    } else {
        0
    }
}

/// Zero-based column of a token.
pub open spec fn token_col0(t: Token) -> nat {
    if t.column > 0 {
        (t.column - 1) as nat
    } else {
        0
    }
}

/// Zero-based line of a token.
pub fn token_line_index(t: &Token) -> (n: usize)
    ensures
        n == token_line0(*t),
{
    if t.line > 0 {
        t.line - 1
    } else {
        0
    }
}

/// Zero-based column of a token.
pub fn token_column_index(t: &Token) -> (n: usize)
    ensures
        n == token_col0(*t),
{
    if t.column > 0 {
        t.column - 1
    } else {
        0
    }
}

} // verus!
