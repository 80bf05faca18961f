//! Semantic highlighting: each token is classified (keyword, type, function,
//! property, ...) from its kind and its neighbours, and the highlighted tokens are
//! delta-encoded as LSP semantic tokens.
use vstd::prelude::*;

use crate::text::{chars_of, push_char};
use crate::token::{
    lemma_next_significant_from, lemma_significant_at_or_before, next_significant,
    next_significant_from, previous_significant, previous_significant_index, token_col0, token_line0,
    Token, TokenKind,
};

verus! {

// Indices into the legend that `token_types` returns.
pub const KEYWORD: u32 = 0;

pub const TYPE: u32 = 1;

pub const VARIABLE: u32 = 2;

pub const STRING: u32 = 3;

pub const NUMBER: u32 = 4;

pub const OPERATOR: u32 = 5;

pub const FUNCTION: u32 = 6;

pub const PROPERTY: u32 = 7;

pub const ENUM_MEMBER: u32 = 8;

/// One delta-encoded LSP semantic token.
#[derive(Clone, Copy, Debug, PartialEq, Eq, Structural)]
pub struct SemanticToken {
    pub delta_line: u32,
    pub delta_start: u32,
    pub length: u32,
    pub token_type: u32,
    pub token_modifiers_bitset: u32,
}

fn string_of(s: &str) -> (r: String)
    ensures
        r@ == s@,
{
    let mut r = String::new();
    for c in it: s.chars()
        invariant
            r@ == it.seq().take(it.index() as int),
    {
        push_char(&mut r, c);
    }
    r
}

/// Names of the token types of the legend, in index order.
pub fn token_types() -> (names: Vec<String>)
    ensures
        names.len() == 9,
        names[KEYWORD as int]@ == "keyword"@,
        names[TYPE as int]@ == "type"@,
        names[VARIABLE as int]@ == "variable"@,
        names[STRING as int]@ == "string"@,
        names[NUMBER as int]@ == "number"@,
        names[OPERATOR as int]@ == "operator"@,
        names[FUNCTION as int]@ == "function"@,
        names[PROPERTY as int]@ == "property"@,
        names[ENUM_MEMBER as int]@ == "enumMember"@,
{
    let mut names: Vec<String> = Vec::new();
    names.push(string_of("keyword"));
    names.push(string_of("type"));
    names.push(string_of("variable"));
    names.push(string_of("string"));
    names.push(string_of("number"));
    names.push(string_of("operator"));
    names.push(string_of("function"));
    names.push(string_of("property"));
    names.push(string_of("enumMember"));
    names
}

/// Number of characters of the decimal spelling of `v`.
pub open spec fn decimal_len(v: nat) -> nat
    decreases v,
{
    if v < 10 {
        1
    } else {
        1 + decimal_len(v / 10)
    }
}

/// Number of characters of `v.to_string()`.
pub open spec fn int_spelling_len(v: i64) -> nat {
    if v < 0 {
        1 + decimal_len((-v) as nat)
    } else {
        decimal_len(v as nat)
    }
}

/// `10^e`.
pub open spec fn pow10(e: nat) -> nat
    decreases e,
{
    if e == 0 {
        1
    } else {
        10 * pow10((e - 1) as nat)
    }
}

proof fn lemma_decimal_len_bound(v: nat, e: nat)
    requires
        v < pow10(e),
        e >= 1,
    ensures
        decimal_len(v) <= e,
    decreases e,
{
    if v >= 10 {
        assert(v / 10 < pow10((e - 1) as nat)) by (nonlinear_arith)
            requires
                v < 10 * pow10((e - 1) as nat),
                v >= 10,
        ;
        lemma_decimal_len_bound(v / 10, (e - 1) as nat);
    }
}

fn decimal_len_exec(v: u64) -> (n: u32)
    ensures
        n == decimal_len(v as nat),
        n <= 20,
{
    proof {
        reveal_with_fuel(pow10, 21);
        assert(pow10(20) == 100000000000000000000nat);
        lemma_decimal_len_bound(v as nat, 20);
    }
    let mut n: u32 = 1;
    let mut rest = v;
    while rest >= 10
        invariant
            n + decimal_len(rest as nat) == decimal_len(v as nat) + 1,
            decimal_len(v as nat) <= 20,
            1 <= n,
        decreases rest,
    {
        rest = rest / 10;
        n = n + 1;
    }
    n
}

/// Semantic type and highlighted length of a token kind on its own (identifiers
/// count as types when capitalized and as variables otherwise).
pub open spec fn kind_class(k: TokenKind) -> Option<(u32, u32)> {
    match k {
        TokenKind::Package => Some((KEYWORD, 7)),
        TokenKind::Import => Some((KEYWORD, 6)),
        TokenKind::Pub => Some((KEYWORD, 3)),
        TokenKind::Impl => Some((KEYWORD, 4)),
        TokenKind::Interface => Some((KEYWORD, 9)),
        TokenKind::Unsafe => Some((KEYWORD, 6)),
        TokenKind::Extern => Some((KEYWORD, 6)),
        TokenKind::Fn => Some((KEYWORD, 2)),
        TokenKind::Struct => Some((KEYWORD, 6)),
        TokenKind::Enum => Some((KEYWORD, 4)),
        TokenKind::Const => Some((KEYWORD, 5)),
        TokenKind::If => Some((KEYWORD, 2)),
        TokenKind::Else => Some((KEYWORD, 4)),
        TokenKind::Match => Some((KEYWORD, 5)),
        TokenKind::Panic => Some((KEYWORD, 5)),
        TokenKind::As => Some((KEYWORD, 2)),
        TokenKind::Let => Some((KEYWORD, 3)),
        TokenKind::Mut => Some((KEYWORD, 3)),
        TokenKind::Return => Some((KEYWORD, 6)),
        TokenKind::For => Some((KEYWORD, 3)),
        TokenKind::In => Some((KEYWORD, 2)),
        TokenKind::Break => Some((KEYWORD, 5)),
        TokenKind::Continue => Some((KEYWORD, 8)),
        TokenKind::Defer => Some((KEYWORD, 5)),
        TokenKind::Void => Some((KEYWORD, 4)),
        TokenKind::True => Some((KEYWORD, 4)),
        TokenKind::False => Some((KEYWORD, 5)),
        TokenKind::Ident(name) => Some(
            (if starts_upper(name@) {
                TYPE
            } else {
                VARIABLE
            }, name@.len() as u32),
        ),
        TokenKind::Str(value) => Some((STRING, (value@.len() + 2) as u32)),
        TokenKind::Char => Some((STRING, 3)),
        TokenKind::Int(value) => Some((NUMBER, int_spelling_len(value) as u32)),
        TokenKind::Float(value) => Some((NUMBER, value@.len() as u32)),
        TokenKind::Plus | TokenKind::Equal | TokenKind::EqualEqual | TokenKind::BangEqual
        | TokenKind::Star | TokenKind::Less | TokenKind::Greater | TokenKind::Question => Some(
            (OPERATOR, 1),
        ),
        TokenKind::LessEqual | TokenKind::GreaterEqual | TokenKind::Arrow | TokenKind::FatArrow => Some(
            (OPERATOR, 2),
        ),
        _ => None,
    }
}

/// Whether a name starts with an ASCII capital letter.
pub open spec fn starts_upper(name: Seq<char>) -> bool {
    name.len() > 0 && 'A' <= name[0] <= 'Z'
}

/// Length of `s` in characters and whether it starts with an ASCII capital.
fn name_shape(s: &String) -> (r: (usize, bool))
    ensures
        r.0 == s@.len(),
        r.1 == starts_upper(s@),
{
    let v = chars_of(s.as_str());
    let upper = v.len() > 0 && 'A' <= v[0] && v[0] <= 'Z';
    (v.len(), upper)
}

/// Whether the payloads of `k` are short enough for the highlighted length to fit.
pub open spec fn kind_fits(k: TokenKind) -> bool {
    match k {
        TokenKind::Str(value) => value@.len() + 2 <= u32::MAX,
        _ => true,
    }
}

/// Map a token kind to its semantic token type and on-screen length; `None` for
/// trivia and punctuation that is not highlighted.
pub fn classify(kind: &TokenKind) -> (r: Option<(u32, u32)>)
    requires
        kind_fits(*kind),
    ensures
        r == kind_class(*kind),
{
    match kind {
        TokenKind::Package => Some((KEYWORD, 7)),
        TokenKind::Import => Some((KEYWORD, 6)),
        TokenKind::Pub => Some((KEYWORD, 3)),
        TokenKind::Impl => Some((KEYWORD, 4)),
        TokenKind::Interface => Some((KEYWORD, 9)),
        TokenKind::Unsafe => Some((KEYWORD, 6)),
        TokenKind::Extern => Some((KEYWORD, 6)),
        TokenKind::Fn => Some((KEYWORD, 2)),
        TokenKind::Struct => Some((KEYWORD, 6)),
        TokenKind::Enum => Some((KEYWORD, 4)),
        TokenKind::Const => Some((KEYWORD, 5)),
        TokenKind::If => Some((KEYWORD, 2)),
        TokenKind::Else => Some((KEYWORD, 4)),
        TokenKind::Match => Some((KEYWORD, 5)),
        TokenKind::Panic => Some((KEYWORD, 5)),
        TokenKind::As => Some((KEYWORD, 2)),
        TokenKind::Let => Some((KEYWORD, 3)),
        TokenKind::Mut => Some((KEYWORD, 3)),
        TokenKind::Return => Some((KEYWORD, 6)),
        TokenKind::For => Some((KEYWORD, 3)),
        TokenKind::In => Some((KEYWORD, 2)),
        TokenKind::Break => Some((KEYWORD, 5)),
        TokenKind::Continue => Some((KEYWORD, 8)),
        TokenKind::Defer => Some((KEYWORD, 5)),
        TokenKind::Void => Some((KEYWORD, 4)),
        TokenKind::True => Some((KEYWORD, 4)),
        TokenKind::False => Some((KEYWORD, 5)),
        TokenKind::Ident(name) => {
            let (len, upper) = name_shape(name);
            Some(
                (if upper {
                    TYPE
                } else {
                    VARIABLE
                }, #[verifier::truncate] (len as u32)),
            )
        },
        TokenKind::Str(value) => {
            let (len, _) = name_shape(value);
            Some((STRING, len as u32 + 2))
        },
        TokenKind::Char => Some((STRING, 3)),
        TokenKind::Int(value) => {
            let v = *value;
            let n = if v < 0 {
                let magnitude: u64 = if v == i64::MIN {
                    9223372036854775808u64
                } else {
                    (-v) as u64
                };
                1 + decimal_len_exec(magnitude)
            } else {
                decimal_len_exec(v as u64)
            };
            Some((NUMBER, n))
        },
        TokenKind::Float(value) => {
            let (len, _) = name_shape(value);
            Some((NUMBER, #[verifier::truncate] (len as u32)))
        },
        TokenKind::Plus | TokenKind::Equal | TokenKind::EqualEqual | TokenKind::BangEqual
        | TokenKind::Star | TokenKind::Less | TokenKind::Greater | TokenKind::Question => Some(
            (OPERATOR, 1),
        ),
        TokenKind::LessEqual | TokenKind::GreaterEqual | TokenKind::Arrow | TokenKind::FatArrow => Some(
            (OPERATOR, 2),
        ),
        _ => None,
    }
}

/// Kind of the declaration whose body a scope is.
#[derive(Clone, Copy, Debug, PartialEq, Eq, Structural)]
pub enum DeclarationScopeKind {
    Struct,
    Enum,
}

/// An open `struct` or `enum` body and how many braces deep the scanner is in it.
#[derive(Clone, Copy, Debug)]
pub struct DeclarationScope {
    pub kind: DeclarationScopeKind,
    pub brace_depth: usize,
}

/// The declaration bodies open at the current token, innermost last.
#[derive(Debug)]
pub struct SemanticContext {
    pub declarations: Vec<DeclarationScope>,
}

/// Scopes as (kind, depth) pairs.
pub type ScopeStack = Seq<(DeclarationScopeKind, nat)>;

/// The kind of declaration whose body the `{` at `index` opens: the brace follows an
/// identifier which follows the `struct` or `enum` keyword.
pub open spec fn declaration_opened_at(tokens: Seq<Token>, index: int) -> Option<DeclarationScopeKind> {
    if 0 <= index < tokens.len() && tokens[index].kind is LBrace {
        match previous_significant_index(tokens, index) {
            Some(name) => if tokens[name].kind is Ident {
                match previous_significant_index(tokens, name) {
                    Some(keyword) => if tokens[keyword].kind is Struct {
                        Some(DeclarationScopeKind::Struct)
                    } else if tokens[keyword].kind is Enum {
                        Some(DeclarationScopeKind::Enum)
                    } else {
                        None
                    },
                    None => None,
                }
            } else {
                None
            },
            None => None,
        }
    } else {
        None
    }
}

/// The scopes after the token at `index` has opened a declaration body (if it does).
pub open spec fn scopes_updated(s: ScopeStack, tokens: Seq<Token>, index: int) -> ScopeStack {
    match declaration_opened_at(tokens, index) {
        Some(kind) => s.push((kind, 1)),
        None => s,
    }
}

/// The scopes after the braces of the token at `index` are counted.
pub open spec fn scopes_finished(s: ScopeStack, tokens: Seq<Token>, index: int) -> ScopeStack {
    if 0 <= index < tokens.len() && tokens[index].kind is LBrace {
        if s.len() > 0 && s.last().1 == 1 && declaration_opened_at(tokens, index) is Some {
            s
        } else if s.len() > 0 {
            s.update(s.len() - 1, (s.last().0, s.last().1 + 1))
        } else {
            s
        }
    } else if 0 <= index < tokens.len() && tokens[index].kind is RBrace {
        if s.len() > 0 {
            if s.last().1 <= 1 {
                s.drop_last()
            } else {
                s.update(s.len() - 1, (s.last().0, (s.last().1 - 1) as nat))
            }
        } else {
            s
        }
    } else {
        s
    }
}

/// The scopes open when the scan reaches the token at `index`.
pub open spec fn scopes_before(tokens: Seq<Token>, index: nat) -> ScopeStack
    decreases index,
{
    if index == 0 {
        Seq::empty()
    } else {
        let i = index - 1;
        scopes_finished(scopes_updated(scopes_before(tokens, i as nat), tokens, i), tokens, i)
    }
}

/// Whether the innermost open scope is a `kind` body, directly (not nested in braces).
pub open spec fn in_declaration_spec(s: ScopeStack, kind: DeclarationScopeKind) -> bool {
    s.len() > 0 && s.last().0 == kind && s.last().1 == 1
}

/// Scanning backwards from `cursor` with `depth` unmatched closers: whether the first
/// unmatched `{` follows an identifier (a struct literal `Name { ... }`).
pub open spec fn literal_scan(tokens: Seq<Token>, cursor: int, depth: nat) -> bool
    decreases cursor + 1,
{
    if cursor < 0 || cursor >= tokens.len() {
        false
    } else {
        let k = tokens[cursor].kind;
        if k is RBrace || k is RParen || k is RBracket {
            literal_scan(tokens, cursor - 1, depth + 1)
        } else if k is LParen || k is LBracket {
            literal_scan(tokens, cursor - 1, if depth > 0 { (depth - 1) as nat } else { 0 })
        } else if k is LBrace {
            if depth == 0 {
                match previous_significant_index(tokens, cursor) {
                    Some(p) => tokens[p].kind is Ident,
                    None => false,
                }
            } else {
                literal_scan(tokens, cursor - 1, (depth - 1) as nat)
            }
        } else {
            literal_scan(tokens, cursor - 1, depth)
        }
    }
}

/// Whether the token at `index` stands inside a struct literal's braces.
pub open spec fn in_struct_literal(tokens: Seq<Token>, index: int) -> bool {
    literal_scan(tokens, index - 1, 0)
}

/// Whether the token at `j` (if any) has kind satisfying the given test.
pub open spec fn token_is_fn(tokens: Seq<Token>, j: Option<int>) -> bool {
    j matches Some(j) && 0 <= j < tokens.len() && tokens[j].kind is Fn
}

pub open spec fn token_is_dot(tokens: Seq<Token>, j: Option<int>) -> bool {
    j matches Some(j) && 0 <= j < tokens.len() && tokens[j].kind is Dot
}

pub open spec fn token_is_lparen(tokens: Seq<Token>, j: Option<int>) -> bool {
    j matches Some(j) && 0 <= j < tokens.len() && tokens[j].kind is LParen
}

pub open spec fn token_is_colon(tokens: Seq<Token>, j: Option<int>) -> bool {
    j matches Some(j) && 0 <= j < tokens.len() && tokens[j].kind is Colon
}

/// Whether the raw token right after `index` ends an enum variant's name.
pub open spec fn ends_variant_name(tokens: Seq<Token>, index: int) -> bool {
    index + 1 < tokens.len() && (tokens[index + 1].kind is LParen || tokens[index + 1].kind is Newline
        || tokens[index + 1].kind is RBrace)
}

/// Semantic type of the identifier `name` at `index`, given the open scopes `s`.
pub open spec fn ident_type(tokens: Seq<Token>, index: int, s: ScopeStack, name: Seq<char>) -> u32 {
    let previous = previous_significant_index(tokens, index);
    let next = next_significant_from(tokens, index + 1);
    if token_is_fn(tokens, previous) {
        FUNCTION
    } else if in_declaration_spec(s, DeclarationScopeKind::Enum) && ends_variant_name(tokens, index) {
        ENUM_MEMBER
    } else if token_is_dot(tokens, previous) && starts_upper(name) {
        ENUM_MEMBER
    } else if token_is_lparen(tokens, next) {
        FUNCTION
    } else if token_is_dot(tokens, previous) {
        PROPERTY
    } else if in_declaration_spec(s, DeclarationScopeKind::Struct) && token_is_colon(tokens, next) {
        PROPERTY
    } else if token_is_colon(tokens, next) && in_struct_literal(tokens, index) {
        PROPERTY
    } else if starts_upper(name) {
        TYPE
    } else {
        VARIABLE
    }
}

/// Classification of the token at `index` when the scopes `s` are open before it.
pub open spec fn classification_with(tokens: Seq<Token>, index: int, s: ScopeStack) -> Option<(u32, u32)> {
    match tokens[index].kind {
        TokenKind::Ident(name) => Some(
            (ident_type(tokens, index, scopes_updated(s, tokens, index), name@), name@.len() as u32),
        ),
        other => kind_class(other),
    }
}

/// Classification of the token at `index` in a left-to-right scan of `tokens`.
pub open spec fn classification(tokens: Seq<Token>, index: int) -> Option<(u32, u32)> {
    classification_with(tokens, index, scopes_before(tokens, index as nat))
}

impl SemanticContext {
    /// The open scopes as (kind, depth) pairs.
    pub open spec fn scopes(&self) -> ScopeStack {
        self.declarations@.map_values(|d: DeclarationScope| (d.kind, d.brace_depth as nat))
    }

    /// A context with no open scope.
    pub fn new() -> (c: Self)
        ensures
            c.scopes() == ScopeStack::empty(),
    {
        let c = SemanticContext { declarations: Vec::new() };
        assert(c.scopes() =~= ScopeStack::empty());
        c
    }

    /// Classifies the token at `index` and advances the scopes past it.
    pub fn classify(&mut self, tokens: &Vec<Token>, index: usize) -> (r: Option<(u32, u32)>)
        requires
            index < tokens.len(),
            kind_fits(tokens@[index as int].kind),
            forall|j: int| 0 <= j < old(self).scopes().len() ==> old(self).scopes()[j].1 <= index,
        ensures
            r == classification_with(tokens@, index as int, old(self).scopes()),
            final(self).scopes() == scopes_finished(
                scopes_updated(old(self).scopes(), tokens@, index as int),
                tokens@,
                index as int,
            ),
    {
        self.update_declaration_scopes(tokens, index);
        let kind = match &tokens[index].kind {
            TokenKind::Ident(name) => self.classify_ident(tokens, index, name),
            other => classify(other),
        };
        self.finish_declaration_scopes(tokens, index);
        kind
    }

    /// Semantic type and length of the identifier `name` at `index`.
    pub fn classify_ident(&self, tokens: &Vec<Token>, index: usize, name: &String) -> (r: Option<
        (u32, u32),
    >)
        requires
            index < tokens.len(),
        ensures
            r == Some((ident_type(tokens@, index as int, self.scopes(), name@), name@.len() as u32)),
    {
        let (len, starts_upper) = name_shape(name);
        let len = #[verifier::truncate] (len as u32);
        let previous = previous_significant(tokens, index);
        let next = next_significant(tokens, index);
        let previous_is_fn = match previous {
            Some(p) => matches!(tokens[p].kind, TokenKind::Fn),
            None => false,
        };
        let previous_is_dot = match previous {
            Some(p) => matches!(tokens[p].kind, TokenKind::Dot),
            None => false,
        };
        let next_is_lparen = match next {
            Some(n) => matches!(tokens[n].kind, TokenKind::LParen),
            None => false,
        };
        let next_is_colon = match next {
            Some(n) => matches!(tokens[n].kind, TokenKind::Colon),
            None => false,
        };
        let next_raw_ends_variant = index + 1 < tokens.len() && matches!(
            tokens[index + 1].kind,
            TokenKind::LParen | TokenKind::Newline | TokenKind::RBrace
        );
        if previous_is_fn {
            return Some((FUNCTION, len));
        }
        if self.in_declaration(DeclarationScopeKind::Enum) && next_raw_ends_variant {
            return Some((ENUM_MEMBER, len));
        }
        if previous_is_dot && starts_upper {
            return Some((ENUM_MEMBER, len));
        }
        if next_is_lparen {
            return Some((FUNCTION, len));
        }
        if previous_is_dot {
            return Some((PROPERTY, len));
        }
        if self.in_declaration(DeclarationScopeKind::Struct) && next_is_colon {
            return Some((PROPERTY, len));
        }
        if next_is_colon && struct_literal_field_context(tokens, index) {
            return Some((PROPERTY, len));
        }
        if starts_upper {
            Some((TYPE, len))
        } else {
            Some((VARIABLE, len))
        }
    }

    /// Opens a scope when the token at `index` is the `{` of a struct or enum body.
    pub fn update_declaration_scopes(&mut self, tokens: &Vec<Token>, index: usize)
        requires
            index < tokens.len(),
        ensures
            final(self).scopes() == scopes_updated(old(self).scopes(), tokens@, index as int),
    {
        match declaration_opened_at_exec(tokens, index) {
            Some(kind) => {
                let ghost before = self.scopes();
                self.declarations.push(DeclarationScope { kind, brace_depth: 1 });
                assert(self.scopes() =~= before.push((kind, 1)));
            },
            None => {},
        }
    }

    /// Counts the braces of the token at `index` against the innermost scope,
    /// closing it when its depth returns to zero.
    pub fn finish_declaration_scopes(&mut self, tokens: &Vec<Token>, index: usize)
        requires
            index < tokens.len(),
            forall|j: int|
                0 <= j < old(self).scopes().len() ==> old(self).scopes()[j].1 < usize::MAX,
        ensures
            final(self).scopes() == scopes_finished(old(self).scopes(), tokens@, index as int),
    {
        let ghost before = self.scopes();
        let n = self.declarations.len();
        match tokens[index].kind {
            TokenKind::LBrace => {
                if n > 0 && self.declarations[n - 1].brace_depth == 1 && self.opened_declaration_at(
                    tokens,
                    index,
                ) {
                    return;
                }
                if n > 0 {
                    let last = self.declarations[n - 1];
                    assert(before[n - 1] == (last.kind, last.brace_depth as nat));
                    self.declarations.set(
                        n - 1,
                        DeclarationScope { kind: last.kind, brace_depth: last.brace_depth + 1 },
                    );
                    assert(self.scopes() =~= before.update(
                        n - 1,
                        (last.kind, (last.brace_depth + 1) as nat),
                    ));
                }
            },
            TokenKind::RBrace => {
                if n > 0 {
                    let last = self.declarations[n - 1];
                    assert(before[n - 1] == (last.kind, last.brace_depth as nat));
                    let depth = if last.brace_depth > 0 {
                        last.brace_depth - 1
                    } else {
                        0
                    };
                    if depth == 0 {
                        self.declarations.pop();
                        assert(self.scopes() =~= before.drop_last());
                    } else {
                        self.declarations.set(
                            n - 1,
                            DeclarationScope { kind: last.kind, brace_depth: depth },
                        );
                        assert(self.scopes() =~= before.update(n - 1, (last.kind, depth as nat)));
                    }
                }
            },
            _ => {},
        }
    }

    /// Whether the innermost open scope is directly a `kind` body.
    pub fn in_declaration(&self, kind: DeclarationScopeKind) -> (b: bool)
        ensures
            b == in_declaration_spec(self.scopes(), kind),
    {
        let n = self.declarations.len();
        if n == 0 {
            return false;
        }
        let last = self.declarations[n - 1];
        assert(self.scopes()[n - 1] == (last.kind, last.brace_depth as nat));
        last.kind == kind && last.brace_depth == 1
    }

    /// Whether the token at `index` is the `{` of a struct or enum body.
    pub fn opened_declaration_at(&self, tokens: &Vec<Token>, index: usize) -> (b: bool)
        requires
            index < tokens.len(),
        ensures
            b == declaration_opened_at(tokens@, index as int) is Some,
    {
        declaration_opened_at_exec(tokens, index).is_some()
    }
}

/// Kind of declaration whose body the token at `index` opens.
fn declaration_opened_at_exec(tokens: &Vec<Token>, index: usize) -> (r: Option<DeclarationScopeKind>)
    requires
        index < tokens.len(),
    ensures
        r == declaration_opened_at(tokens@, index as int),
{
    if !matches!(tokens[index].kind, TokenKind::LBrace) {
        return None;
    }
    let name = match previous_significant(tokens, index) {
        Some(name) => name,
        None => return None,
    };
    if !matches!(tokens[name].kind, TokenKind::Ident(_)) {
        return None;
    }
    let keyword = match previous_significant(tokens, name) {
        Some(keyword) => keyword,
        None => return None,
    };
    match tokens[keyword].kind {
        TokenKind::Struct => Some(DeclarationScopeKind::Struct),
        TokenKind::Enum => Some(DeclarationScopeKind::Enum),
        _ => None,
    }
}

/// Whether the identifier at `index` stands inside a struct literal's braces: the
/// nearest unmatched `{` before it follows an identifier.
pub fn struct_literal_field_context(tokens: &Vec<Token>, index: usize) -> (b: bool)
    requires
        index < tokens.len(),
    ensures
        b == in_struct_literal(tokens@, index as int),
{
    let mut depth: usize = 0;
    let mut cursor = index;
    while cursor > 0
        invariant
            cursor <= index < tokens.len(),
            depth <= index - cursor,
            literal_scan(tokens@, cursor - 1, depth as nat) == in_struct_literal(
                tokens@,
                index as int,
            ),
        decreases cursor,
    {
        let current = cursor - 1;
        match tokens[current].kind {
            TokenKind::RBrace | TokenKind::RParen | TokenKind::RBracket => {
                depth = depth + 1;
            },
            TokenKind::LParen | TokenKind::LBracket => {
                depth = if depth > 0 {
                    depth - 1
                } else {
                    0
                };
            },
            TokenKind::LBrace => {
                if depth == 0 {
                    return match previous_significant(tokens, current) {
                        Some(p) => matches!(tokens[p].kind, TokenKind::Ident(_)),
                        None => false,
                    };
                }
                depth = depth - 1;
            },
            _ => {},
        }
        cursor = current;
    }
    false
}

/// What the highlighter relies on of the lexer's output: lines, held as the
/// protocol's `u32` (truncated as a cast truncates), never decrease, and string
/// literals are short enough for their highlighted length to fit.
pub open spec fn lexed_in_line_order(tokens: Seq<Token>) -> bool {
    &&& forall|i: int| 0 <= i < tokens.len() ==> kind_fits(#[trigger] tokens[i].kind)
    &&& forall|i: int, j: int|
        0 <= i < j < tokens.len() ==> (token_line0(#[trigger] tokens[i]) as u32) <= (token_line0(
            #[trigger] tokens[j],
        ) as u32)
}

/// Every token's zero-based line and column fit the protocol's `u32`.
pub open spec fn lexed_positions_fit(tokens: Seq<Token>) -> bool {
    forall|i: int|
        0 <= i < tokens.len() ==> token_line0(#[trigger] tokens[i]) <= u32::MAX && token_col0(
            tokens[i],
        ) <= u32::MAX
}

/// The semantic tokens emitted for the first `n` tokens, with the line and column of
/// the last emitted token (both 0 before the first).
pub open spec fn encoded(tokens: Seq<Token>, n: nat) -> (Seq<SemanticToken>, u32, u32)
    decreases n,
{
    if n == 0 {
        (Seq::empty(), 0, 0)
    } else {
        let prev = encoded(tokens, (n - 1) as nat);
        let i = n - 1;
        match classification(tokens, i) {
            Some((token_type, length)) => if length == 0 {
                prev
            } else {
                let line = token_line0(tokens[i]) as u32;
                let start = token_col0(tokens[i]) as u32;
                let delta_line = (line - prev.1) as u32;
                let delta_start = if delta_line == 0 {
                    if start >= prev.2 {
                        (start - prev.2) as u32
                    } else {
                        0
                    }
                } else {
                    start
                };
                (
                    prev.0.push(
                        SemanticToken {
                            delta_line,
                            delta_start,
                            length,
                            token_type,
                            token_modifiers_bitset: 0,
                        },
                    ),
                    line,
                    start,
                )
            },
            None => prev,
        }
    }
}

proof fn lemma_scopes_bound(tokens: Seq<Token>, n: nat)
    ensures
        forall|j: int| 0 <= j < scopes_before(tokens, n).len() ==> scopes_before(tokens, n)[j].1 <= n,
    decreases n,
{
    if n > 0 {
        let i = n - 1;
        lemma_scopes_bound(tokens, i as nat);
        let s0 = scopes_before(tokens, i as nat);
        let s1 = scopes_updated(s0, tokens, i);
        assert forall|j: int| 0 <= j < s1.len() implies s1[j].1 <= i + 1 && (j < s0.len() ==> s1[j]
            == s0[j]) by {
            if j < s0.len() {
            }
        }
        let s2 = scopes_finished(s1, tokens, i);
        assert(s2 == scopes_before(tokens, n));
        assert forall|j: int| 0 <= j < s2.len() implies s2[j].1 <= n by {
            if s1.len() > 0 && j == s1.len() - 1 && s2.len() == s1.len() {
                if declaration_opened_at(tokens, i) is Some {
                    assert(s1.last() == (declaration_opened_at(tokens, i).unwrap(), 1nat));
                }
            }
        }
    }
}

proof fn lemma_encoded_line_bound(tokens: Seq<Token>, n: nat, i: int)
    requires
        lexed_in_line_order(tokens),
        n <= i < tokens.len(),
    ensures
        encoded(tokens, n).1 <= token_line0(tokens[i]) as u32,
    decreases n,
{
    if n > 0 {
        lemma_encoded_line_bound(tokens, (n - 1) as nat, i);
        assert(token_line0(tokens[n - 1]) as u32 <= token_line0(tokens[i]) as u32);
    }
}

/// Delta-encoded semantic tokens for a lexed source (`None` when lexing failed,
/// which yields no tokens): every token with a highlight of non-zero length, in
/// order, each relative to the previous one.
pub fn tokens(lexed: Option<Vec<Token>>) -> (result: Vec<SemanticToken>)
    requires
        lexed matches Some(raw) ==> lexed_in_line_order(raw@),
    ensures
        match lexed {
            Some(raw) => result@ == encoded(raw@, raw@.len()).0,
            None => result@.len() == 0,
        },
{
    let raw = match lexed {
        Some(raw) => raw,
        None => return Vec::new(),
    };
    let mut result: Vec<SemanticToken> = Vec::new();
    let mut prev_line: u32 = 0;
    let mut prev_start: u32 = 0;
    let mut context = SemanticContext::new();
    let mut index: usize = 0;
    while index < raw.len()
        invariant
            index <= raw.len(),
            lexed_in_line_order(raw@),
            context.scopes() == scopes_before(raw@, index as nat),
            encoded(raw@, index as nat) == (result@, prev_line, prev_start),
        decreases raw.len() - index,
    {
        proof {
            lemma_scopes_bound(raw@, index as nat);
            lemma_encoded_line_bound(raw@, index as nat, index as int);
            assert(kind_fits(raw@[index as int].kind));
        }
        let classified = context.classify(&raw, index);
        let token = &raw[index];
        match classified {
            Some((token_type, length)) => {
                if length != 0 {
                    let line = if token.line > 0 {
                        token.line - 1
                    } else {
                        0
                    } as u32;
                    let start = if token.column > 0 {
                        token.column - 1
                    } else {
                        0
                    } as u32;
                    let delta_line = line - prev_line;
                    let delta_start = if delta_line == 0 {
                        if start >= prev_start {
                            start - prev_start
                        } else {
                            0
                        }
                    } else {
                        start
                    };
                    result.push(
                        SemanticToken {
                            delta_line,
                            delta_start,
                            length,
                            token_type,
                            token_modifiers_bitset: 0,
                        },
                    );
                    prev_line = line;
                    prev_start = start;
                }
            },
            None => {},
        }
        index = index + 1;
    }
    result
}

/// Absolute (line, column) positions of a delta-encoded token sequence, with the
/// position of its last token.
pub open spec fn decoded(s: Seq<SemanticToken>) -> (Seq<(nat, nat)>, nat, nat)
    decreases s.len(),
{
    if s.len() == 0 {
        (Seq::empty(), 0, 0)
    } else {
        let prev = decoded(s.drop_last());
        let t = s.last();
        let line = (prev.1 + t.delta_line) as nat;
        let start = if t.delta_line == 0 {
            (prev.2 + t.delta_start) as nat
        } else {
            t.delta_start as nat
        };
        (prev.0.push((line, start)), line, start)
    }
}

/// Positions of the highlighted tokens among the first `n` tokens.
pub open spec fn highlighted_positions(tokens: Seq<Token>, n: nat) -> Seq<(nat, nat)>
    decreases n,
{
    if n == 0 {
        Seq::empty()
    } else {
        let prev = highlighted_positions(tokens, (n - 1) as nat);
        let i = n - 1;
        match classification(tokens, i) {
            Some((_, length)) => if length == 0 {
                prev
            } else {
                prev.push((token_line0(tokens[i]), token_col0(tokens[i])))
            },
            None => prev,
        }
    }
}

/// Tokens ordered by position, with positions that fit the protocol's `u32`: lines
/// never decrease, columns never decrease on a line.
pub open spec fn lexed_in_position_order(tokens: Seq<Token>) -> bool {
    &&& lexed_in_line_order(tokens)
    &&& lexed_positions_fit(tokens)
    &&& forall|i: int, j: int|
        0 <= i < j < tokens.len() && token_line0(#[trigger] tokens[i]) == token_line0(
            #[trigger] tokens[j],
        ) ==> token_col0(tokens[i]) <= token_col0(tokens[j])
}

proof fn lemma_encoded_decodes(tokens: Seq<Token>, n: nat)
    requires
        lexed_in_position_order(tokens),
        n <= tokens.len(),
    ensures
        decoded(encoded(tokens, n).0).0 == highlighted_positions(tokens, n),
        decoded(encoded(tokens, n).0).1 == encoded(tokens, n).1,
        decoded(encoded(tokens, n).0).2 == encoded(tokens, n).2,
        encoded(tokens, n).0.len() == 0 ==> encoded(tokens, n).1 == 0 && encoded(tokens, n).2 == 0,
        encoded(tokens, n).0.len() > 0 ==> exists|j: int|
            0 <= j < n && encoded(tokens, n).1 == token_line0(tokens[j]) && encoded(tokens, n).2
                == token_col0(tokens[j]),
    decreases n,
{
    if n > 0 {
        let i = n - 1;
        lemma_encoded_decodes(tokens, (n - 1) as nat);
        let prev = encoded(tokens, (n - 1) as nat);
        if let Some((_, length)) = classification(tokens, i) {
            if length != 0 {
                let cur = encoded(tokens, n).0;
                assert(cur.drop_last() =~= prev.0);
                if prev.0.len() > 0 {
                    let j = choose|j: int|
                        0 <= j < n - 1 && prev.1 == token_line0(tokens[j]) && prev.2 == token_col0(
                            tokens[j],
                        );
                    assert(token_line0(tokens[j]) <= token_line0(tokens[i]));
                }
            }
        }
    }
}

/// Delta encoding loses nothing: decoding the emitted tokens of a position-ordered
/// token stream gives back the position of every highlighted token.
pub proof fn lemma_semantic_tokens_decode(tokens: Seq<Token>)
    requires
        lexed_in_position_order(tokens),
    ensures
        decoded(encoded(tokens, tokens.len()).0).0 == highlighted_positions(tokens, tokens.len()),
{
    lemma_encoded_decodes(tokens, tokens.len());
}

/// Where an identifier stands decides how it is highlighted: the name a `fn`
/// introduces is a function; after a `.`, a capitalised name is an enum member and
/// (outside an enum body) any other is a property; a name called with `(` is a
/// function; and every identifier is one of function, enum member, property, type
/// or variable.
pub proof fn lemma_identifier_roles(tokens: Seq<Token>, index: int, s: ScopeStack, name: Seq<char>)
    ensures
        ({
            let t = ident_type(tokens, index, s, name);
            t == FUNCTION || t == ENUM_MEMBER || t == PROPERTY || t == TYPE || t == VARIABLE
        }),
        previous_significant_index(tokens, index) matches Some(p) ==> (0 <= p < tokens.len()
            ==> (tokens[p].kind is Fn ==> ident_type(tokens, index, s, name) == FUNCTION)),
        previous_significant_index(tokens, index) matches Some(p) ==> (0 <= p < tokens.len()
            ==> (tokens[p].kind is Dot && name.len() > 0 && 'A' <= name[0] <= 'Z' ==> ident_type(
            tokens,
            index,
            s,
            name,
        ) == ENUM_MEMBER)),
        ({
            let previous = previous_significant_index(tokens, index);
            let next = next_significant_from(tokens, index + 1);
            &&& previous matches Some(p) && 0 <= p < tokens.len() && tokens[p].kind is Dot
            &&& !(name.len() > 0 && 'A' <= name[0] <= 'Z')
            &&& next matches Some(q) ==> (0 <= q < tokens.len() ==> !(tokens[q].kind is LParen))
            &&& !(s.len() > 0 && s.last().0 == DeclarationScopeKind::Enum && s.last().1 == 1)
        }) ==> ident_type(tokens, index, s, name) == PROPERTY,
        ({
            let previous = previous_significant_index(tokens, index);
            let next = next_significant_from(tokens, index + 1);
            &&& previous matches Some(p) ==> (0 <= p < tokens.len() ==> !(tokens[p].kind is Fn)
                && !(tokens[p].kind is Dot))
            &&& next matches Some(q) && 0 <= q < tokens.len() && tokens[q].kind is LParen
            &&& !(s.len() > 0 && s.last().0 == DeclarationScopeKind::Enum && s.last().1 == 1)
        }) ==> ident_type(tokens, index, s, name) == FUNCTION,
{
}

/// Capitalised identifiers are types and nothing else is: a name that starts with
/// an ASCII capital is never highlighted as a variable, a name that does not is
/// never highlighted as a type, and a capitalised name that no `fn` or `.` precedes,
/// that no `(` or `:` follows, and that does not stand directly in an enum body is
/// highlighted as a type (a lower-case one there as a variable).
pub proof fn lemma_capitalised_identifiers_are_types(
    tokens: Seq<Token>,
    index: int,
    s: ScopeStack,
    name: Seq<char>,
)
    ensures
        name.len() > 0 && 'A' <= name[0] <= 'Z' ==> ident_type(tokens, index, s, name) != VARIABLE,
        !(name.len() > 0 && 'A' <= name[0] <= 'Z') ==> ident_type(tokens, index, s, name) != TYPE,
        ({
            let previous = previous_significant_index(tokens, index);
            let next = next_significant_from(tokens, index + 1);
            &&& previous matches Some(p) ==> (0 <= p < tokens.len() ==> !(tokens[p].kind is Fn)
                && !(tokens[p].kind is Dot))
            &&& next matches Some(q) ==> (0 <= q < tokens.len() ==> !(tokens[q].kind is LParen)
                && !(tokens[q].kind is Colon))
            &&& !(s.len() > 0 && s.last().0 == DeclarationScopeKind::Enum && s.last().1 == 1)
        }) ==> ident_type(tokens, index, s, name) == if name.len() > 0 && 'A' <= name[0] <= 'Z' {
            TYPE
        } else {
            VARIABLE
        },
{
}

} // verus!
