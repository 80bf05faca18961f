//! Diagnostics and quick fixes: compiler diagnostics as the editor shows them, the
//! package declaration of a module, the import paths a module can be reached by,
//! and the code actions offered for a diagnostic.
use vstd::prelude::*;
use vstd::string::*;
use crate::ast::{joined, views};
use crate::inlay_hints::{byte_boundary, char_index_at_byte, prefix_lengths};
use crate::lines::{char_views, split_lines, text_lines};
use crate::navigation::{is_nomo_identifier, nomo_identifier, string_of, same_text};
use crate::symbol::{SemanticSymbol, SemanticSymbolKind, has_prefix, chars_start_with,
    is_unicode_whitespace, is_whitespace, leading_ws_from, lemma_leading_ws_bound,
    skip_leading_whitespace, trimmed, trimmed_string};
use crate::text::{Position, Range, TextEdit, byte_char_index_from, lemma_byte_char_index_bound,
    lemma_len_take_bound, slice_chars, text_chars, utf16_len, utf8_len};

verus! {

broadcast use vstd::seq_lib::group_seq_properties;

/// A fix the compiler suggests: replace `length` bytes at one-based `line` and
/// `column` by `text`.
#[derive(Clone, Debug)]
pub struct Suggestion {
    pub description: String,
    pub text: String,
    pub line: usize,
    pub column: usize,
    pub length: usize,
}

/// A compiler diagnostic: its code and message, the file and one-based position it
/// points at, the length of the span, the text of its line, and suggested fixes.
#[derive(Clone, Debug)]
pub struct NomoDiagnostic {
    pub code: String,
    pub message: String,
    pub file: String,
    pub line: usize,
    pub column: usize,
    pub length: usize,
    pub line_text: String,
    pub suggestions: Vec<Suggestion>,
}

/// A diagnostic as the editor shows it: an error from the `nomo` source with a code
/// and message over a range.
#[derive(Clone, Debug)]
pub struct LspDiagnostic {
    pub range: Range,
    pub code: String,
    pub message: String,
}

/// A one-based line or column made zero-based (zero stays zero).
pub open spec fn zero_based(n: usize) -> nat {
    if n > 0 {
        (n - 1) as nat
    } else {
        0
    }
}

/// The range one line long from one-based `line` and `column`, `length` columns wide.
pub open spec fn span_range(line: usize, column: usize, length: usize) -> Range {
    Range {
        start: Position { line: zero_based(line) as u32, character: zero_based(column) as u32 },
        end: Position {
            line: zero_based(line) as u32,
            character: (zero_based(column) as u32 + length as u32) as u32,
        },
    }
}

/// Whether a span's end column fits in a `u32`.
pub open spec fn span_fits(column: usize, length: usize) -> bool {
    zero_based(column) as u32 + length as u32 <= u32::MAX
}

fn one_less(n: usize) -> (r: usize)
    ensures
        r == zero_based(n),
{
    if n > 0 {
        n - 1
    } else {
        0
    }
}

/// The range a suggested fix replaces.
pub fn suggestion_range(suggestion: &Suggestion) -> (r: Range)
    requires
        span_fits(suggestion.column, suggestion.length),
    ensures
        r == span_range(suggestion.line, suggestion.column, suggestion.length),
{
    let line = #[verifier::truncate] (one_less(suggestion.line) as u32);
    let start = #[verifier::truncate] (one_less(suggestion.column) as u32);
    let length = #[verifier::truncate] (suggestion.length as u32);
    Range {
        start: Position { line, character: start },
        end: Position { line, character: start + length },
    }
}

/// The larger of `n` and one.
pub open spec fn at_least_one(n: usize) -> usize {
    if n > 0 {
        n
    } else {
        1
    }
}

/// The editor's form of a compiler diagnostic: its span at least one column wide,
/// with its code and message.
pub fn to_lsp_diagnostic(diagnostic: &NomoDiagnostic) -> (d: LspDiagnostic)
    requires
        span_fits(diagnostic.column, at_least_one(diagnostic.length)),
    ensures
        d.range == span_range(diagnostic.line, diagnostic.column, at_least_one(diagnostic.length)),
        d.code@ == diagnostic.code@,
        d.message@ == diagnostic.message@,
{
    let line = #[verifier::truncate] (one_less(diagnostic.line) as u32);
    let start = #[verifier::truncate] (one_less(diagnostic.column) as u32);
    let width = if diagnostic.length > 0 {
        diagnostic.length
    } else {
        1
    };
    let length = #[verifier::truncate] (width as u32);
    LspDiagnostic {
        range: Range {
            start: Position { line, character: start },
            end: Position { line, character: start + length },
        },
        code: diagnostic.code.clone(),
        message: diagnostic.message.clone(),
    }
}

/// The text between the first two backquotes of `message`.
pub open spec fn quoted_name(message: Seq<char>) -> Option<Seq<char>> {
    if exists|i: int, j: int|
        0 <= i < j < message.len() && message[i] == '`' && message[j] == '`' {
        let i = choose|i: int|
            0 <= i < message.len() && message[i] == '`' && (forall|k: int|
                0 <= k < i ==> message[k] != '`');
        let j = choose|j: int|
            i < j < message.len() && message[j] == '`' && (forall|k: int|
                i < k < j ==> message[k] != '`');
        Some(message.subrange(i + 1, j))
    } else {
        None
    }
}

/// Index of the first backquote at or after `from`.
fn find_backquote(chars: &Vec<char>, from: usize) -> (r: Option<usize>)
    requires
        from <= chars.len(),
    ensures
        r matches Some(i) ==> from <= i < chars.len() && chars@[i as int] == '`' && forall|k: int|
            from <= k < i ==> chars@[k] != '`',
        r is None ==> forall|k: int| from <= k < chars.len() ==> chars@[k] != '`',
{
    let mut i = from;
    while i < chars.len()
        invariant
            from <= i <= chars.len(),
            forall|k: int| from <= k < i ==> chars@[k] != '`',
        decreases chars.len() - i,
    {
        if chars[i] == '`' {
            return Some(i);
        }
        i = i + 1;
    }
    None
}

/// The symbol a diagnostic message names between backquotes, when it is an identifier.
pub fn diagnostic_symbol_name(message: &str) -> (r: Option<String>)
    ensures
        r matches Some(n) ==> quoted_name(message@) == Some(n@) && nomo_identifier(n@),
        r is None ==> match quoted_name(message@) {
            Some(n) => !nomo_identifier(n),
            None => true,
        },
{
    let chars = text_chars(message);
    let open = match find_backquote(&chars, 0) {
        Some(i) => i,
        None => return None,
    };
    let close = match find_backquote(&chars, open + 1) {
        Some(j) => j,
        None => return None,
    };
    let ghost q = quoted_name(message@);
    proof {
        assert(exists|i: int, j: int|
            0 <= i < j < message@.len() && message@[i] == '`' && message@[j] == '`') by {
            assert(0 <= open < close < message@.len());
        }
        let i = choose|i: int|
            0 <= i < message@.len() && message@[i] == '`' && (forall|k: int|
                0 <= k < i ==> message@[k] != '`');
        if i < open {
        } else if i > open {
            assert(message@[open as int] == '`');
        }
        assert(i == open);
        let j = choose|j: int|
            i < j < message@.len() && message@[j] == '`' && (forall|k: int|
                i < k < j ==> message@[k] != '`');
        if j < close {
        } else if j > close {
            assert(message@[close as int] == '`');
        }
        assert(j == close);
    }
    let name = string_of(&slice_chars(&chars, open + 1, close));
    if is_nomo_identifier(name.as_str()) {
        Some(name)
    } else {
        None
    }
}

/// Symbols another module can import: public structs, enums, interfaces, constants
/// and functions.
pub open spec fn importable(symbol: SemanticSymbol) -> bool {
    (symbol.kind is Struct || symbol.kind is Enum || symbol.kind is Interface || symbol.kind is Const
        || symbol.kind is Function) && has_prefix(symbol.signature@, "pub "@)
}

/// Whether another module can import `symbol`.
pub fn is_importable_symbol(symbol: &SemanticSymbol) -> (b: bool)
    ensures
        b == importable(*symbol),
{
    let kind_ok = matches!(
        symbol.kind,
        SemanticSymbolKind::Struct | SemanticSymbolKind::Enum | SemanticSymbolKind::Interface
            | SemanticSymbolKind::Const | SemanticSymbolKind::Function
    );
    if !kind_ok {
        return false;
    }
    let chars = text_chars(symbol.signature.as_str());
    assert(chars@.skip(0) =~= chars@);
    chars_start_with(&chars, 0, "pub ")
}

/// The import path on a line: the trimmed text after `import ` on a trimmed line.
pub open spec fn line_import(line: Seq<char>) -> Option<Seq<char>> {
    if has_prefix(trimmed(line), "import "@) {
        Some(trimmed(trimmed(line).skip(7)))
    } else {
        None
    }
}

/// Whether some line of `lines` imports `path`.
pub open spec fn imports_path(lines: Seq<Seq<char>>, path: Seq<char>) -> bool {
    exists|i: int| 0 <= i < lines.len() && #[trigger] line_import(lines[i]) == Some(path)
}

/// The import path on `line`, if it is an import line.
fn import_on_line(line: &Vec<char>) -> (r: Option<String>)
    ensures
        r matches Some(p) ==> line_import(line@) == Some(p@),
        r is None ==> line_import(line@) is None,
{
    let t = trimmed_string(line, 0, line.len());
    assert(line@.subrange(0, line.len() as int) =~= line@);
    let chars = text_chars(t.as_str());
    proof {
        reveal_strlit("import ");
    }
    assert(chars@.skip(0) =~= chars@);
    if !chars_start_with(&chars, 0, "import ") {
        return None;
    }
    let path = trimmed_string(&chars, 7, chars.len());
    assert(chars@.subrange(7, chars.len() as int) =~= chars@.skip(7));
    Some(path)
}

/// The paths the document imports, each once.
pub fn imported_paths(text: &str) -> (paths: Vec<String>)
    ensures
        forall|p: Seq<char>| #[trigger] views(paths@).contains(p) == imports_path(text_lines(text@), p),
        forall|i: int, j: int| 0 <= i < j < paths.len() ==> paths@[i]@ != paths@[j]@,
{
    let lines = split_lines(text);
    let ghost lv = char_views(lines@);
    let mut paths: Vec<String> = Vec::new();
    let mut i: usize = 0;
    while i < lines.len()
        invariant
            i <= lines.len(),
            lv == char_views(lines@),
            lv == text_lines(text@),
            forall|p: Seq<char>| #[trigger]
                views(paths@).contains(p) == imports_path(lv.take(i as int), p),
            forall|a: int, b: int| 0 <= a < b < paths.len() ==> paths@[a]@ != paths@[b]@,
        decreases lines.len() - i,
    {
        assert(lv[i as int] == lines@[i as int]@);
        let ghost before = views(paths@);
        let ghost t = lv.take(i + 1);
        match import_on_line(&lines[i]) {
            Some(p) => {
                let ghost pv = p@;
                assert(t[i as int] == lv[i as int]);
                assert(line_import(t[i as int]) == Some(pv));
                if !crate::inlay_hints::contains_string(&paths, &p) {
                    paths.push(p);
                    assert(views(paths@) =~= before.push(pv));
                    proof {
                        crate::completion::lemma_push_contains(before, pv);
                        assert forall|a: int, b: int| 0 <= a < b < paths.len() implies paths@[a]@
                            != paths@[b]@ by {
                            if b == paths.len() - 1 {
                                assert(before[a] == paths@[a]@);
                                assert(paths@[b]@ == pv);
                            }
                        }
                    }
                }
                assert(views(paths@).contains(pv));
                assert forall|q: Seq<char>| #[trigger]
                    views(paths@).contains(q) == imports_path(t, q) by {
                    if q == pv {
                        assert(line_import(t[i as int]) == Some(q));
                    }
                    if imports_path(t, q) {
                        let w = choose|w: int| 0 <= w < t.len() && #[trigger] line_import(t[w]) == Some(q);
                        if w < i {
                            assert(lv.take(i as int)[w] == t[w]);
                        }
                    }
                    if imports_path(lv.take(i as int), q) {
                        let w = choose|w: int|
                            0 <= w < i && #[trigger] line_import(lv.take(i as int)[w]) == Some(q);
                        assert(t[w] == lv.take(i as int)[w]);
                    }
                }
            },
            None => {
                assert forall|q: Seq<char>| #[trigger]
                    views(paths@).contains(q) == imports_path(t, q) by {
                    if imports_path(t, q) {
                        let w = choose|w: int| 0 <= w < t.len() && #[trigger] line_import(t[w]) == Some(q);
                        if w < i {
                            assert(lv.take(i as int)[w] == t[w]);
                        }
                    }
                    if imports_path(lv.take(i as int), q) {
                        let w = choose|w: int|
                            0 <= w < i && #[trigger] line_import(lv.take(i as int)[w]) == Some(q);
                        assert(t[w] == lv.take(i as int)[w]);
                    }
                }
            },
        }
        i = i + 1;
    }
    assert(lv.take(lines.len() as int) =~= lv);
    paths
}

/// The one-based line after which a new import goes: after the last import line,
/// or after the first line when it declares the package; the first line otherwise.
pub open spec fn insertion_line(lines: Seq<Seq<char>>) -> nat
    decreases lines.len(),
{
    if lines.len() == 0 {
        1
    } else {
        let line = insertion_line(lines.drop_last());
        let t = trimmed(lines.last());
        if has_prefix(t, "import "@) || (has_prefix(t, "package "@) && line == 1) {
            lines.len()
        } else {
            line
        }
    }
}

/// Where an added import goes: the start of the line after the last import (or
/// after a first-line package declaration).
pub fn import_insertion_range(text: &str) -> (r: Range)
    requires
        text_lines(text@).len() < u32::MAX,
    ensures
        r.start == r.end,
        r.start == (Position { line: insertion_line(text_lines(text@)) as u32, character: 0 }),
{
    let lines = split_lines(text);
    let ghost lv = char_views(lines@);
    let mut line: u32 = 1;
    let mut i: usize = 0;
    assert(lv.take(0) =~= Seq::<Seq<char>>::empty());
    while i < lines.len()
        invariant
            i <= lines.len() < u32::MAX,
            lv == char_views(lines@),
            line == insertion_line(lv.take(i as int)),
            line <= i + 1,
        decreases lines.len() - i,
    {
        assert(lv[i as int] == lines@[i as int]@);
        assert(lv.take(i + 1).drop_last() =~= lv.take(i as int));
        assert(lv.take(i + 1).last() == lines@[i as int]@);
        let t = trimmed_string(&lines[i], 0, lines[i].len());
        assert(lines@[i as int]@.subrange(0, lines@[i as int].len() as int) =~= lines@[i as int]@);
        let chars = text_chars(t.as_str());
        assert(chars@.skip(0) =~= chars@);
        if chars_start_with(&chars, 0, "import ") || (chars_start_with(&chars, 0, "package ")
            && line == 1) {
            line = i as u32 + 1;
        }
        i = i + 1;
    }
    assert(lv.take(lines.len() as int) =~= lv);
    Range {
        start: Position { line, character: 0 },
        end: Position { line, character: 0 },
    }
}

/// First index at or after `from` holding Unicode whitespace, or the length of `s`.
pub open spec fn token_end(s: Seq<char>, from: int) -> int
    decreases s.len() - from,
{
    if 0 <= from < s.len() && !is_unicode_whitespace(s[from]) {
        token_end(s, from + 1)
    } else {
        from
    }
}

proof fn lemma_token_end_bound(s: Seq<char>, from: int)
    requires
        0 <= from <= s.len(),
    ensures
        from <= token_end(s, from) <= s.len(),
    decreases s.len() - from,
{
    if from < s.len() && !is_unicode_whitespace(s[from]) {
        lemma_token_end_bound(s, from + 1);
    }
}

/// Where the name on a package line stands: the line's indentation `k`, and the
/// first whitespace-separated token after `package ` at characters `a..b`.
pub open spec fn package_name_bounds(line: Seq<char>) -> Option<(int, int, int)> {
    let k = leading_ws_from(line, 0) as int;
    if !has_prefix(line.skip(k), "package "@) {
        None
    } else {
        let a = leading_ws_from(line, (k + 8) as nat) as int;
        let b = token_end(line, a);
        if b > a {
            Some((k, a, b))
        } else {
            None
        }
    }
}

/// The byte offset just after the package name, as the declaration computes it:
/// the offset after `package ` plus the name's byte length.
pub open spec fn package_name_end_byte(line: Seq<char>, k: int, a: int, b: int) -> int {
    (utf8_len(line.take(k + 8)) + utf8_len(line.subrange(a, b))) as int
}

/// A package line can be measured: its name ends on a character boundary.
pub open spec fn package_line_ok(line: Seq<char>) -> bool {
    match package_name_bounds(line) {
        Some((k, a, b)) => byte_boundary(line, package_name_end_byte(line, k, a, b)),
        None => true,
    }
}

/// The first line (from `from`) that declares a package.
pub open spec fn first_package_line(lines: Seq<Seq<char>>, from: nat) -> Option<nat>
    decreases lines.len() - from,
{
    if from >= lines.len() {
        None
    } else if package_name_bounds(lines[from as int]) is Some {
        Some(from)
    } else {
        first_package_line(lines, from + 1)
    }
}

/// The declaration a text's first package line makes can be measured.
pub open spec fn package_text_ok(text: Seq<char>) -> bool {
    match first_package_line(text_lines(text), 0) {
        Some(i) => package_line_ok(text_lines(text)[i as int]),
        None => true,
    }
}

/// A module's package declaration: the declared name, its one-based line and
/// byte column, its byte length, the line's text, and the name's range.
#[derive(Clone, Debug)]
pub struct PackageDeclaration {
    pub name: String,
    pub line: usize,
    pub column: usize,
    pub length: usize,
    pub line_text: String,
    pub range: Range,
}

/// The declaration on line `i` (with bounds `k`, `a`, `b`), as plain values.
pub open spec fn package_declaration_on(lines: Seq<Seq<char>>, i: nat) -> (Seq<char>, nat, nat, nat, Seq<
    char,
>, Range) {
    let line = lines[i as int];
    let (k, a, b) = package_name_bounds(line)->0;
    (
        line.subrange(a, b),
        i + 1,
        (utf8_len(line.take(k + 8)) + 1) as nat,
        utf8_len(line.subrange(a, b)),
        line,
        Range {
            start: Position { line: i as u32, character: utf16_len(line.take(k + 8)) as u32 },
            end: Position {
                line: i as u32,
                character: utf16_len(
                    line.take(
                        byte_char_index_from(line, package_name_end_byte(line, k, a, b), 0) as int,
                    ),
                ) as u32,
            },
        },
    )
}

/// The plain values of a declaration.
pub open spec fn declaration_view(d: PackageDeclaration) -> (Seq<char>, nat, nat, nat, Seq<char>, Range) {
    (d.name@, d.line as nat, d.column as nat, d.length as nat, d.line_text@, d.range)
}

/// First index at or after `from` holding whitespace.
fn find_token_end(chars: &Vec<char>, from: usize) -> (b: usize)
    requires
        from <= chars.len(),
    ensures
        b == token_end(chars@, from as int),
        from <= b <= chars.len(),
{
    proof {
        lemma_token_end_bound(chars@, from as int);
    }
    let mut b = from;
    while b < chars.len() && !is_whitespace(chars[b])
        invariant
            from <= b <= chars.len(),
            token_end(chars@, b as int) == token_end(chars@, from as int),
        decreases chars.len() - b,
    {
        b = b + 1;
    }
    b
}

/// The name bounds on one line (see [`package_name_bounds`]).
fn name_bounds(line: &Vec<char>) -> (r: Option<(usize, usize, usize)>)
    ensures
        r matches Some((k, a, b)) ==> package_name_bounds(line@) == Some((k as int, a as int, b as int))
            && b <= line.len(),
        r is None ==> package_name_bounds(line@) is None,
{
    let k = skip_leading_whitespace(line, 0, line.len());
    assert(line@.subrange(0, line.len() as int) =~= line@);
    proof {
        reveal_strlit("package ");
    }
    if !chars_start_with(line, k, "package ") {
        return None;
    }
    let a = skip_leading_whitespace(line, k + 8, line.len());
    proof {
        crate::symbol::lemma_leading_ws_shift(line@, (k + 8) as nat);
    }
    let b = find_token_end(line, a);
    if b > a {
        Some((k, a, b))
    } else {
        None
    }
}

/// The package declaration of a module: the first line that declares a package.
pub fn package_declaration(text: &str) -> (r: Option<PackageDeclaration>)
    requires
        package_text_ok(text@),
    ensures
        r matches Some(d) ==> first_package_line(text_lines(text@), 0) matches Some(i)
            && declaration_view(d) == package_declaration_on(text_lines(text@), i),
        r is None ==> first_package_line(text_lines(text@), 0) is None,
{
    let lines = split_lines(text);
    let ghost lv = char_views(lines@);
    let mut i: usize = 0;
    while i < lines.len()
        invariant
            i <= lines.len(),
            lv == char_views(lines@),
            lv == text_lines(text@),
            package_text_ok(text@),
            forall|j: int| 0 <= j < lines.len() ==> utf8_len(#[trigger] lines@[j]@) <= usize::MAX,
            first_package_line(lv, i as nat) == first_package_line(lv, 0),
        decreases lines.len() - i,
    {
        let line = &lines[i];
        assert(lv[i as int] == line@);
        match name_bounds(line) {
            Some((k, a, b)) => {
                assert(first_package_line(lv, i as nat) == Some(i as nat));
                assert(package_line_ok(line@));
                proof {
                    lemma_leading_ws_bound(line@, (k + 8) as nat);
                    assert(k + 8 <= a);
                    lemma_len_take_bound(line@, (k + 8) as int);
                    lemma_len_take_bound(line@, a as int);
                    lemma_len_take_bound(line@, b as int);
                    crate::text::lemma_utf8_len_concat(line@.take(a as int), line@.subrange(a as int, b as int));
                    assert(line@.take(b as int) =~= line@.take(a as int) + line@.subrange(a as int, b as int));
                    if a > k + 8 {
                        crate::text::lemma_len_take_monotone(line@, (k + 8) as int, a as int);
                    }
                    crate::text::lemma_utf8_len_encoding(line@);
                }
                let name_chars = slice_chars(line, a, b);
                proof {
                    crate::text::lemma_utf8_len_subrange(line@, a as int, b as int);
                }
                let (start_bytes, start_units) = crate::inlay_hints::prefix_lengths(line, k + 8);
                proof {
                    crate::text::lemma_utf8_len_encoding(name_chars@);
                    crate::text::lemma_len_take_bound(name_chars@, name_chars@.len() as int);
                }
                let (name_bytes, _) = crate::inlay_hints::prefix_lengths(&name_chars, name_chars.len());
                assert(name_chars@.take(name_chars.len() as int) =~= name_chars@);
                assert(utf8_len(line@.take((k + 8) as int)) <= utf8_len(line@.take(a as int)));
                assert(utf8_len(line@.take(a as int)) + utf8_len(line@.subrange(a as int, b as int))
                    == utf8_len(line@.take(b as int)));
                assert(utf8_len(line@.take(b as int)) <= utf8_len(line@));
                let end_byte = start_bytes + name_bytes;
                let end_index = char_index_at_byte(line, end_byte);
                let (_, end_units) = crate::inlay_hints::prefix_lengths(line, end_index);
                let name = string_of(&name_chars);
                let line_text = string_of(line);
                return Some(
                    PackageDeclaration {
                        name,
                        line: i + 1,
                        column: start_bytes + 1,
                        length: name_bytes,
                        line_text,
                        range: Range {
                            start: Position {
                                line: #[verifier::truncate] (i as u32),
                                character: #[verifier::truncate] (start_units as u32),
                            },
                            end: Position {
                                line: #[verifier::truncate] (i as u32),
                                character: #[verifier::truncate] (end_units as u32),
                            },
                        },
                    },
                );
            },
            None => {},
        }
        i = i + 1;
    }
    None
}

/// Whether `s` ends with `suffix`.
pub open spec fn has_suffix(s: Seq<char>, suffix: Seq<char>) -> bool {
    suffix.len() <= s.len() && s.skip(s.len() - suffix.len()) == suffix
}

/// The module path of a file path relative to its source root: a final `main.nomo`
/// is dropped, another final `.nomo` file loses its extension; `None` for other files.
pub open spec fn module_parts(relative: Seq<Seq<char>>) -> Option<Seq<Seq<char>>> {
    if relative.len() == 0 {
        None
    } else if relative.last() == "main.nomo"@ {
        Some(relative.drop_last())
    } else if has_suffix(relative.last(), ".nomo"@) {
        Some(relative.drop_last().push(relative.last().take(relative.last().len() - 5)))
    } else {
        None
    }
}

/// The import path of the file `path` (as path components) under source root `root`
/// whose modules import as `import_root`: `import_root.main` for the root's
/// `main.nomo`, otherwise `import_root` followed by the module path.
pub open spec fn module_import(root: Seq<Seq<char>>, import_root: Seq<char>, path: Seq<Seq<char>>) -> Option<
    Seq<char>,
> {
    if !(root.len() <= path.len() && path.take(root.len() as int) == root) {
        None
    } else if path.skip(root.len() as int) == seq!["main.nomo"@] {
        Some(import_root + ".main"@)
    } else {
        match module_parts(path.skip(root.len() as int)) {
            Some(parts) => if parts.len() > 0 {
                Some(import_root + "."@ + joined(parts, "."@))
            } else {
                None
            },
            None => None,
        }
    }
}

/// Whether the components `path` start with `prefix`.
pub(crate) fn starts_with_components(path: &Vec<String>, prefix: &Vec<String>) -> (b: bool)
    ensures
        b == (prefix.len() <= path.len() && views(path@).take(prefix.len() as int) == views(prefix@)),
{
    if prefix.len() > path.len() {
        return false;
    }
    let mut i: usize = 0;
    while i < prefix.len()
        invariant
            i <= prefix.len() <= path.len(),
            forall|j: int| 0 <= j < i ==> path@[j]@ == prefix@[j]@,
        decreases prefix.len() - i,
    {
        if path[i] != prefix[i] {
            assert(views(path@).take(prefix.len() as int)[i as int] != views(prefix@)[i as int]);
            return false;
        }
        i = i + 1;
    }
    assert(views(path@).take(prefix.len() as int) =~= views(prefix@));
    true
}

/// `a` followed by `b`.
fn concat(a: &str, b: &str) -> (r: String)
    ensures
        r@ == a@ + b@,
{
    let mut r = a.to_owned();
    r.append(b);
    r
}

/// The import path of the file `path` under `source_root` (see [`module_import`]).
pub fn module_import_from_file(source_root: &Vec<String>, import_root: &str, path: &Vec<String>) -> (r:
    Option<String>)
    ensures
        r matches Some(i) ==> module_import(views(source_root@), import_root@, views(path@)) == Some(
            i@,
        ),
        r is None ==> module_import(views(source_root@), import_root@, views(path@)) is None,
{
    if !starts_with_components(path, source_root) {
        return None;
    }
    let ghost rel = views(path@).skip(source_root.len() as int);
    let mut relative: Vec<String> = Vec::new();
    let mut i = source_root.len();
    while i < path.len()
        invariant
            source_root.len() <= i <= path.len(),
            relative@ == path@.subrange(source_root.len() as int, i as int),
        decreases path.len() - i,
    {
        relative.push(path[i].clone());
        assert(relative@ =~= path@.subrange(source_root.len() as int, i + 1));
        i = i + 1;
    }
    assert(relative@ =~= path@.skip(source_root.len() as int));
    assert(views(relative@) =~= rel);
    proof {
        reveal_strlit("main.nomo");
        reveal_strlit(".nomo");
    }
    if relative.len() == 1 && same_text(relative[0].as_str(), "main.nomo") {
        assert(rel =~= seq!["main.nomo"@]);
        return Some(concat(import_root, ".main"));
    }
    if relative.len() == 1 {
        assert(rel != seq!["main.nomo"@]) by {
            if rel == seq!["main.nomo"@] {
                assert(rel[0] == "main.nomo"@);
            }
        }
    }
    if relative.len() == 0 {
        return None;
    }
    let last_index = relative.len() - 1;
    let last = relative.remove(last_index);
    let mut parts = relative;
    assert(views(parts@) =~= rel.drop_last());
    assert(last@ == rel.last());
    if !same_text(last.as_str(), "main.nomo") {
        let chars = text_chars(last.as_str());
        if chars.len() < 5 || !chars_start_with(&chars, chars.len() - 5, ".nomo") {
            return None;
        }
        let stem = string_of(&slice_chars(&chars, 0, chars.len() - 5));
        assert(stem@ =~= last@.take(last@.len() - 5));
        parts.push(stem);
        assert(views(parts@) =~= rel.drop_last().push(rel.last().take(rel.last().len() - 5)));
    }
    if parts.len() == 0 {
        return None;
    }
    let joined_parts = crate::ast::join_strings(&parts, ".");
    let mut r = concat(import_root, ".");
    r.append(joined_parts.as_str());
    Some(r)
}

/// Splitting `s` at `sep` as far as its last separator: all segments completed so
/// far (empty ones included) and the segment being read.
pub open spec fn split_all_state(s: Seq<char>, sep: char) -> (Seq<Seq<char>>, Seq<char>)
    decreases s.len(),
{
    if s.len() == 0 {
        (Seq::empty(), Seq::empty())
    } else {
        let (done, current) = split_all_state(s.drop_last(), sep);
        if s.last() == sep {
            (done.push(current), Seq::empty())
        } else {
            (done, current.push(s.last()))
        }
    }
}

/// `str::split`: every segment of `s` between separators `sep`, empty ones included.
pub open spec fn split_all(s: Seq<char>, sep: char) -> Seq<Seq<char>> {
    split_all_state(s, sep).0.push(split_all_state(s, sep).1)
}

/// The segments of `s` between `.` separators.
fn dot_parts(s: &str) -> (parts: Vec<String>)
    ensures
        views(parts@) == split_all(s@, '.'),
{
    let chars = text_chars(s);
    let mut parts: Vec<String> = Vec::new();
    let mut current: Vec<char> = Vec::new();
    let mut i: usize = 0;
    assert(chars@.take(0) =~= Seq::<char>::empty());
    while i < chars.len()
        invariant
            i <= chars.len(),
            chars@ == s@,
            split_all_state(chars@.take(i as int), '.') == (views(parts@), current@),
        decreases chars.len() - i,
    {
        let ghost before = views(parts@);
        assert(chars@.take(i + 1).drop_last() =~= chars@.take(i as int));
        assert(chars@.take(i + 1).last() == chars@[i as int]);
        if chars[i] == '.' {
            parts.push(string_of(&current));
            assert(views(parts@) =~= before.push(current@));
            current = Vec::new();
        } else {
            current.push(chars[i]);
        }
        i = i + 1;
    }
    assert(chars@.take(chars.len() as int) =~= s@);
    let ghost before = views(parts@);
    parts.push(string_of(&current));
    assert(views(parts@) =~= before.push(current@));
    parts
}

/// The file (as path components) that holds the module a package name denotes:
/// under `root`, `main.nomo` for the local root itself or its `main` module,
/// otherwise the module path with `.nomo` on its last segment; `None` unless the
/// name starts with the local root and has no empty segment.
pub open spec fn package_file(root: Seq<Seq<char>>, local_root: Seq<char>, package: Seq<char>) -> Option<
    Seq<Seq<char>>,
> {
    let parts = split_all(package, '.');
    if parts[0] != local_root || (exists|i: int| 0 <= i < parts.len() && #[trigger] parts[i].len() == 0) {
        None
    } else if parts.len() == 1 || parts.skip(1) == seq!["main"@] {
        Some(root.push("main.nomo"@))
    } else {
        Some(root + parts.skip(1).drop_last().push(parts.last() + ".nomo"@))
    }
}

/// The file a module declaring `package` should live in (see [`package_file`]).
pub fn module_file_path_for_package(source_root: &Vec<String>, local_root: &str, package: &str) -> (r:
    Option<Vec<String>>)
    ensures
        r matches Some(p) ==> package_file(views(source_root@), local_root@, package@) == Some(
            views(p@),
        ),
        r is None ==> package_file(views(source_root@), local_root@, package@) is None,
{
    let parts = dot_parts(package);
    let ghost pv = views(parts@);
    assert(pv.len() > 0);
    assert(pv[0] == parts@[0]@);
    if !same_text(parts[0].as_str(), local_root) {
        return None;
    }
    let mut i: usize = 0;
    while i < parts.len()
        invariant
            i <= parts.len(),
            pv == views(parts@),
            pv == split_all(package@, '.'),
            forall|j: int| 0 <= j < i ==> #[trigger] pv[j].len() > 0,
        decreases parts.len() - i,
    {
        if parts[i].as_str().is_empty() {
            assert(pv[i as int].len() == 0);
            return None;
        }
        i = i + 1;
    }
    assert(!(exists|j: int| 0 <= j < pv.len() && #[trigger] pv[j].len() == 0));
    let mut target: Vec<String> = Vec::new();
    let mut k: usize = 0;
    while k < source_root.len()
        invariant
            k <= source_root.len(),
            target@ == source_root@.take(k as int),
        decreases source_root.len() - k,
    {
        target.push(source_root[k].clone());
        assert(target@ =~= source_root@.take(k + 1));
        k = k + 1;
    }
    assert(target@ =~= source_root@);
    let ghost base = views(target@);
    proof {
        reveal_strlit("main");
    }
    let is_main = parts.len() == 2 && same_text(parts[1].as_str(), "main");
    if parts.len() == 2 && !is_main {
        assert(pv.skip(1) != seq!["main"@]) by {
            if pv.skip(1) == seq!["main"@] {
                assert(pv.skip(1)[0] == pv[1]);
            }
        }
    }
    if parts.len() > 2 {
        assert(pv.skip(1).len() != 1);
    }
    if parts.len() == 1 || is_main {
        if is_main {
            assert(pv.skip(1) =~= seq!["main"@]);
        }
        target.push("main.nomo".to_owned());
        assert(views(target@) =~= base.push("main.nomo"@));
        return Some(target);
    }
    let mut j: usize = 1;
    while j + 1 < parts.len()
        invariant
            1 <= j < parts.len(),
            pv == views(parts@),
            target@ == source_root@ + parts@.subrange(1, j as int),
        decreases parts.len() - j,
    {
        target.push(parts[j].clone());
        assert(target@ =~= source_root@ + parts@.subrange(1, j + 1));
        j = j + 1;
    }
    let ghost copied = target@;
    assert(views(copied) =~= base + pv.subrange(1, j as int));
    let last = concat(parts[j].as_str(), ".nomo");
    target.push(last);
    assert(views(target@) =~= views(copied).push(pv.last() + ".nomo"@));
    assert(pv.skip(1).drop_last() =~= pv.subrange(1, j as int));
    assert(views(target@) =~= base + pv.skip(1).drop_last().push(pv.last() + ".nomo"@));
    Some(target)
}

/// The package a module file should declare: the import path of `path` under the
/// local source root, whose root name comes from the project's main file (its
/// text `main_source`, if it could be read) or else from the document itself.
pub open spec fn expected_package(
    source_root: Seq<Seq<char>>,
    path: Seq<Seq<char>>,
    main_source: Option<Seq<char>>,
    text: Seq<char>,
) -> Option<Seq<char>> {
    if !(source_root.len() <= path.len() && path.take(source_root.len() as int) == source_root) {
        None
    } else {
        let main_root = match main_source {
            Some(m) => crate::lines::first_package_root(text_lines(m)),
            None => None,
        };
        let root = match main_root {
            Some(r) => Some(r),
            None => crate::lines::first_package_root(text_lines(text)),
        };
        match root {
            Some(r) => module_import(source_root, r, path),
            None => None,
        }
    }
}

/// The package the current module file should declare (see [`expected_package`]).
pub fn expected_package_for_current_file(
    source_root: &Vec<String>,
    path: &Vec<String>,
    main_source: Option<&str>,
    text: &str,
) -> (r: Option<String>)
    ensures
        r matches Some(p) ==> expected_package(
            views(source_root@),
            views(path@),
            match main_source {
                Some(m) => Some(m@),
                None => None,
            },
            text@,
        ) == Some(p@),
        r is None ==> expected_package(
            views(source_root@),
            views(path@),
            match main_source {
                Some(m) => Some(m@),
                None => None,
            },
            text@,
        ) is None,
{
    if !starts_with_components(path, source_root) {
        return None;
    }
    let main_root = match main_source {
        Some(m) => crate::lines::local_import_root(m),
        None => None,
    };
    let root = match main_root {
        Some(r) => r,
        None => match crate::lines::local_import_root(text) {
            Some(r) => r,
            None => return None,
        },
    };
    module_import_from_file(source_root, root.as_str(), path)
}

/// The diagnostic reported when a module declares another package than its file
/// location gives.
pub open spec fn mismatch_message(expected: Seq<char>, declared: Seq<char>) -> Seq<char> {
    "module `"@ + expected + "` declares package `"@ + declared + "`"@
}

/// The view of an optional string.
pub open spec fn optional_view(o: Option<String>) -> Option<Seq<char>> {
    match o {
        Some(s) => Some(s@),
        None => None,
    }
}

/// Whether a module's text declares a package other than the expected one.
pub open spec fn package_mismatch(text: Seq<char>, expected: Option<Seq<char>>) -> bool {
    match (first_package_line(text_lines(text), 0), expected) {
        (Some(i), Some(e)) => package_declaration_on(text_lines(text), i).0 != e,
        _ => false,
    }
}

/// Whether `d` is the package-mismatch diagnostic of the module at `path`: code
/// `E0904` on the declared name, with no suggestions.
pub open spec fn mismatch_diagnostic(d: NomoDiagnostic, path: Seq<char>, text: Seq<char>, expected: Seq<
    char,
>) -> bool {
    let decl = package_declaration_on(text_lines(text), first_package_line(text_lines(text), 0)->0);
    &&& d.code@ == "E0904"@
    &&& d.message@ == mismatch_message(expected, decl.0)
    &&& d.file@ == path
    &&& d.line == decl.1
    &&& d.column == decl.2
    &&& d.length == decl.3
    &&& d.line_text@ == decl.4
    &&& d.suggestions@.len() == 0
}

/// The package-mismatch diagnostic of a module file: when it declares a package and
/// its expected package differs, an `E0904` error on the declared name.
pub fn module_package_mismatch_diagnostic(path: &String, text: &str, expected: Option<String>) -> (r:
    Option<NomoDiagnostic>)
    requires
        package_text_ok(text@),
    ensures
        r is Some <==> package_mismatch(text@, optional_view(expected)),
        r matches Some(d) ==> mismatch_diagnostic(d, path@, text@, expected->0@),
{
    let package = match package_declaration(text) {
        Some(p) => p,
        None => return None,
    };
    let expected = match expected {
        Some(e) => e,
        None => return None,
    };
    if package.name == expected {
        return None;
    }
    let mut message = concat("module `", expected.as_str());
    message.append("` declares package `");
    message.append(package.name.as_str());
    message.append("`");
    Some(
        NomoDiagnostic {
            code: "E0904".to_owned(),
            message,
            file: path.clone(),
            line: package.line,
            column: package.column,
            length: package.length,
            line_text: package.line_text,
            suggestions: Vec::new(),
        },
    )
}

/// A quick fix that edits the current document.
#[derive(Clone, Debug)]
pub struct QuickFix {
    pub title: String,
    pub edit: TextEdit,
    pub is_preferred: bool,
}

/// What a quick fix shows and does: its title, the range it replaces, the new text,
/// and whether it is preferred.
pub open spec fn fix_view(f: QuickFix) -> (Seq<char>, Range, Seq<char>, bool) {
    (f.title@, f.edit.range, f.edit.new_text@, f.is_preferred)
}

/// The views of a list of fixes.
pub open spec fn fixes_view(v: Seq<QuickFix>) -> Seq<(Seq<char>, Range, Seq<char>, bool)> {
    v.map_values(|f: QuickFix| fix_view(f))
}

/// Every suggestion's span fits the editor's columns.
pub open spec fn suggestions_fit(suggestions: Seq<Suggestion>) -> bool {
    forall|i: int| 0 <= i < suggestions.len() ==> span_fits(
        #[trigger] suggestions[i].column,
        suggestions[i].length,
    )
}

/// The preferred fix of each compiler suggestion: its description as title,
/// replacing its span by its text.
pub open spec fn suggestion_fix(s: Suggestion) -> (Seq<char>, Range, Seq<char>, bool) {
    (s.description@, span_range(s.line, s.column, s.length), s.text@, true)
}

/// The fixes of a diagnostic's suggestions, in order.
pub fn suggestion_fixes(diagnostic: &NomoDiagnostic) -> (fixes: Vec<QuickFix>)
    requires
        suggestions_fit(diagnostic.suggestions@),
    ensures
        fixes_view(fixes@) == diagnostic.suggestions@.map_values(|s: Suggestion| suggestion_fix(s)),
{
    let ghost all = diagnostic.suggestions@.map_values(|s: Suggestion| suggestion_fix(s));
    let mut fixes: Vec<QuickFix> = Vec::new();
    let mut i: usize = 0;
    while i < diagnostic.suggestions.len()
        invariant
            i <= diagnostic.suggestions.len(),
            all == diagnostic.suggestions@.map_values(|s: Suggestion| suggestion_fix(s)),
            suggestions_fit(diagnostic.suggestions@),
            fixes.len() == i,
            fixes_view(fixes@) == all.take(i as int),
        decreases diagnostic.suggestions.len() - i,
    {
        let suggestion = &diagnostic.suggestions[i];
        assert(span_fits(suggestion.column, suggestion.length));
        let range = suggestion_range(suggestion);
        let ghost before = fixes_view(fixes@);
        fixes.push(
            QuickFix {
                title: suggestion.description.clone(),
                edit: TextEdit { range, new_text: suggestion.text.clone() },
                is_preferred: true,
            },
        );
        assert(all[i as int] == suggestion_fix(diagnostic.suggestions@[i as int]));
        assert(fix_view(fixes@[i as int]) == all[i as int]);
        assert(fixes_view(fixes@) =~= before.push(all[i as int]));
        assert(fixes_view(fixes@) =~= all.take(i + 1));
        i = i + 1;
    }
    assert(all.take(diagnostic.suggestions.len() as int) =~= all);
    fixes
}

/// Whether a client diagnostic's code (when it is a string) is `code`.
pub open spec fn code_matches(client_code: Option<String>, code: Seq<char>) -> bool {
    match client_code {
        Some(c) => c@ == code,
        None => false,
    }
}

/// Index of the first of the client's diagnostics whose code is `code`, to be used
/// in place of the server's own form of the diagnostic.
pub fn matching_client_diagnostic(code: &String, client_codes: &Vec<Option<String>>) -> (r: Option<
    usize,
>)
    ensures
        r matches Some(i) ==> i < client_codes.len() && code_matches(client_codes@[i as int], code@),
        r matches Some(i) ==> forall|j: int| 0 <= j < i ==> !code_matches(client_codes@[j], code@),
        r is None ==> forall|j: int|
            0 <= j < client_codes.len() ==> !code_matches(client_codes@[j], code@),
{
    let mut i: usize = 0;
    while i < client_codes.len()
        invariant
            i <= client_codes.len(),
            forall|j: int| 0 <= j < i ==> !code_matches(client_codes@[j], code@),
        decreases client_codes.len() - i,
    {
        match &client_codes[i] {
            Some(c) => {
                if *c == *code {
                    return Some(i);
                }
            },
            None => {},
        }
        i = i + 1;
    }
    None
}

/// Whether a diagnostic code is one an added import can fix (an unknown name).
pub open spec fn import_fix_code(code: Seq<char>) -> bool {
    code == "E0303"@ || code == "E0305"@
}

/// Whether an added import can fix a diagnostic with `code`.
pub fn import_fix_applies(code: &str) -> (b: bool)
    ensures
        b == import_fix_code(code@),
{
    same_text(code, "E0303") || same_text(code, "E0305")
}

/// Where `x` goes in the sorted `sorted`: after every text not after it.
pub open spec fn text_insertion_index(sorted: Seq<Seq<char>>, x: Seq<char>, from: nat) -> nat
    decreases sorted.len() - from,
{
    if from < sorted.len() && !crate::completion::text_lt(x, sorted[from as int]) {
        text_insertion_index(sorted, x, from + 1)
    } else {
        from
    }
}

/// Texts stably sorted.
pub open spec fn sort_texts(v: Seq<Seq<char>>) -> Seq<Seq<char>>
    decreases v.len(),
{
    if v.len() == 0 {
        v
    } else {
        let sorted = sort_texts(v.drop_last());
        sorted.insert(text_insertion_index(sorted, v.last(), 0) as int, v.last())
    }
}

/// Texts without repeats of the text just before.
pub open spec fn dedup_texts(v: Seq<Seq<char>>) -> Seq<Seq<char>>
    decreases v.len(),
{
    if v.len() == 0 {
        v
    } else if v.len() >= 2 && v[v.len() - 2] == v.last() {
        dedup_texts(v.drop_last())
    } else {
        dedup_texts(v.drop_last()).push(v.last())
    }
}

/// The candidate imports worth offering: not the local `main` module, not already
/// imported; sorted, each once.
pub open spec fn import_fix_paths(
    candidates: Seq<Seq<char>>,
    local_root: Seq<char>,
    current: Seq<Seq<char>>,
) -> Seq<Seq<char>> {
    dedup_texts(
        sort_texts(
            candidates.filter(|c: Seq<char>| c != local_root + ".main"@ && !current.contains(c)),
        ),
    )
}

/// The fix that adds `import path` for `symbol` at `insertion`.
pub open spec fn import_fix(path: Seq<char>, symbol: Seq<char>, insertion: Range) -> (Seq<char>, Range, Seq<
    char,
>, bool) {
    (
        "add `import "@ + path + "` to use `"@ + symbol + "`"@,
        insertion,
        "import "@ + path + "\n"@,
        false,
    )
}

proof fn lemma_text_insertion_index_bound(sorted: Seq<Seq<char>>, x: Seq<char>, from: nat)
    requires
        from <= sorted.len(),
    ensures
        from <= text_insertion_index(sorted, x, from) <= sorted.len(),
    decreases sorted.len() - from,
{
    if from < sorted.len() && !crate::completion::text_lt(x, sorted[from as int]) {
        lemma_text_insertion_index_bound(sorted, x, from + 1);
    }
}

/// The candidates worth offering, in their given order.
fn filtered_candidates(candidates: &Vec<String>, local_root: &str, current: &Vec<String>) -> (r: Vec<
    String,
>)
    ensures
        views(r@) == views(candidates@).filter(
            |c: Seq<char>| c != local_root@ + ".main"@ && !views(current@).contains(c),
        ),
{
    let main_module = concat(local_root, ".main");
    let ghost pred = |c: Seq<char>| c != local_root@ + ".main"@ && !views(current@).contains(c);
    let ghost cv = views(candidates@);
    let mut r: Vec<String> = Vec::new();
    let mut i: usize = 0;
    proof {
        reveal(Seq::filter);
    }
    assert(cv.take(0).filter(pred) =~= Seq::<Seq<char>>::empty());
    while i < candidates.len()
        invariant
            i <= candidates.len(),
            cv == views(candidates@),
            main_module@ == local_root@ + ".main"@,
            pred == (|c: Seq<char>| c != local_root@ + ".main"@ && !views(current@).contains(c)),
            views(r@) == cv.take(i as int).filter(pred),
        decreases candidates.len() - i,
    {
        let c = &candidates[i];
        assert(cv.take(i + 1) =~= cv.take(i as int).push(c@));
        proof {
            cv.take(i as int).lemma_filter_push(c@, pred);
        }
        let ghost before = views(r@);
        if *c != main_module && !crate::inlay_hints::contains_string(current, c) {
            r.push(c.clone());
            assert(views(r@) =~= before.push(c@));
        }
        i = i + 1;
    }
    assert(cv.take(candidates.len() as int) =~= cv);
    r
}

/// Texts sorted, equal ones keeping their order.
fn sorted_texts(texts: Vec<String>) -> (sorted: Vec<String>)
    ensures
        views(sorted@) == sort_texts(views(texts@)),
{
    let ghost all = views(texts@);
    let mut rest = texts;
    let mut sorted: Vec<String> = Vec::new();
    let mut k: usize = 0;
    assert(all.take(0) =~= Seq::<Seq<char>>::empty());
    assert(all.skip(0) =~= all);
    assert(all.len() == rest.len());
    while rest.len() > 0
        invariant
            k <= all.len(),
            all.len() <= usize::MAX,
            views(rest@) == all.skip(k as int),
            views(sorted@) == sort_texts(all.take(k as int)),
        decreases rest.len(),
    {
        let ghost old_rest = rest@;
        let x = rest.remove(0);
        proof {
            assert(rest@ =~= old_rest.skip(1));
            assert(x == old_rest[0]);
            assert(views(old_rest) == all.skip(k as int));
            assert(views(old_rest).len() == old_rest.len());
            assert(views(old_rest)[0] == x@);
            assert(all.skip(k as int)[0] == all[k as int]);
            assert forall|i: int| 0 <= i < rest@.len() implies #[trigger] views(rest@)[i]
                == all.skip(k + 1)[i] by {
                assert(rest@[i] == old_rest[i + 1]);
                assert(views(old_rest)[i + 1] == all.skip(k as int)[i + 1]);
            }
            assert(views(rest@) =~= all.skip(k + 1));
        }
        let ghost sv = views(sorted@);
        proof {
            lemma_text_insertion_index_bound(sv, x@, 0);
        }
        let mut j: usize = 0;
        while j < sorted.len() && !crate::completion::text_precedes(&x, &sorted[j])
            invariant
                j <= sorted.len(),
                sv == views(sorted@),
                text_insertion_index(sv, x@, j as nat) == text_insertion_index(sv, x@, 0),
            decreases sorted.len() - j,
        {
            j = j + 1;
        }
        let ghost xv = x@;
        sorted.insert(j, x);
        proof {
            assert(all.take(k + 1).drop_last() =~= all.take(k as int));
            assert(all.take(k + 1).last() == all[k as int]);
            assert(views(sorted@) =~= sv.insert(j as int, xv));
        }
        k = k + 1;
    }
    proof {
        assert(all.take(k as int) =~= all);
    }
    sorted
}

/// The texts without repeats of the text just before (see [`dedup_texts`]).
fn deduplicated_texts(texts: &Vec<String>) -> (d: Vec<String>)
    ensures
        views(d@) == dedup_texts(views(texts@)),
{
    let ghost tv = views(texts@);
    let mut d: Vec<String> = Vec::new();
    let mut i: usize = 0;
    assert(tv.take(0) =~= Seq::<Seq<char>>::empty());
    while i < texts.len()
        invariant
            i <= texts.len(),
            tv == views(texts@),
            views(d@) == dedup_texts(tv.take(i as int)),
        decreases texts.len() - i,
    {
        let ghost t = tv.take(i + 1);
        assert(t.drop_last() =~= tv.take(i as int));
        assert(t.last() == texts@[i as int]@);
        let repeated = i > 0 && texts[i - 1] == texts[i];
        if i > 0 {
            assert(t[i - 1] == texts@[i - 1]@);
        }
        if !repeated {
            let ghost before = views(d@);
            d.push(texts[i].clone());
            assert(views(d@) =~= before.push(t.last()));
        }
        i = i + 1;
    }
    assert(tv.take(texts.len() as int) =~= tv);
    d
}

/// The fixes adding an import for `symbol_name`: one per candidate module path worth
/// offering (see [`import_fix_paths`]), each inserting its `import` line at
/// `insertion`.
pub fn add_import_fixes(
    candidates: &Vec<String>,
    local_root: &str,
    current_imports: &Vec<String>,
    symbol_name: &str,
    insertion: Range,
) -> (fixes: Vec<QuickFix>)
    ensures
        fixes_view(fixes@) == import_fix_paths(
            views(candidates@),
            local_root@,
            views(current_imports@),
        ).map_values(|p: Seq<char>| import_fix(p, symbol_name@, insertion)),
{
    let filtered = filtered_candidates(candidates, local_root, current_imports);
    let sorted = sorted_texts(filtered);
    let paths = deduplicated_texts(&sorted);
    let ghost pv = views(paths@);
    let mut fixes: Vec<QuickFix> = Vec::new();
    let mut i: usize = 0;
    assert(pv.take(0) =~= Seq::<Seq<char>>::empty());
    while i < paths.len()
        invariant
            i <= paths.len(),
            pv == views(paths@),
            fixes_view(fixes@) == pv.take(i as int).map_values(
                |p: Seq<char>| import_fix(p, symbol_name@, insertion),
            ),
        decreases paths.len() - i,
    {
        let path = &paths[i];
        assert(pv[i as int] == path@);
        let mut title = concat("add `import ", path.as_str());
        title.append("` to use `");
        title.append(symbol_name);
        title.append("`");
        let mut new_text = concat("import ", path.as_str());
        new_text.append("\n");
        let ghost before = fixes_view(fixes@);
        fixes.push(QuickFix { title, edit: TextEdit { range: insertion, new_text }, is_preferred: false });
        assert(fixes_view(fixes@) =~= before.push(import_fix(path@, symbol_name@, insertion)));
        assert(pv.take(i + 1).map_values(|p: Seq<char>| import_fix(p, symbol_name@, insertion))
            =~= pv.take(i as int).map_values(|p: Seq<char>| import_fix(p, symbol_name@, insertion)).push(
            import_fix(path@, symbol_name@, insertion),
        ));
        i = i + 1;
    }
    assert(pv.take(paths.len() as int) =~= pv);
    fixes
}

/// A fix for a module whose package declaration does not match its location.
#[derive(Clone, Debug)]
pub enum PackageFix {
    /// Replace the declared name by the expected one.
    UpdateDeclaration { title: String, edit: TextEdit },
    /// Move the file to where the declared package lives (path components).
    RenameFile { title: String, target: Vec<String> },
}

/// The package fixes as plain values: a title, and either an edit (range and new
/// text) or a target file.
pub open spec fn package_fix_view(f: PackageFix) -> (Seq<char>, Option<(Range, Seq<char>)>, Option<
    Seq<Seq<char>>,
>) {
    match f {
        PackageFix::UpdateDeclaration { title, edit } => (
            title@,
            Some((edit.range, edit.new_text@)),
            None,
        ),
        PackageFix::RenameFile { title, target } => (title@, None, Some(views(target@))),
    }
}

/// The fixes for a package-mismatch diagnostic (code `E0904` on the current file):
/// update the declaration to the expected package, and, when a target file is
/// given, move the file to where the declared package lives.
pub open spec fn package_fixes(
    code: Seq<char>,
    same_file: bool,
    package: Option<PackageDeclaration>,
    expected: Option<Seq<char>>,
    rename_target: Option<Seq<Seq<char>>>,
) -> Seq<(Seq<char>, Option<(Range, Seq<char>)>, Option<Seq<Seq<char>>>)> {
    match (package, expected) {
        (Some(p), Some(e)) => if code != "E0904"@ || !same_file || p.name@ == e {
            Seq::empty()
        } else {
            seq![
                (
                    "update package declaration to match module `"@ + e + "`"@,
                    Some((p.range, e)),
                    None::<Seq<Seq<char>>>,
                ),
            ] + match rename_target {
                Some(t) => seq![
                    (
                        "rename module file to match package `"@ + p.name@ + "`"@,
                        None::<(Range, Seq<char>)>,
                        Some(t),
                    ),
                ],
                None => Seq::empty(),
            }
        },
        _ => Seq::empty(),
    }
}

/// The fixes for a package-mismatch diagnostic (see [`package_fixes`]).
pub fn module_package_fixes(
    code: &str,
    same_file: bool,
    package: Option<PackageDeclaration>,
    expected: Option<String>,
    rename_target: Option<Vec<String>>,
) -> (fixes: Vec<PackageFix>)
    ensures
        fixes@.map_values(|f: PackageFix| package_fix_view(f)) == package_fixes(
            code@,
            same_file,
            package,
            optional_view(expected),
            match rename_target {
                Some(t) => Some(views(t@)),
                None => None,
            },
        ),
{
    let mut fixes: Vec<PackageFix> = Vec::new();
    let ghost package_in = package;
    let ghost expected_in = optional_view(expected);
    let package = match package {
        Some(p) => p,
        None => {
            assert(fixes@.map_values(|f: PackageFix| package_fix_view(f)) =~= Seq::<
                (Seq<char>, Option<(Range, Seq<char>)>, Option<Seq<Seq<char>>>),
            >::empty());
            return fixes;
        },
    };
    let expected = match expected {
        Some(e) => e,
        None => {
            assert(fixes@.map_values(|f: PackageFix| package_fix_view(f)) =~= Seq::<
                (Seq<char>, Option<(Range, Seq<char>)>, Option<Seq<Seq<char>>>),
            >::empty());
            return fixes;
        },
    };
    if !same_text(code, "E0904") || !same_file || package.name == expected {
        assert(fixes@.map_values(|f: PackageFix| package_fix_view(f)) =~= Seq::<
            (Seq<char>, Option<(Range, Seq<char>)>, Option<Seq<Seq<char>>>),
        >::empty());
        return fixes;
    }
    let mut title = concat("update package declaration to match module `", expected.as_str());
    title.append("`");
    let ghost e = expected@;
    fixes.push(
        PackageFix::UpdateDeclaration { title, edit: TextEdit { range: package.range, new_text: expected } },
    );
    match rename_target {
        Some(target) => {
            let mut title = concat("rename module file to match package `", package.name.as_str());
            title.append("`");
            fixes.push(PackageFix::RenameFile { title, target });
        },
        None => {},
    }
    assert(fixes@.map_values(|f: PackageFix| package_fix_view(f)) =~= package_fixes(
        code@,
        same_file,
        package_in,
        expected_in,
        match rename_target {
            Some(t) => Some(views(t@)),
            None => None,
        },
    ));
    fixes
}

} // verus!
