//! Navigation helpers that read the document text itself: identifier rules, the
//! import path under the cursor, and the identifier range a rename would replace.
use vstd::prelude::*;
use vstd::string::*;
use crate::inlay_hints::is_ascii_ws_char;
use crate::lines::{char_views, split_lines, text_lines};
use crate::symbol::{has_prefix, chars_start_with, leading_ws_from, lemma_leading_ws_bound,
    skip_leading_whitespace};
use crate::text::{Position, Range, chars_equal, column_char_index, column_to_char_index,
    lemma_len_take_bound, lemma_len_take_step, lemma_utf16_le_utf8, push_char, text_chars,
    utf16_len, utf8_len, char_utf16_width};

verus! {

broadcast use vstd::seq_lib::group_seq_properties;

/// Whether `s` reads exactly `lit`.
pub fn same_text(s: &str, lit: &str) -> (b: bool)
    ensures
        b == (s@ == lit@),
{
    let a = text_chars(s);
    let c = text_chars(lit);
    chars_equal(&a, &c)
}

/// The words the language reserves.
pub open spec fn is_keyword(s: Seq<char>) -> bool {
    s == "package"@ || s == "import"@ || s == "pub"@ || s == "fn"@ || s == "struct"@ || s
        == "enum"@ || s == "interface"@ || s == "impl"@ || s == "extern"@ || s == "unsafe"@ || s
        == "let"@ || s == "mut"@ || s == "const"@ || s == "if"@ || s == "else"@ || s == "match"@
        || s == "for"@ || s == "in"@ || s == "return"@ || s == "defer"@ || s == "break"@ || s
        == "continue"@ || s == "panic"@ || s == "as"@ || s == "true"@ || s == "false"@ || s
        == "void"@
}

/// Whether `s` is a reserved word.
pub fn is_reserved_keyword(s: &str) -> (b: bool)
    ensures
        b == is_keyword(s@),
{
    same_text(s, "package") || same_text(s, "import") || same_text(s, "pub") || same_text(s, "fn")
        || same_text(s, "struct") || same_text(s, "enum") || same_text(s, "interface")
        || same_text(s, "impl") || same_text(s, "extern") || same_text(s, "unsafe")
        || same_text(s, "let") || same_text(s, "mut") || same_text(s, "const") || same_text(
        s,
        "if",
    ) || same_text(s, "else") || same_text(s, "match") || same_text(s, "for") || same_text(
        s,
        "in",
    ) || same_text(s, "return") || same_text(s, "defer") || same_text(s, "break") || same_text(
        s,
        "continue",
    ) || same_text(s, "panic") || same_text(s, "as") || same_text(s, "true") || same_text(
        s,
        "false",
    ) || same_text(s, "void")
}

/// ASCII letters and `_`.
pub open spec fn is_ident_start_char(c: char) -> bool {
    c == '_' || ('a' <= c && c <= 'z') || ('A' <= c && c <= 'Z')
}

/// ASCII letters, digits and `_`.
pub open spec fn is_ident_char(c: char) -> bool {
    is_ident_start_char(c) || ('0' <= c && c <= '9')
}

/// A valid identifier: a letter or `_`, then letters, digits or `_`, and not a
/// reserved word.
pub open spec fn nomo_identifier(s: Seq<char>) -> bool {
    &&& s.len() > 0
    &&& is_ident_start_char(s[0])
    &&& forall|i: int| 1 <= i < s.len() ==> is_ident_char(#[trigger] s[i])
    &&& !is_keyword(s)
}

/// Whether `c` can be part of an identifier.
pub fn ident_char(c: char) -> (b: bool)
    ensures
        b == is_ident_char(c),
{
    c == '_' || ('a' <= c && c <= 'z') || ('A' <= c && c <= 'Z') || ('0' <= c && c <= '9')
}

/// Whether `name` can name a declaration (see [`nomo_identifier`]).
pub fn is_nomo_identifier(name: &str) -> (b: bool)
    ensures
        b == nomo_identifier(name@),
{
    let chars = text_chars(name);
    if chars.len() == 0 {
        return false;
    }
    let first = chars[0];
    if !(first == '_' || ('a' <= first && first <= 'z') || ('A' <= first && first <= 'Z')) {
        return false;
    }
    let mut i: usize = 1;
    while i < chars.len()
        invariant
            1 <= i <= chars.len(),
            chars@ == name@,
            forall|j: int| 1 <= j < i ==> is_ident_char(#[trigger] chars@[j]),
        decreases chars.len() - i,
    {
        if !ident_char(chars[i]) {
            return false;
        }
        i = i + 1;
    }
    !is_reserved_keyword(name)
}

/// First index at or after `from` holding ASCII whitespace, or the length of `s`.
pub open spec fn next_ascii_ws(s: Seq<char>, from: int) -> int
    decreases s.len() - from,
{
    if from < s.len() && !is_ascii_ws_char(s[from]) {
        next_ascii_ws(s, from + 1)
    } else {
        from
    }
}

/// Splitting `s` at `sep` as far as its last separator: the non-empty segments
/// completed so far and the segment being read.
pub open spec fn split_state(s: Seq<char>, sep: char) -> (Seq<Seq<char>>, Seq<char>)
    decreases s.len(),
{
    if s.len() == 0 {
        (Seq::empty(), Seq::empty())
    } else {
        let (done, current) = split_state(s.drop_last(), sep);
        if s.last() == sep {
            (
                if current.len() > 0 {
                    done.push(current)
                } else {
                    done
                },
                Seq::empty(),
            )
        } else {
            (done, current.push(s.last()))
        }
    }
}

/// The non-empty segments of `s` between separators `sep`.
pub open spec fn split_nonempty(s: Seq<char>, sep: char) -> Seq<Seq<char>> {
    let (done, current) = split_state(s, sep);
    if current.len() > 0 {
        done.push(current)
    } else {
        done
    }
}

/// The string holding the characters `v`.
pub fn string_of(v: &Vec<char>) -> (s: String)
    ensures
        s@ == v@,
{
    let mut s = String::new();
    let mut i: usize = 0;
    while i < v.len()
        invariant
            i <= v.len(),
            s@ == v@.take(i as int),
        decreases v.len() - i,
    {
        push_char(&mut s, v[i]);
        assert(s@ =~= v@.take(i + 1));
        i = i + 1;
    }
    assert(v@.take(v.len() as int) =~= v@);
    s
}

/// The non-empty segments of `chars[from..to]` between `sep` separators.
pub fn split_segments(chars: &Vec<char>, from: usize, to: usize, sep: char) -> (parts: Vec<String>)
    requires
        from <= to <= chars.len(),
    ensures
        crate::ast::views(parts@) == split_nonempty(chars@.subrange(from as int, to as int), sep),
{
    let ghost all = chars@.subrange(from as int, to as int);
    let mut parts: Vec<String> = Vec::new();
    let mut current: Vec<char> = Vec::new();
    let mut i = from;
    assert(all.take(0) =~= Seq::<char>::empty());
    while i < to
        invariant
            from <= i <= to <= chars.len(),
            all == chars@.subrange(from as int, to as int),
            split_state(all.take(i - from), sep) == (crate::ast::views(parts@), current@),
        decreases to - i,
    {
        let ghost before = crate::ast::views(parts@);
        assert(all.take(i - from + 1).drop_last() =~= all.take(i - from));
        assert(all.take(i - from + 1).last() == chars@[i as int]);
        if chars[i] == sep {
            if current.len() > 0 {
                parts.push(string_of(&current));
                assert(crate::ast::views(parts@) =~= before.push(current@));
            }
            current = Vec::new();
        } else {
            current.push(chars[i]);
        }
        i = i + 1;
    }
    assert(all.take(to - from) =~= all);
    if current.len() > 0 {
        let ghost before = crate::ast::views(parts@);
        parts.push(string_of(&current));
        assert(crate::ast::views(parts@) =~= before.push(current@));
    }
    parts
}

/// The dotted import path under the cursor on an `import` line: its non-empty
/// segments, when the cursor lies within the path and it has at least two.
pub open spec fn import_path_at(lines: Seq<Seq<char>>, position: Position) -> Option<
    Seq<Seq<char>>,
> {
    if position.line >= lines.len() {
        None
    } else {
        let line = lines[position.line as int];
        let k = leading_ws_from(line, 0);
        if !has_prefix(line.skip(k as int), "import "@) {
            None
        } else {
            let start = (k + 7) as int;
            let end = next_ascii_ws(line, start);
            let cursor = column_char_index(line, position.character as int);
            if cursor < start || cursor > end {
                None
            } else if split_nonempty(line.subrange(start, end), '.').len() >= 2 {
                Some(split_nonempty(line.subrange(start, end), '.'))
            } else {
                None
            }
        }
    }
}

proof fn lemma_next_ascii_ws_bound(s: Seq<char>, from: int)
    requires
        0 <= from <= s.len(),
    ensures
        from <= next_ascii_ws(s, from) <= s.len(),
    decreases s.len() - from,
{
    if from < s.len() && !is_ascii_ws_char(s[from]) {
        lemma_next_ascii_ws_bound(s, from + 1);
    }
}

/// The import path under `position` (see [`import_path_at`]). The cursor is
/// compared with the path by character index, which orders positions exactly as
/// byte offsets do.
pub fn import_path_at_position(text: &str, position: Position) -> (r: Option<Vec<String>>)
    ensures
        r matches Some(parts) ==> import_path_at(text_lines(text@), position) == Some(
            crate::ast::views(parts@),
        ),
        r is None ==> import_path_at(text_lines(text@), position) is None,
{
    let lines = split_lines(text);
    if position.line as usize >= lines.len() {
        return None;
    }
    let line = &lines[position.line as usize];
    assert(char_views(lines@)[position.line as int] == line@);
    let k = skip_leading_whitespace(line, 0, line.len());
    assert(line@.subrange(0, line.len() as int) =~= line@);
    proof {
        reveal_strlit("import ");
    }
    if !chars_start_with(line, k, "import ") {
        return None;
    }
    let start = k + 7;
    proof {
        lemma_next_ascii_ws_bound(line@, start as int);
    }
    let mut end = start;
    while end < line.len() && !(line[end] == ' ' || line[end] == '\t' || line[end] == '\n'
        || line[end] == '\x0C' || line[end] == '\r')
        invariant
            start <= end <= line.len(),
            next_ascii_ws(line@, end as int) == next_ascii_ws(line@, start as int),
        decreases line.len() - end,
    {
        end = end + 1;
    }
    let cursor = column_to_char_index(line, position.character);
    if cursor < start || cursor > end {
        return None;
    }
    let parts = split_segments(line, start, end, '.');
    if parts.len() >= 2 {
        Some(parts)
    } else {
        None
    }
}

/// Where the identifier around a cursor is anchored: the identifier character at
/// the cursor or just before it (at the end of the line, the last character or,
/// after a one-byte character, the one before). This follows the byte scan over
/// the line's UTF-8 text: identifier bytes are exactly the ASCII identifier
/// characters, and no byte of a longer character is one.
pub open spec fn ident_anchor(line: Seq<char>, cursor: nat) -> Option<nat> {
    let n = line.len();
    if n == 0 {
        None
    } else if cursor >= n {
        if is_ident_char(line[n - 1]) {
            Some((n - 1) as nat)
        } else if crate::text::utf8_width(line[n - 1]) == 1 && n >= 2 && is_ident_char(
            line[n - 2],
        ) {
            Some((n - 2) as nat)
        } else {
            None
        }
    } else if is_ident_char(line[cursor as int]) {
        Some(cursor)
    } else if cursor > 0 && is_ident_char(line[cursor - 1]) {
        Some((cursor - 1) as nat)
    } else {
        None
    }
}

/// Start of the run of identifier characters that ends at `k`.
pub open spec fn ident_run_start(line: Seq<char>, k: nat) -> nat
    decreases k,
{
    if k > 0 && k <= line.len() && is_ident_char(line[k - 1]) {
        ident_run_start(line, (k - 1) as nat)
    } else {
        k
    }
}

/// Last index of the run of identifier characters that starts at `k`.
pub open spec fn ident_run_end(line: Seq<char>, k: nat) -> nat
    decreases line.len() - k,
{
    if k + 1 < line.len() && is_ident_char(line[k + 1 as int]) {
        ident_run_end(line, k + 1)
    } else {
        k
    }
}

/// The range of the identifier around `position`, if there is one.
pub open spec fn identifier_range(lines: Seq<Seq<char>>, position: Position) -> Option<Range> {
    if position.line >= lines.len() {
        None
    } else {
        let line = lines[position.line as int];
        match ident_anchor(line, column_char_index(line, position.character as int)) {
            None => None,
            Some(a) => Some(
                Range {
                    start: Position {
                        line: position.line,
                        character: utf16_len(line.take(ident_run_start(line, a) as int)) as u32,
                    },
                    end: Position {
                        line: position.line,
                        character: utf16_len(line.take(ident_run_end(line, a) + 1 as int)) as u32,
                    },
                },
            ),
        }
    }
}

proof fn lemma_ident_run_bounds(line: Seq<char>, k: nat)
    requires
        k < line.len(),
    ensures
        ident_run_start(line, k) <= k,
        k <= ident_run_end(line, k) < line.len(),
    decreases line.len() - k,
{
    lemma_ident_run_start_bound(line, k);
    if k + 1 < line.len() && is_ident_char(line[k + 1 as int]) {
        lemma_ident_run_bounds(line, k + 1);
    }
}

proof fn lemma_ident_run_start_bound(line: Seq<char>, k: nat)
    ensures
        ident_run_start(line, k) <= k,
    decreases k,
{
    if k > 0 && k <= line.len() && is_ident_char(line[k - 1]) {
        lemma_ident_run_start_bound(line, (k - 1) as nat);
    }
}

/// UTF-16 length of `chars[..count]`.
fn utf16_prefix(chars: &Vec<char>, count: usize) -> (n: u128)
    requires
        count <= chars.len(),
    ensures
        n == utf16_len(chars@.take(count as int)),
{
    let mut n: u128 = 0;
    let mut i: usize = 0;
    while i < count
        invariant
            i <= count <= chars.len(),
            n == utf16_len(chars@.take(i as int)),
            n <= 2 * i,
        decreases count - i,
    {
        proof {
            lemma_len_take_step(chars@, i as int);
            lemma_len_take_bound(chars@, i + 1);
        }
        n = n + char_utf16_width(chars[i]) as u128;
        i = i + 1;
    }
    n
}

/// The range of the identifier at `position` (see [`identifier_range`]).
pub fn identifier_range_at_position(text: &str, position: Position) -> (r: Option<Range>)
    ensures
        r == identifier_range(text_lines(text@), position),
{
    let lines = split_lines(text);
    if position.line as usize >= lines.len() {
        return None;
    }
    let line = &lines[position.line as usize];
    assert(char_views(lines@)[position.line as int] == line@);
    let n = line.len();
    if n == 0 {
        return None;
    }
    let cursor = column_to_char_index(line, position.character);
    let anchor: usize;
    if cursor >= n {
        if ident_char(line[n - 1]) {
            anchor = n - 1;
        } else if crate::text::char_utf8_width(line[n - 1]) == 1 && n >= 2 && ident_char(
            line[n - 2],
        ) {
            anchor = n - 2;
        } else {
            return None;
        }
    } else if ident_char(line[cursor]) {
        anchor = cursor;
    } else if cursor > 0 && ident_char(line[cursor - 1]) {
        anchor = cursor - 1;
    } else {
        return None;
    }
    let mut start = anchor;
    while start > 0 && ident_char(line[start - 1])
        invariant
            start <= anchor < n == line.len(),
            ident_run_start(line@, start as nat) == ident_run_start(line@, anchor as nat),
        decreases start,
    {
        start = start - 1;
    }
    let mut end = anchor;
    while end + 1 < n && ident_char(line[end + 1])
        invariant
            anchor <= end < n == line.len(),
            ident_run_end(line@, end as nat) == ident_run_end(line@, anchor as nat),
        decreases n - end,
    {
        end = end + 1;
    }
    let start_character = utf16_prefix(line, start);
    let end_character = utf16_prefix(line, end + 1);
    Some(
        Range {
            start: Position {
                line: position.line,
                character: #[verifier::truncate] (start_character as u32),
            },
            end: Position {
                line: position.line,
                character: #[verifier::truncate] (end_character as u32),
            },
        },
    )
}

/// The range a module file's definition points at: the whole first line of its text.
pub open spec fn module_range(lines: Seq<Seq<char>>) -> Range {
    Range {
        start: Position { line: 0, character: 0 },
        end: Position {
            line: 0,
            character: if lines.len() > 0 {
                utf16_len(lines[0]) as u32
            } else {
                0
            },
        },
    }
}

/// The definition range of a module file with `text` (empty when it could not be read).
pub fn module_definition_range(text: &str) -> (r: Range)
    ensures
        r == module_range(text_lines(text@)),
{
    let lines = split_lines(text);
    let mut width: u128 = 0;
    if lines.len() > 0 {
        assert(char_views(lines@)[0] == lines@[0]@);
        width = utf16_prefix(&lines[0], lines[0].len());
        assert(lines@[0]@.take(lines@[0].len() as int) =~= lines@[0]@);
    }
    Range {
        start: Position { line: 0, character: 0 },
        end: Position { line: 0, character: #[verifier::truncate] (width as u32) },
    }
}

/// The text of the `file:` URL that `Url::from_file_path` makes of a path (`None`
/// where it gives an error). For a given build target it reads the path alone.
pub uninterp spec fn file_url(path: Seq<char>) -> Option<Seq<char>>;

/// `Url::from_file_path`, written out as text (`Display` gives the URL's
/// serialization): the contract names the result [`file_url`] of the path, and
/// states that a URL it gives starts with `file://`, which the crate writes first.
/// Which paths succeed (absolute ones, by the platform's rules) is left unsaid.
#[verifier::external_body]
pub(crate) fn file_uri(path: &String) -> (r: Option<String>)
    ensures
        r is None <==> file_url(path@) is None,
        r matches Some(u) ==> file_url(path@) == Some(u@),
        r matches Some(u) ==> u@.len() >= 7 && u@.take(7) == "file://"@,
{
    match tower_lsp::lsp_types::Url::from_file_path(path.as_str()) {
        Ok(uri) => Some(uri.to_string()),
        Err(()) => None,
    }
}

/// The location of `range` in the file at `path`: its URI (see [`file_url`]) with
/// the range; `None` when the path has no URI.
pub fn to_lsp_location(path: &String, range: Range) -> (r: Option<(String, Range)>)
    ensures
        r is None <==> file_url(path@) is None,
        r matches Some(l) ==> file_url(path@) == Some(l.0@) && l.1 == range,
{
    match file_uri(path) {
        Some(uri) => Some((uri, range)),
        None => None,
    }
}

/// Whether every file among `found` has a URI.
pub open spec fn all_located(found: Seq<(String, Range)>) -> bool {
    forall|i: int| 0 <= i < found.len() ==> (file_url(#[trigger] found[i].0@) is Some)
}

/// The locations of references found in files of a project (`None` when the search
/// failed): each as its file's URI with the range, in order; `None` when some file
/// has no URI.
pub fn locations_for_files(found: Option<Vec<(String, Range)>>) -> (r: Option<Vec<(String, Range)>>)
    ensures
        r is Some <==> (found matches Some(f) && all_located(f@)),
        r matches Some(v) ==> found matches Some(f) && v.len() == f.len() && forall|i: int|
            0 <= i < v.len() ==> file_url(f@[i].0@) == Some((#[trigger] v@[i]).0@) && v@[i].1
                == f@[i].1,
{
    let ghost given = found;
    let files = match found {
        Some(f) => f,
        None => return None,
    };
    let mut out: Vec<(String, Range)> = Vec::new();
    let mut i: usize = 0;
    while i < files.len()
        invariant
            given == Some(files),
            given == found,
            i <= files.len(),
            out.len() == i,
            forall|j: int| 0 <= j < i ==> (file_url(#[trigger] files@[j].0@) is Some),
            forall|j: int|
                0 <= j < i ==> file_url(files@[j].0@) == Some((#[trigger] out@[j]).0@) && out@[j].1
                    == files@[j].1,
        decreases files.len() - i,
    {
        match to_lsp_location(&files[i].0, files[i].1) {
            Some(l) => out.push(l),
            None => return None,
        }
        i = i + 1;
    }
    Some(out)
}

/// The references found in the current document alone (`None` when the search
/// failed): each range in the document `uri`.
pub fn references_for_text(uri: &String, ranges: Option<Vec<Range>>) -> (r: Option<Vec<(String, Range)>>)
    ensures
        ranges is None <==> r is None,
        r matches Some(v) ==> ranges matches Some(g) && v.len() == g.len() && forall|i: int|
            0 <= i < v.len() ==> (#[trigger] v@[i]).0@ == uri@ && v@[i].1 == g@[i],
{
    let ranges = match ranges {
        Some(g) => g,
        None => return None,
    };
    let mut out: Vec<(String, Range)> = Vec::new();
    let mut i: usize = 0;
    while i < ranges.len()
        invariant
            i <= ranges.len(),
            out.len() == i,
            forall|j: int| 0 <= j < i ==> (#[trigger] out@[j]).0@ == uri@ && out@[j].1 == ranges@[j],
        decreases ranges.len() - i,
    {
        out.push((uri.clone(), ranges[i]));
        i = i + 1;
    }
    Some(out)
}

/// The definition found in the current document alone (`None` when there is none):
/// its range in the document `uri`.
pub fn definition_for_text(uri: &String, range: Option<Range>) -> (r: Option<(String, Range)>)
    ensures
        range is None <==> r is None,
        r matches Some(l) ==> l.0@ == uri@ && range == Some(l.1),
{
    match range {
        Some(g) => Some((uri.clone(), g)),
        None => None,
    }
}

/// The range a rename at `position` would replace, given the references found there:
/// none when the search failed or found nothing, else the identifier's range.
pub fn prepare_rename_for_document(text: &str, position: Position, locations: Option<Vec<(String, Range)>>)
    -> (r: Option<Range>)
    ensures
        r == match locations {
            Some(l) => if l.len() == 0 {
                None
            } else {
                identifier_range(text_lines(text@), position)
            },
            None => None,
        },
{
    match locations {
        Some(l) => if l.len() == 0 {
            None
        } else {
            identifier_range_at_position(text, position)
        },
        None => None,
    }
}

/// The reserved words are exactly the keywords completion offers, and none of them
/// can name a declaration, so a rename to one is refused.
pub proof fn lemma_keywords_are_not_identifiers(s: Seq<char>, locations: Option<Vec<(String, Range)>>)
    ensures
        is_keyword(s) <==> crate::completion::keyword_list().contains(s),
        crate::completion::keyword_list().contains(s) ==> !nomo_identifier(s),
        crate::completion::keyword_list().contains(s) ==> !crate::rename::rename_applicable(
            s,
            locations,
        ),
{
    let kw = crate::completion::keyword_list();
    if kw.contains(s) {
        let i = choose|i: int| 0 <= i < kw.len() && kw[i] == s;
        assert(is_keyword(kw[i]));
    }
    if is_keyword(s) {
        if s == "package"@ { assert(kw[0] == s); }
        else if s == "import"@ { assert(kw[1] == s); }
        else if s == "pub"@ { assert(kw[2] == s); }
        else if s == "fn"@ { assert(kw[3] == s); }
        else if s == "struct"@ { assert(kw[4] == s); }
        else if s == "enum"@ { assert(kw[5] == s); }
        else if s == "interface"@ { assert(kw[6] == s); }
        else if s == "impl"@ { assert(kw[7] == s); }
        else if s == "extern"@ { assert(kw[8] == s); }
        else if s == "unsafe"@ { assert(kw[9] == s); }
        else if s == "let"@ { assert(kw[10] == s); }
        else if s == "mut"@ { assert(kw[11] == s); }
        else if s == "const"@ { assert(kw[12] == s); }
        else if s == "if"@ { assert(kw[13] == s); }
        else if s == "else"@ { assert(kw[14] == s); }
        else if s == "match"@ { assert(kw[15] == s); }
        else if s == "for"@ { assert(kw[16] == s); }
        else if s == "in"@ { assert(kw[17] == s); }
        else if s == "return"@ { assert(kw[18] == s); }
        else if s == "defer"@ { assert(kw[19] == s); }
        else if s == "break"@ { assert(kw[20] == s); }
        else if s == "continue"@ { assert(kw[21] == s); }
        else if s == "panic"@ { assert(kw[22] == s); }
        else if s == "as"@ { assert(kw[23] == s); }
        else if s == "true"@ { assert(kw[24] == s); }
        else if s == "false"@ { assert(kw[25] == s); }
        else { assert(kw[26] == s); }
    }
}

} // verus!
