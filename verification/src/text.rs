//! Text geometry shared by every editor feature: UTF-8 byte offsets,
//! UTF-16 columns (the unit LSP positions count in), line/column positions,
//! and the conversion between them.
use vstd::prelude::*;
use vstd::string::*;
use vstd::utf8::*;

verus! {

broadcast use vstd::seq_lib::group_seq_properties;

/// A zero-based LSP position: a line and a UTF-16 column within that line.
#[derive(Clone, Copy, Debug, PartialEq, Eq, Structural)]
pub struct Position {
    pub line: u32,
    pub character: u32,
}

/// A half-open LSP range.
#[derive(Clone, Copy, Debug, PartialEq, Eq, Structural)]
pub struct Range {
    pub start: Position,
    pub end: Position,
}

/// Replacement of the text in `range` by `new_text`.
#[derive(Clone, Debug)]
pub struct TextEdit {
    pub range: Range,
    pub new_text: String,
}

/// Number of UTF-16 code units of `c`.
pub open spec fn utf16_width(c: char) -> nat {
    if (c as u32) < 0x10000 {
        1
    } else {
        2
    }
}

/// Number of UTF-8 bytes of `c`.
pub open spec fn utf8_width(c: char) -> nat {
    if (c as u32) < 0x80 {
        1
    } else if (c as u32) < 0x800 {
        2
    } else if (c as u32) < 0x10000 {
        3
    } else {
        4
    }
}

/// Length of `s` in UTF-16 code units.
pub open spec fn utf16_len(s: Seq<char>) -> nat
    decreases s.len(),
{
    if s.len() == 0 {
        0
    } else {
        utf16_len(s.drop_last()) + utf16_width(s.last())
    }
}

/// Length of `s` in UTF-8 bytes.
pub open spec fn utf8_len(s: Seq<char>) -> nat
    decreases s.len(),
{
    if s.len() == 0 {
        0
    } else {
        utf8_len(s.drop_last()) + utf8_width(s.last())
    }
}

pub proof fn lemma_utf16_len_concat(a: Seq<char>, b: Seq<char>)
    ensures
        utf16_len(a + b) == utf16_len(a) + utf16_len(b),
    decreases b.len(),
{
    if b.len() > 0 {
        assert((a + b).drop_last() =~= a + b.drop_last());
        lemma_utf16_len_concat(a, b.drop_last());
    } else {
        assert(a + b =~= a);
    }
}

pub proof fn lemma_utf8_len_concat(a: Seq<char>, b: Seq<char>)
    ensures
        utf8_len(a + b) == utf8_len(a) + utf8_len(b),
    decreases b.len(),
{
    if b.len() > 0 {
        assert((a + b).drop_last() =~= a + b.drop_last());
        lemma_utf8_len_concat(a, b.drop_last());
    } else {
        assert(a + b =~= a);
    }
}

/// Prefix lengths grow by the width of the next character.
pub proof fn lemma_len_take_step(s: Seq<char>, i: int)
    requires
        0 <= i < s.len(),
    ensures
        utf16_len(s.take(i + 1)) == utf16_len(s.take(i)) + utf16_width(s[i]),
        utf8_len(s.take(i + 1)) == utf8_len(s.take(i)) + utf8_width(s[i]),
{
    assert(s.take(i + 1).drop_last() =~= s.take(i));
}

/// A prefix is never longer than the whole text.
pub proof fn lemma_len_take_bound(s: Seq<char>, i: int)
    requires
        0 <= i <= s.len(),
    ensures
        utf16_len(s.take(i)) <= utf16_len(s),
        utf8_len(s.take(i)) <= utf8_len(s),
        i <= utf16_len(s.take(i)) <= 2 * i,
        i <= utf8_len(s.take(i)) <= 4 * i,
    decreases i,
{
    assert(s =~= s.take(i) + s.skip(i));
    lemma_utf16_len_concat(s.take(i), s.skip(i));
    lemma_utf8_len_concat(s.take(i), s.skip(i));
    if i > 0 {
        lemma_len_take_bound(s, i - 1);
        lemma_len_take_step(s, i - 1);
    }
}

/// Prefix lengths strictly grow with the prefix.
pub proof fn lemma_len_take_monotone(s: Seq<char>, i: int, j: int)
    requires
        0 <= i < j <= s.len(),
    ensures
        utf16_len(s.take(i)) < utf16_len(s.take(j)),
        utf8_len(s.take(i)) < utf8_len(s.take(j)),
    decreases j - i,
{
    lemma_len_take_step(s, j - 1);
    if i < j - 1 {
        lemma_len_take_monotone(s, i, j - 1);
    }
}

/// A piece of a text is never longer in bytes than the text.
pub proof fn lemma_utf8_len_subrange(s: Seq<char>, a: int, b: int)
    requires
        0 <= a <= b <= s.len(),
    ensures
        utf8_len(s.subrange(a, b)) <= utf8_len(s),
{
    assert(s.take(b) =~= s.take(a) + s.subrange(a, b));
    lemma_utf8_len_concat(s.take(a), s.subrange(a, b));
    lemma_len_take_bound(s, b);
}

/// A text never has more UTF-16 units than UTF-8 bytes.
pub proof fn lemma_utf16_le_utf8(s: Seq<char>)
    ensures
        utf16_len(s) <= utf8_len(s),
    decreases s.len(),
{
    if s.len() > 0 {
        lemma_utf16_le_utf8(s.drop_last());
    }
}

/// The byte length of a string's UTF-8 encoding is its `utf8_len`.
pub proof fn lemma_utf8_len_encoding(s: Seq<char>)
    ensures
        encode_utf8(s).len() == utf8_len(s),
    decreases s.len(),
{
    if s.len() > 0 {
        lemma_utf8_len_encoding(s.drop_first());
        assert(s =~= seq![s[0]] + s.drop_first());
        lemma_utf8_len_concat(seq![s[0]], s.drop_first());
        assert(seq![s[0]].drop_last() =~= Seq::<char>::empty());
        char_is_scalar(s[0]);
        let v = #[verifier::truncate] (s[0] as u32);
        assert(encode_scalar(v).len() == utf8_width(s[0])) by {
            if v < 0x80 {
            } else if v < 0x800 {
            } else if v < 0x10000 {
            } else {
            }
        }
        let one = seq![s[0]];
        assert(one.last() == s[0]);
        assert(utf8_len(one.drop_last()) == 0);
        assert(utf8_len(one) == utf8_width(s[0]));
        assert(encode_utf8(s) == encode_scalar(v) + encode_utf8(s.drop_first()));
    }
}

/// UTF-16 width of one character, as `char::len_utf16` computes it.
pub fn char_utf16_width(c: char) -> (n: usize)
    ensures
        n == utf16_width(c),
{
    if (c as u32) < 0x10000 {
        1
    } else {
        2
    }
}

/// UTF-8 width of one character, as `char::len_utf8` computes it.
pub fn char_utf8_width(c: char) -> (n: usize)
    ensures
        n == utf8_width(c),
{
    let v = c as u32;
    if v < 0x80 {
        1
    } else if v < 0x800 {
        2
    } else if v < 0x10000 {
        3
    } else {
        4
    }
}

/// The characters of `s`, in order.
pub fn chars_of(s: &str) -> (v: Vec<char>)
    ensures
        v@ == s@,
{
    let mut v: Vec<char> = Vec::new();
    for c in it: s.chars()
        invariant
            v@ == it.seq().take(it.index() as int),
    {
        v.push(c);
    }
    v
}

/// Appends one character (`String::push`).
#[verifier::external_body]
pub(crate) fn push_char(s: &mut String, c: char)
    ensures
        final(s)@ == old(s)@.push(c),
{
    s.push(c);
}

/// A string holding exactly the characters `chars[from..to]`.
pub fn string_from_chars(chars: &Vec<char>, from: usize, to: usize) -> (s: String)
    requires
        from <= to <= chars.len(),
    ensures
        s@ == chars@.subrange(from as int, to as int),
{
    let mut s = String::new();
    let mut i = from;
    while i < to
        invariant
            from <= i <= to <= chars.len(),
            s@ == chars@.subrange(from as int, i as int),
        decreases to - i,
    {
        push_char(&mut s, chars[i]);
        i = i + 1;
        assert(s@ =~= chars@.subrange(from as int, i as int));
    }
    s
}

/// The UTF-8 byte length of `chars[..count]`.
pub fn utf8_prefix_len(chars: &Vec<char>, count: usize) -> (n: usize)
    requires
        count <= chars.len(),
        utf8_len(chars@) <= usize::MAX,
    ensures
        n == utf8_len(chars@.take(count as int)),
{
    let mut n: usize = 0;
    let mut i: usize = 0;
    while i < count
        invariant
            i <= count <= chars.len(),
            utf8_len(chars@) <= usize::MAX,
            n == utf8_len(chars@.take(i as int)),
        decreases count - i,
    {
        proof {
            lemma_len_take_step(chars@, i as int);
            lemma_len_take_bound(chars@, i + 1);
        }
        n = n + char_utf8_width(chars[i]);
        i = i + 1;
    }
    n
}

/// The characters of `text` together with the fact that its byte length fits in `usize`.
pub fn text_chars(text: &str) -> (v: Vec<char>)
    ensures
        v@ == text@,
        utf8_len(v@) <= usize::MAX,
{
    let v = chars_of(text);
    proof {
        lemma_utf8_len_encoding(text@);
    }
    let bytes = text.as_bytes();
    let n = bytes.len();
    assert(n == utf8_len(v@));
    v
}

/// Index of the first character of `s` (at or after `from`) before which at least
/// `column` UTF-16 units lie, or `s.len()` if there is none.
pub open spec fn column_char_index_from(s: Seq<char>, column: int, from: nat) -> nat
    decreases s.len() - from,
{
    if from >= s.len() || utf16_len(s.take(from as int)) >= column {
        from
    } else {
        column_char_index_from(s, column, from + 1)
    }
}

/// The character index that UTF-16 column `column` of line `s` designates.
pub open spec fn column_char_index(s: Seq<char>, column: int) -> nat {
    column_char_index_from(s, column, 0)
}

proof fn lemma_column_char_index_bound(s: Seq<char>, column: int, from: nat)
    requires
        from <= s.len(),
    ensures
        from <= column_char_index_from(s, column, from) <= s.len(),
    decreases s.len() - from,
{
    if from < s.len() && utf16_len(s.take(from as int)) < column {
        lemma_column_char_index_bound(s, column, from + 1);
    }
}

/// Char index (within `line`) for UTF-16 column `character`: the first character
/// whose start column reaches `character`, or the line's length.
pub fn column_to_char_index(line: &Vec<char>, character: u32) -> (k: usize)
    ensures
        k == column_char_index(line@, character as int),
        k <= line.len(),
{
    let mut count: u64 = 0;
    let mut i: usize = 0;
    proof {
        lemma_column_char_index_bound(line@, character as int, 0);
    }
    while i < line.len()
        invariant
            i <= line.len(),
            count == utf16_len(line@.take(i as int)),
            column_char_index_from(line@, character as int, i as nat) == column_char_index(
                line@,
                character as int,
            ),
        decreases line.len() - i,
    {
        if count >= character as u64 {
            return i;
        }
        proof {
            lemma_len_take_step(line@, i as int);
            lemma_len_take_bound(line@, i + 1);
        }
        count = count + char_utf16_width(line[i]) as u64;
        i = i + 1;
    }
    i
}

/// Byte offset inside `line` of UTF-16 column `character` (the line's byte length
/// when the column lies past its end).
pub fn utf16_character_to_byte_index(line: &str, character: u32) -> (index: usize)
    ensures
        index == utf8_len(line@.take(column_char_index(line@, character as int) as int)),
{
    let chars = text_chars(line);
    let k = column_to_char_index(&chars, character);
    utf8_prefix_len(&chars, k)
}

/// The position (zero-based line, UTF-16 column) just after the text `s`.
pub open spec fn end_position(s: Seq<char>) -> (nat, nat)
    decreases s.len(),
{
    if s.len() == 0 {
        (0, 0)
    } else {
        let p = end_position(s.drop_last());
        if s.last() == '\n' {
            (p.0 + 1, 0)
        } else {
            (p.0, p.1 + utf16_width(s.last()))
        }
    }
}

/// Whether every position inside `s` fits the `u32` fields of an LSP position: no
/// more than `u32::MAX` line breaks, and no line wider than `u32::MAX` UTF-16 units.
pub open spec fn fits_positions(s: Seq<char>) -> bool {
    forall|k: int|
        #![trigger end_position(s.take(k))]
        0 <= k <= s.len() ==> end_position(s.take(k)).0 <= u32::MAX && end_position(s.take(k)).1
            <= u32::MAX
}

/// The positions inside a prefix of a text are positions inside the text.
pub proof fn lemma_fits_positions_prefix(s: Seq<char>, n: int, m: int)
    requires
        0 <= m <= n <= s.len(),
        fits_positions(s.take(n)),
    ensures
        fits_positions(s.take(m)),
{
    assert forall|k: int| #![trigger end_position(s.take(m).take(k))]
        0 <= k <= m implies end_position(s.take(m).take(k)).0 <= u32::MAX && end_position(
            s.take(m).take(k),
        ).1 <= u32::MAX by {
        assert(s.take(m).take(k) =~= s.take(n).take(k));
    }
}

/// The LSP position reached after the characters `s`.
pub open spec fn position_after(s: Seq<char>) -> Position {
    Position { line: end_position(s).0 as u32, character: end_position(s).1 as u32 }
}

/// Position after the first `count` characters of `chars`.
fn position_after_chars(chars: &Vec<char>, count: usize) -> (p: Position)
    requires
        count <= chars.len(),
        fits_positions(chars@.take(count as int)),
    ensures
        p == position_after(chars@.take(count as int)),
{
    let mut line: u32 = 0;
    let mut character: u32 = 0;
    let mut i: usize = 0;
    while i < count
        invariant
            i <= count <= chars.len(),
            fits_positions(chars@.take(count as int)),
            line == end_position(chars@.take(i as int)).0,
            character == end_position(chars@.take(i as int)).1,
        decreases count - i,
    {
        proof {
            assert(chars@.take(i + 1).drop_last() =~= chars@.take(i as int));
            assert(chars@.take(count as int).take(i + 1) =~= chars@.take(i + 1));
            assert(end_position(chars@.take(count as int).take(i + 1)).0 <= u32::MAX);
        }
        let c = chars[i];
        if c == '\n' {
            line = line + 1;
            character = 0;
        } else {
            character = character + char_utf16_width(c) as u32;
        }
        i = i + 1;
    }
    Position { line, character }
}

/// Index of the first character of `s` at or after `from` whose byte offset reaches
/// `target`, or `s.len()`.
pub open spec fn byte_char_index_from(s: Seq<char>, target: int, from: nat) -> nat
    decreases s.len() - from,
{
    if from >= s.len() || utf8_len(s.take(from as int)) >= target {
        from
    } else {
        byte_char_index_from(s, target, from + 1)
    }
}

pub proof fn lemma_byte_char_index_bound(s: Seq<char>, target: int, from: nat)
    requires
        from <= s.len(),
    ensures
        from <= byte_char_index_from(s, target, from) <= s.len(),
    decreases s.len() - from,
{
    if from < s.len() && utf8_len(s.take(from as int)) < target {
        lemma_byte_char_index_bound(s, target, from + 1);
    }
}

/// Position of byte offset `target` in `text`: the position after every character
/// that starts before `target`.
pub fn byte_index_to_position(text: &str, target: usize) -> (p: Position)
    requires
        fits_positions(text@.take(byte_char_index_from(text@, target as int, 0) as int)),
    ensures
        p == position_after(text@.take(byte_char_index_from(text@, target as int, 0) as int)),
{
    let chars = text_chars(text);
    let mut bytes: usize = 0;
    let mut i: usize = 0;
    proof {
        lemma_byte_char_index_bound(chars@, target as int, 0);
    }
    while i < chars.len() && bytes < target
        invariant
            i <= chars.len(),
            chars@ == text@,
            utf8_len(chars@) <= usize::MAX,
            bytes == utf8_len(chars@.take(i as int)),
            byte_char_index_from(chars@, target as int, i as nat) == byte_char_index_from(
                chars@,
                target as int,
                0,
            ),
        decreases chars.len() - i,
    {
        proof {
            lemma_len_take_step(chars@, i as int);
            lemma_len_take_bound(chars@, i + 1);
        }
        bytes = bytes + char_utf8_width(chars[i]);
        i = i + 1;
    }
    position_after_chars(&chars, i)
}

/// The range of the byte span `start..end` of `text`.
pub fn byte_range_to_lsp_range(text: &str, start: usize, end: usize) -> (r: Range)
    requires
        fits_positions(text@.take(byte_char_index_from(text@, start as int, 0) as int)),
        fits_positions(text@.take(byte_char_index_from(text@, end as int, 0) as int)),
    ensures
        r.start == position_after(text@.take(byte_char_index_from(text@, start as int, 0) as int)),
        r.end == position_after(text@.take(byte_char_index_from(text@, end as int, 0) as int)),
{
    Range { start: byte_index_to_position(text, start), end: byte_index_to_position(text, end) }
}

/// The range covering all of `text`: from the origin to the position after its last character.
pub fn full_document_range(text: &str) -> (r: Range)
    requires
        fits_positions(text@),
    ensures
        r.start == (Position { line: 0, character: 0 }),
        r.end == position_after(text@),
{
    let chars = chars_of(text);
    assert(chars@.take(chars.len() as int) =~= chars@);
    let end = position_after_chars(&chars, chars.len());
    Range { start: Position { line: 0, character: 0 }, end }
}

/// Strict order of positions: by line, then by column.
pub open spec fn position_lt(a: Position, b: Position) -> bool {
    a.line < b.line || (a.line == b.line && a.character < b.character)
}

/// Whether `a` strictly precedes `b`.
pub fn position_before(a: Position, b: Position) -> (lt: bool)
    ensures
        lt == position_lt(a, b),
{
    a.line < b.line || (a.line == b.line && a.character < b.character)
}

/// Whether two ranges share at least one position (touching ends do not count).
pub fn ranges_overlap(left: &Range, right: &Range) -> (b: bool)
    ensures
        b == (position_lt(right.start, left.end) && position_lt(left.start, right.end)),
{
    position_before(right.start, left.end) && position_before(left.start, right.end)
}

/// Whether `position` lies in the half-open `range`.
pub fn position_in_range(position: Position, range: &Range) -> (b: bool)
    ensures
        b == (!position_lt(position, range.start) && position_lt(position, range.end)),
{
    !position_before(position, range.start) && position_before(position, range.end)
}

/// Converts an optional natural number to `usize`.
pub open spec fn to_usize_opt(o: Option<nat>) -> Option<usize> {
    match o {
        Some(n) => Some(n as usize),
        None => None,
    }
}

/// Byte offset of an optional character index.
pub open spec fn byte_offset_of(s: Seq<char>, o: Option<nat>) -> Option<usize> {
    match o {
        Some(n) => Some(utf8_len(s.take(n as int)) as usize),
        None => None,
    }
}

/// Index of the first line break of `s` at or after `from`.
pub open spec fn next_newline_from(s: Seq<char>, from: nat) -> Option<nat>
    decreases s.len() - from,
{
    if from >= s.len() {
        None
    } else if s[from as int] == '\n' {
        Some(from)
    } else {
        next_newline_from(s, from + 1)
    }
}

/// Character index where zero-based line `line` of `s` starts, if `s` has that many lines.
pub open spec fn line_start(s: Seq<char>, line: nat) -> Option<nat>
    decreases line,
{
    if line == 0 {
        Some(0)
    } else {
        match line_start(s, (line - 1) as nat) {
            Some(start) => match next_newline_from(s, start) {
                Some(newline) => Some(newline + 1),
                None => None,
            },
            None => None,
        }
    }
}

/// Character index where the line starting at `start` ends (its line break, or the end of `s`).
pub open spec fn line_end(s: Seq<char>, start: nat) -> nat {
    match next_newline_from(s, start) {
        Some(newline) => newline,
        None => s.len(),
    }
}

/// Character index that `position` designates in `s`; `None` when the line does not
/// exist or the column lies past the end of its line.
pub open spec fn position_char_index(s: Seq<char>, position: Position) -> Option<nat> {
    match line_start(s, position.line as nat) {
        Some(start) => {
            let line = s.subrange(start as int, line_end(s, start) as int);
            if position.character > utf16_len(line) {
                None
            } else {
                Some(start + column_char_index(line, position.character as int))
            }
        },
        None => None,
    }
}

pub proof fn lemma_next_newline_bound(s: Seq<char>, from: nat)
    ensures
        next_newline_from(s, from) matches Some(n) ==> from <= n < s.len() && s[n as int] == '\n'
            && forall|j: int| from <= j < n ==> s[j] != '\n',
        next_newline_from(s, from) is None ==> forall|j: int| from <= j < s.len() ==> s[j] != '\n',
    decreases s.len() - from,
{
    if from < s.len() && s[from as int] != '\n' {
        lemma_next_newline_bound(s, from + 1);
    }
}

proof fn lemma_line_start_bound(s: Seq<char>, line: nat)
    ensures
        line_start(s, line) matches Some(st) ==> st <= s.len(),
    decreases line,
{
    if line > 0 {
        lemma_line_start_bound(s, (line - 1) as nat);
        if let Some(st) = line_start(s, (line - 1) as nat) {
            lemma_next_newline_bound(s, st);
        }
    }
}

/// First line break of `chars` at or after `from`.
pub fn find_newline(chars: &Vec<char>, from: usize) -> (r: Option<usize>)
    requires
        from <= chars.len(),
    ensures
        r matches Some(n) ==> from <= n < chars.len() && next_newline_from(chars@, from as nat)
            == Some(n as nat),
        r is None ==> next_newline_from(chars@, from as nat) is None,
{
    let mut i = from;
    while i < chars.len()
        invariant
            from <= i <= chars.len(),
            next_newline_from(chars@, i as nat) == next_newline_from(chars@, from as nat),
        decreases chars.len() - i,
    {
        if chars[i] == '\n' {
            proof {
                lemma_next_newline_bound(chars@, i as nat);
            }
            return Some(i);
        }
        i = i + 1;
    }
    None
}

/// Character index of `position` in `chars` (see [`position_char_index`]).
pub fn position_to_char_index(chars: &Vec<char>, position: Position) -> (r: Option<usize>)
    ensures
        r == to_usize_opt(position_char_index(chars@, position)),
        r matches Some(n) ==> n <= chars.len(),
{
    let mut start: usize = 0;
    let mut line: u32 = 0;
    while line < position.line
        invariant
            line <= position.line,
            start <= chars.len(),
            line_start(chars@, line as nat) == Some(start as nat),
        decreases position.line - line,
    {
        match find_newline(chars, start) {
            Some(newline) => {
                proof {
                    lemma_line_start_succ(chars@, line as nat);
                }
                start = newline + 1;
            },
            None => {
                proof {
                    lemma_line_start_succ(chars@, line as nat);
                    lemma_line_start_none_stays(chars@, (line + 1) as nat, position.line as nat);
                }
                return None;
            },
        }
        line = line + 1;
    }
    let end = match find_newline(chars, start) {
        Some(newline) => newline,
        None => chars.len(),
    };
    let line_chars = slice_chars(chars, start, end);
    let ghost lc = chars@.subrange(start as int, line_end(chars@, start as nat) as int);
    assert(line_chars@ == lc);
    let mut width: u64 = 0;
    let mut i: usize = 0;
    while i < line_chars.len() && width < position.character as u64
        invariant
            i <= line_chars.len(),
            width == utf16_len(line_chars@.take(i as int)),
            width <= position.character as u64 + 2,
        decreases line_chars.len() - i,
    {
        proof {
            lemma_len_take_step(line_chars@, i as int);
        }
        width = width + char_utf16_width(line_chars[i]) as u64;
        i = i + 1;
    }
    if width < position.character as u64 {
        assert(line_chars@.take(i as int) =~= line_chars@);
        return None;
    }
    proof {
        lemma_len_take_bound(line_chars@, i as int);
        assert(line_chars@ =~= line_chars@.take(i as int) + line_chars@.skip(i as int));
        lemma_utf16_len_concat(line_chars@.take(i as int), line_chars@.skip(i as int));
        lemma_column_char_index_bound(line_chars@, position.character as int, 0);
    }
    let k = column_to_char_index(&line_chars, position.character);
    Some(start + k)
}

proof fn lemma_line_start_succ(s: Seq<char>, line: nat)
    ensures
        line_start(s, line + 1) == match line_start(s, line) {
            Some(start) => match next_newline_from(s, start) {
                Some(newline) => Some(newline + 1),
                None => None,
            },
            None => None,
        },
{
    assert((line + 1 - 1) as nat == line);
}

proof fn lemma_position_char_index_bound(s: Seq<char>, position: Position)
    ensures
        position_char_index(s, position) matches Some(n) ==> n <= s.len(),
{
    lemma_line_start_bound(s, position.line as nat);
    if let Some(start) = line_start(s, position.line as nat) {
        lemma_next_newline_bound(s, start);
        let line = s.subrange(start as int, line_end(s, start) as int);
        lemma_column_char_index_bound(line, position.character as int, 0);
    }
}

proof fn lemma_line_start_none_stays(s: Seq<char>, from: nat, to: nat)
    requires
        from <= to,
        line_start(s, from) is None,
    ensures
        line_start(s, to) is None,
    decreases to - from,
{
    if from < to {
        lemma_line_start_none_stays(s, from, (to - 1) as nat);
    }
}

/// A new vector holding `chars[from..to]`.
pub fn slice_chars(chars: &Vec<char>, from: usize, to: usize) -> (v: Vec<char>)
    requires
        from <= to <= chars.len(),
    ensures
        v@ == chars@.subrange(from as int, to as int),
{
    let mut v: Vec<char> = Vec::new();
    let mut i = from;
    while i < to
        invariant
            from <= i <= to <= chars.len(),
            v@ == chars@.subrange(from as int, i as int),
        decreases to - i,
    {
        v.push(chars[i]);
        i = i + 1;
    }
    v
}

/// Byte offset of `position` in `text` (`None` when it lies outside the text).
pub fn position_to_byte_offset(text: &str, position: Position) -> (r: Option<usize>)
    ensures
        r == byte_offset_of(text@, position_char_index(text@, position)),
{
    let chars = text_chars(text);
    proof {
        lemma_position_char_index_bound(text@, position);
    }
    match position_to_char_index(&chars, position) {
        Some(k) => Some(utf8_prefix_len(&chars, k)),
        None => None,
    }
}

/// Whether `c` is ASCII whitespace (space, tab, line feed, form feed, carriage return).
pub open spec fn is_ascii_whitespace_byte(c: u8) -> bool {
    c == 0x20 || c == 0x09 || c == 0x0A || c == 0x0C || c == 0x0D
}

/// First byte index at or after `from` that is not ASCII whitespace (or `from` itself
/// when it lies past the end).
pub open spec fn skip_whitespace_from(bytes: Seq<u8>, from: int) -> int
    decreases bytes.len() - from,
{
    if 0 <= from < bytes.len() && is_ascii_whitespace_byte(bytes[from]) {
        skip_whitespace_from(bytes, from + 1)
    } else {
        from
    }
}

/// Whether `c` is ASCII whitespace.
pub fn is_ascii_whitespace(c: u8) -> (r: bool)
    ensures
        r == is_ascii_whitespace_byte(c),
{
    c == 0x20 || c == 0x09 || c == 0x0A || c == 0x0C || c == 0x0D
}

/// Advances `byte_index` past ASCII whitespace in `text`.
pub fn skip_ascii_whitespace(text: &str, byte_index: usize) -> (r: usize)
    ensures
        r == skip_whitespace_from(text.spec_bytes(), byte_index as int),
{
    let bytes = text.as_bytes();
    let mut i = byte_index;
    while i < bytes.len() && is_ascii_whitespace(bytes[i])
        invariant
            byte_index <= i,
            bytes@ == text.spec_bytes(),
            skip_whitespace_from(bytes@, i as int) == skip_whitespace_from(bytes@, byte_index as int),
        decreases bytes.len() - i,
    {
        i = i + 1;
    }
    i
}

/// ASCII letters, digits and underscore.
pub open spec fn is_ident_byte_spec(b: u8) -> bool {
    (0x30 <= b <= 0x39) || (0x41 <= b <= 0x5A) || (0x61 <= b <= 0x7A) || b == 0x5F
}

/// Whether `byte` can be part of an identifier.
pub fn is_ident_byte(byte: u8) -> (r: bool)
    ensures
        r == is_ident_byte_spec(byte),
{
    (0x30 <= byte && byte <= 0x39) || (0x41 <= byte && byte <= 0x5A) || (0x61 <= byte && byte
        <= 0x7A) || byte == 0x5F
}

proof fn lemma_next_newline_exact(s: Seq<char>, from: nat, k: nat)
    requires
        from <= k < s.len(),
        s[k as int] == '\n',
        forall|j: int| from <= j < k ==> s[j] != '\n',
    ensures
        next_newline_from(s, from) == Some(k),
    decreases k - from,
{
    if from < k {
        lemma_next_newline_exact(s, from + 1, k);
    }
}

proof fn lemma_column_char_index_exact(line: Seq<char>, m: nat, from: nat)
    requires
        from <= m <= line.len(),
    ensures
        column_char_index_from(line, utf16_len(line.take(m as int)) as int, from) == m,
    decreases m - from,
{
    if from < m {
        lemma_len_take_monotone(line, from as int, m as int);
        lemma_column_char_index_exact(line, m, from + 1);
    }
}

/// The line containing character index `i` starts at some `ls <= i` with no line
/// break in between, and `end_position` counts lines and columns accordingly.
proof fn lemma_end_position_line(s: Seq<char>, i: nat) -> (ls: nat)
    requires
        i <= s.len(),
    ensures
        ls <= i,
        line_start(s, end_position(s.take(i as int)).0) == Some(ls),
        forall|j: int| ls <= j < i ==> s[j] != '\n',
        end_position(s.take(i as int)).1 == utf16_len(s.subrange(ls as int, i as int)),
    decreases i,
{
    if i == 0 {
        assert(s.subrange(0, 0) =~= Seq::<char>::empty());
        0
    } else {
        let k = (i - 1) as nat;
        let prev = lemma_end_position_line(s, k);
        assert(s.take(i as int).drop_last() =~= s.take(k as int));
        let n = end_position(s.take(k as int)).0;
        if s[k as int] == '\n' {
            lemma_next_newline_exact(s, prev, k);
            lemma_line_start_succ(s, n);
            assert(s.subrange(i as int, i as int) =~= Seq::<char>::empty());
            i
        } else {
            assert(s.subrange(prev as int, i as int).drop_last() =~= s.subrange(
                prev as int,
                k as int,
            ));
            prev
        }
    }
}

/// Converting a position back to a character index recovers the index it was computed from.
pub proof fn lemma_position_roundtrip(s: Seq<char>, i: nat)
    requires
        i <= s.len(),
        fits_positions(s.take(i as int)),
    ensures
        position_char_index(s, position_after(s.take(i as int))) == Some(i),
{
    let ls = lemma_end_position_line(s, i);
    let t = s.take(i as int);
    assert(t.take(i as int) =~= t);
    assert(end_position(t.take(i as int)).0 <= u32::MAX);
    let p = position_after(t);
    assert(p.line as nat == end_position(t).0);
    assert(p.character as nat == end_position(t).1);
    lemma_next_newline_bound(s, ls);
    let le = line_end(s, ls);
    assert(i <= le);
    let line = s.subrange(ls as int, le as int);
    let m = (i - ls) as nat;
    assert(line.take(m as int) =~= s.subrange(ls as int, i as int));
    lemma_len_take_bound(line, m as int);
    lemma_column_char_index_exact(line, m, 0);
}

/// Length of the longest common prefix of `a` and `b` starting the search at `i`.
pub open spec fn common_prefix_from(a: Seq<char>, b: Seq<char>, i: nat) -> nat
    decreases a.len() - i,
{
    if i < a.len() && i < b.len() && a[i as int] == b[i as int] {
        common_prefix_from(a, b, i + 1)
    } else {
        i
    }
}

/// Length of the longest common prefix of `a` and `b`.
pub open spec fn common_prefix(a: Seq<char>, b: Seq<char>) -> nat {
    common_prefix_from(a, b, 0)
}

/// Length of the longest common suffix of `a` and `b` that leaves at least `floor`
/// characters in front of it in both, counting from `k` already matched characters.
pub open spec fn common_suffix_from(a: Seq<char>, b: Seq<char>, floor: nat, k: nat) -> nat
    decreases a.len() - k,
{
    if k + floor < a.len() && k + floor < b.len() && a[a.len() - 1 - k] == b[b.len() - 1 - k] {
        common_suffix_from(a, b, floor, k + 1)
    } else {
        k
    }
}

/// Length of the common suffix that the minimal edit keeps after the common prefix.
pub open spec fn common_suffix(a: Seq<char>, b: Seq<char>) -> nat {
    common_suffix_from(a, b, common_prefix(a, b), 0)
}

proof fn lemma_common_prefix(a: Seq<char>, b: Seq<char>, i: nat)
    requires
        i <= a.len(),
        i <= b.len(),
        a.take(i as int) =~= b.take(i as int),
    ensures
        i <= common_prefix_from(a, b, i) <= a.len(),
        common_prefix_from(a, b, i) <= b.len(),
        a.take(common_prefix_from(a, b, i) as int) =~= b.take(common_prefix_from(a, b, i) as int),
    decreases a.len() - i,
{
    if i < a.len() && i < b.len() && a[i as int] == b[i as int] {
        assert(a.take((i + 1) as int) =~= a.take(i as int).push(a[i as int]));
        assert(b.take((i + 1) as int) =~= b.take(i as int).push(b[i as int]));
        lemma_common_prefix(a, b, i + 1);
    }
}

proof fn lemma_common_suffix(a: Seq<char>, b: Seq<char>, floor: nat, k: nat)
    requires
        k + floor <= a.len(),
        k + floor <= b.len(),
        a.skip(a.len() - k) =~= b.skip(b.len() - k),
    ensures
        k <= common_suffix_from(a, b, floor, k),
        common_suffix_from(a, b, floor, k) + floor <= a.len(),
        common_suffix_from(a, b, floor, k) + floor <= b.len(),
        a.skip(a.len() - common_suffix_from(a, b, floor, k)) =~= b.skip(
            b.len() - common_suffix_from(a, b, floor, k),
        ),
    decreases a.len() - k,
{
    if k + floor < a.len() && k + floor < b.len() && a[a.len() - 1 - k] == b[b.len() - 1 - k] {
        assert(a.skip(a.len() - (k + 1)) =~= seq![a[a.len() - 1 - k]] + a.skip(a.len() - k));
        assert(b.skip(b.len() - (k + 1)) =~= seq![b[b.len() - 1 - k]] + b.skip(b.len() - k));
        lemma_common_suffix(a, b, floor, k + 1);
    }
}

/// Replacing the differing middle of `a` by that of `b` turns `a` into `b`.
pub proof fn lemma_minimal_edit_reconstructs(a: Seq<char>, b: Seq<char>)
    ensures
        common_prefix(a, b) + common_suffix(a, b) <= a.len(),
        common_prefix(a, b) + common_suffix(a, b) <= b.len(),
        a.take(common_prefix(a, b) as int) + b.subrange(
            common_prefix(a, b) as int,
            b.len() - common_suffix(a, b),
        ) + a.skip(a.len() - common_suffix(a, b)) =~= b,
{
    lemma_common_prefix(a, b, 0);
    let p = common_prefix(a, b);
    lemma_common_suffix(a, b, p, 0);
    let k = common_suffix(a, b);
    assert(b =~= b.take(p as int) + b.subrange(p as int, b.len() - k) + b.skip(b.len() - k));
}

/// Whether two character sequences are identical.
pub fn chars_equal(a: &Vec<char>, b: &Vec<char>) -> (r: bool)
    ensures
        r == (a@ == b@),
{
    if a.len() != b.len() {
        return false;
    }
    let mut i: usize = 0;
    while i < a.len()
        invariant
            a.len() == b.len(),
            i <= a.len(),
            forall|j: int| 0 <= j < i ==> a@[j] == b@[j],
        decreases a.len() - i,
    {
        if a[i] != b[i] {
            return false;
        }
        i = i + 1;
    }
    assert(a@ =~= b@);
    true
}

/// The lengths of the longest common prefix of `a` and `b` and of the longest
/// common suffix that leaves that prefix in place.
fn common_affix_lengths(a: &Vec<char>, b: &Vec<char>) -> (r: (usize, usize))
    ensures
        r.0 == common_prefix(a@, b@),
        r.1 == common_suffix(a@, b@),
        r.0 + r.1 <= a.len(),
        r.0 + r.1 <= b.len(),
{
    let mut prefix: usize = 0;
    while prefix < a.len() && prefix < b.len() && a[prefix] == b[prefix]
        invariant
            prefix <= a.len(),
            prefix <= b.len(),
            common_prefix_from(a@, b@, prefix as nat) == common_prefix(a@, b@),
        decreases a.len() - prefix,
    {
        prefix = prefix + 1;
    }
    let mut k: usize = 0;
    while k + prefix < a.len() && k + prefix < b.len() && a[a.len() - 1 - k] == b[b.len() - 1
        - k]
        invariant
            prefix == common_prefix(a@, b@),
            k + prefix <= a.len(),
            k + prefix <= b.len(),
            common_suffix_from(a@, b@, prefix as nat, k as nat) == common_suffix(a@, b@),
        decreases a.len() - k,
    {
        k = k + 1;
    }
    (prefix, k)
}

/// Whether every position inside the first `n` characters fits an LSP position
/// (see [`fits_positions`]).
fn prefix_positions_fit(chars: &Vec<char>, n: usize) -> (b: bool)
    requires
        n <= chars.len(),
    ensures
        b == fits_positions(chars@.take(n as int)),
{
    let mut line: u32 = 0;
    let mut character: u32 = 0;
    let mut i: usize = 0;
    assert(chars@.take(0).take(0) =~= Seq::<char>::empty());
    while i < n
        invariant
            i <= n <= chars.len(),
            fits_positions(chars@.take(i as int)),
            line == end_position(chars@.take(i as int)).0,
            character == end_position(chars@.take(i as int)).1,
        decreases n - i,
    {
        let ghost next = chars@.take(i + 1);
        assert(next.drop_last() =~= chars@.take(i as int));
        assert(next.take(i + 1) =~= next);
        assert(chars@.take(n as int).take(i + 1) =~= next);
        let c = chars[i];
        if c == '\n' {
            if line == u32::MAX {
                assert(end_position(chars@.take(n as int).take(i + 1)).0 > u32::MAX);
                return false;
            }
            line = line + 1;
            character = 0;
        } else {
            let w = char_utf16_width(c) as u32;
            if character > u32::MAX - w {
                assert(end_position(chars@.take(n as int).take(i + 1)).1 > u32::MAX);
                return false;
            }
            character = character + w;
        }
        assert forall|k: int| #![trigger end_position(next.take(k))]
            0 <= k <= i + 1 implies end_position(next.take(k)).0 <= u32::MAX && end_position(
                next.take(k),
            ).1 <= u32::MAX by {
            if k <= i {
                assert(next.take(k) =~= chars@.take(i as int).take(k));
            }
        }
        i = i + 1;
    }
    true
}

/// Whether every position inside `text` fits an LSP position (see
/// [`fits_positions`]).
pub fn text_positions_fit(text: &str) -> (b: bool)
    ensures
        b == fits_positions(text@),
{
    let chars = chars_of(text);
    assert(chars@.take(chars.len() as int) =~= chars@);
    prefix_positions_fit(&chars, chars.len())
}

/// Whether the minimal edit between `original` and `formatted` can be placed:
/// every position up to the end of the part they do not share fits an LSP
/// position (see [`minimal_formatting_edit`]).
pub fn formatting_positions_fit(original: &str, formatted: &str) -> (b: bool)
    ensures
        b == (original@ != formatted@ ==> fits_positions(
            original@.take(original@.len() - common_suffix(original@, formatted@)),
        )),
{
    let a = chars_of(original);
    let b = chars_of(formatted);
    if chars_equal(&a, &b) {
        return true;
    }
    let (_, k) = common_affix_lengths(&a, &b);
    prefix_positions_fit(&a, a.len() - k)
}

/// The smallest single edit turning `original` into `formatted`: it keeps their common
/// prefix and their common suffix and replaces only what lies between. `None` when
/// the texts are identical.
pub fn minimal_formatting_edit(original: &str, formatted: &str) -> (r: Option<TextEdit>)
    requires
        original@ != formatted@ ==> fits_positions(
            original@.take(original@.len() - common_suffix(original@, formatted@)),
        ),
    ensures
        r is None <==> original@ == formatted@,
        r matches Some(edit) ==> {
            let p = common_prefix(original@, formatted@);
            let k = common_suffix(original@, formatted@);
            &&& edit.range.start == position_after(original@.take(p as int))
            &&& edit.range.end == position_after(original@.take(original@.len() - k))
            &&& edit.new_text@ == formatted@.subrange(p as int, formatted@.len() - k)
        },
{
    let a = chars_of(original);
    let b = chars_of(formatted);
    if chars_equal(&a, &b) {
        return None;
    }
    let (prefix, k) = common_affix_lengths(&a, &b);
    proof {
        lemma_fits_positions_prefix(a@, a.len() - k, prefix as int);
    }
    let start = position_after_chars(&a, prefix);
    let end = position_after_chars(&a, a.len() - k);
    let new_text = string_from_chars(&b, prefix, b.len() - k);
    Some(TextEdit { range: Range { start, end }, new_text })
}

/// Character span `(start, end)` that an edit's range designates in `s`.
pub open spec fn edit_span(s: Seq<char>, e: TextEdit) -> Option<(nat, nat)> {
    match (position_char_index(s, e.range.start), position_char_index(s, e.range.end)) {
        (Some(a), Some(b)) => Some((a, b)),
        _ => None,
    }
}

/// The spans of all edits, each tagged with the edit's index; `None` if any range
/// lies outside `s`.
pub open spec fn edit_spans(s: Seq<char>, edits: Seq<TextEdit>) -> Option<Seq<(nat, nat, nat)>>
    decreases edits.len(),
{
    if edits.len() == 0 {
        Some(Seq::empty())
    } else {
        match (edit_spans(s, edits.drop_last()), edit_span(s, edits.last())) {
            (Some(v), Some(span)) => Some(v.push((span.0, span.1, (edits.len() - 1) as nat))),
            _ => None,
        }
    }
}

/// Whether span `x` sorts no later than `y` in descending (start, end) order.
pub open spec fn span_key_ge(x: (nat, nat, nat), y: (nat, nat, nat)) -> bool {
    x.0 > y.0 || (x.0 == y.0 && x.1 >= y.1)
}

/// Where `x` goes in the descending sequence `sorted`: after every span whose key is
/// at least its own (so equal keys keep their order).
pub open spec fn insertion_index(sorted: Seq<(nat, nat, nat)>, x: (nat, nat, nat), from: nat) -> nat
    decreases sorted.len() - from,
{
    if from < sorted.len() && span_key_ge(sorted[from as int], x) {
        insertion_index(sorted, x, from + 1)
    } else {
        from
    }
}

/// Stable sort of spans by descending (start, end).
pub open spec fn sort_spans_desc(v: Seq<(nat, nat, nat)>) -> Seq<(nat, nat, nat)>
    decreases v.len(),
{
    if v.len() == 0 {
        v
    } else {
        let sorted = sort_spans_desc(v.drop_last());
        sorted.insert(insertion_index(sorted, v.last(), 0) as int, v.last())
    }
}

/// Applies the first `k` sorted spans from the end of the text backwards; each must
/// be well formed and end no later than where the previous one started.
pub open spec fn apply_sorted_spans(
    s: Seq<char>,
    spans: Seq<(nat, nat, nat)>,
    edits: Seq<TextEdit>,
    k: nat,
) -> Option<(Seq<char>, nat)>
    decreases k,
{
    if k == 0 {
        Some((s, s.len()))
    } else {
        match apply_sorted_spans(s, spans, edits, (k - 1) as nat) {
            Some((t, previous_start)) => {
                let span = spans[k - 1];
                if span.0 > span.1 || span.1 > previous_start {
                    None
                } else {
                    Some(
                        (
                            t.take(span.0 as int) + edits[span.2 as int].new_text@ + t.skip(
                                span.1 as int,
                            ),
                            span.0,
                        ),
                    )
                }
            },
            None => None,
        }
    }
}

/// The text that results from applying `edits` to `s`, or `None` when a range lies
/// outside the text or two edits overlap.
pub open spec fn applied_edits(s: Seq<char>, edits: Seq<TextEdit>) -> Option<Seq<char>> {
    match edit_spans(s, edits) {
        Some(v) => match apply_sorted_spans(s, sort_spans_desc(v), edits, v.len()) {
            Some((t, _)) => Some(t),
            None => None,
        },
        None => None,
    }
}

/// The spans held in executable form, viewed as natural numbers.
pub open spec fn span_view(v: Seq<(usize, usize, usize)>) -> Seq<(nat, nat, nat)> {
    v.map_values(|x: (usize, usize, usize)| (x.0 as nat, x.1 as nat, x.2 as nat))
}

proof fn lemma_edit_spans_none_stays(s: Seq<char>, edits: Seq<TextEdit>, i: nat, j: nat)
    requires
        i <= j <= edits.len(),
        edit_spans(s, edits.take(i as int)) is None,
    ensures
        edit_spans(s, edits.take(j as int)) is None,
    decreases j - i,
{
    if i < j {
        lemma_edit_spans_none_stays(s, edits, i, (j - 1) as nat);
        assert(edits.take(j as int).drop_last() =~= edits.take(j - 1));
    }
}

proof fn lemma_apply_none_stays(
    s: Seq<char>,
    spans: Seq<(nat, nat, nat)>,
    edits: Seq<TextEdit>,
    i: nat,
    j: nat,
)
    requires
        i <= j,
        apply_sorted_spans(s, spans, edits, i) is None,
    ensures
        apply_sorted_spans(s, spans, edits, j) is None,
    decreases j - i,
{
    if i < j {
        lemma_apply_none_stays(s, spans, edits, i, (j - 1) as nat);
    }
}

proof fn lemma_apply_step(s: Seq<char>, spans: Seq<(nat, nat, nat)>, edits: Seq<TextEdit>, k: nat)
    ensures
        apply_sorted_spans(s, spans, edits, k + 1) == match apply_sorted_spans(s, spans, edits, k) {
            Some((t, previous_start)) => {
                let span = spans[k as int];
                if span.0 > span.1 || span.1 > previous_start {
                    None
                } else {
                    Some(
                        (
                            t.take(span.0 as int) + edits[span.2 as int].new_text@ + t.skip(
                                span.1 as int,
                            ),
                            span.0,
                        ),
                    )
                }
            },
            None => None,
        },
{
    assert((k + 1 - 1) as nat == k);
}

/// `t[..a] + inserted + t[b..]`.
pub fn splice_chars(t: &Vec<char>, a: usize, b: usize, inserted: &Vec<char>) -> (r: Vec<char>)
    requires
        a <= b <= t.len(),
    ensures
        r@ == t@.take(a as int) + inserted@ + t@.skip(b as int),
{
    let mut r: Vec<char> = Vec::new();
    let mut i: usize = 0;
    while i < a
        invariant
            i <= a <= b <= t.len(),
            r@ == t@.take(i as int),
        decreases a - i,
    {
        r.push(t[i]);
        i = i + 1;
    }
    let mut j: usize = 0;
    while j < inserted.len()
        invariant
            j <= inserted.len(),
            r@ == t@.take(a as int) + inserted@.take(j as int),
        decreases inserted.len() - j,
    {
        r.push(inserted[j]);
        j = j + 1;
    }
    let mut k: usize = b;
    while k < t.len()
        invariant
            b <= k <= t.len(),
            r@ == t@.take(a as int) + inserted@ + t@.subrange(b as int, k as int),
        decreases t.len() - k,
    {
        r.push(t[k]);
        k = k + 1;
    }
    r
}

/// Whether span `y` sorts no later than `x` (see [`span_key_ge`]).
fn span_sorts_before(y: (usize, usize, usize), x: (usize, usize, usize)) -> (b: bool)
    ensures
        b == span_key_ge((y.0 as nat, y.1 as nat, y.2 as nat), (x.0 as nat, x.1 as nat, x.2 as nat)),
{
    y.0 > x.0 || (y.0 == x.0 && y.1 >= x.1)
}

proof fn lemma_insertion_index_step(sorted: Seq<(nat, nat, nat)>, x: (nat, nat, nat), j: nat)
    requires
        j < sorted.len(),
    ensures
        span_key_ge(sorted[j as int], x) ==> insertion_index(sorted, x, j) == insertion_index(sorted, x, j + 1),
        !span_key_ge(sorted[j as int], x) ==> insertion_index(sorted, x, j) == j,
{
}

/// Index where `x` is inserted into the descending `sorted` (see [`insertion_index`]).
fn find_insertion_index(sorted: &Vec<(usize, usize, usize)>, x: (usize, usize, usize)) -> (j: usize)
    ensures
        j == insertion_index(span_view(sorted@), (x.0 as nat, x.1 as nat, x.2 as nat), 0),
        j <= sorted.len(),
{
    let ghost vx = (x.0 as nat, x.1 as nat, x.2 as nat);
    let ghost sv = span_view(sorted@);
    assert(sv.len() == sorted@.len());
    let mut j: usize = 0;
    while j < sorted.len()
        invariant
            j <= sorted.len(),
            sv == span_view(sorted@),
            sv.len() == sorted@.len(),
            insertion_index(sv, vx, j as nat) == insertion_index(sv, vx, 0),
            vx == (x.0 as nat, x.1 as nat, x.2 as nat),
        decreases sorted.len() - j,
    {
        let y = sorted[j];
        assert(sv[j as int] == (y.0 as nat, y.1 as nat, y.2 as nat));
        proof {
            lemma_insertion_index_step(sv, vx, j as nat);
        }
        let before = span_sorts_before(y, x);
        assert(before == span_key_ge(sv[j as int], vx));
        if !before {
            return j;
        }
        j = j + 1;
    }
    j
}

/// Sorts spans by descending (start, end), keeping equal keys in their given order.
fn sort_spans(spans: &Vec<(usize, usize, usize)>, bound: usize) -> (sorted: Vec<
    (usize, usize, usize),
>)
    requires
        forall|j: int| 0 <= j < spans.len() ==> spans@[j].2 < bound,
    ensures
        span_view(sorted@) == sort_spans_desc(span_view(spans@)),
        sorted.len() == spans.len(),
        forall|j: int| 0 <= j < sorted.len() ==> sorted@[j].2 < bound,
{
    let mut sorted: Vec<(usize, usize, usize)> = Vec::new();
    let mut i: usize = 0;
    while i < spans.len()
        invariant
            i <= spans.len(),
            span_view(sorted@) == sort_spans_desc(span_view(spans@.take(i as int))),
            sorted.len() == i,
            forall|j: int| 0 <= j < spans.len() ==> spans@[j].2 < bound,
            forall|j: int| 0 <= j < sorted.len() ==> sorted@[j].2 < bound,
        decreases spans.len() - i,
    {
        let x = spans[i];
        let ghost vx = (x.0 as nat, x.1 as nat, x.2 as nat);
        let j = find_insertion_index(&sorted, x);
        proof {
            let prefix = span_view(spans@.take(i + 1));
            assert(prefix.drop_last() =~= span_view(spans@.take(i as int)));
            assert(prefix.last() == vx);
        }
        sorted.insert(j, x);
        assert(span_view(sorted@) =~= sort_spans_desc(span_view(spans@.take(i + 1))));
        i = i + 1;
    }
    assert(spans@.take(spans.len() as int) =~= spans@);
    sorted
}

/// Character span of one edit in `chars`.
fn edit_span_of(chars: &Vec<char>, edit: &TextEdit) -> (r: Option<(usize, usize)>)
    ensures
        match r {
            Some((a, b)) => edit_span(chars@, *edit) == Some((a as nat, b as nat)) && a <= chars.len()
                && b <= chars.len(),
            None => edit_span(chars@, *edit) is None,
        },
{
    proof {
        lemma_position_char_index_bound(chars@, edit.range.start);
        lemma_position_char_index_bound(chars@, edit.range.end);
    }
    let start = position_to_char_index(chars, edit.range.start);
    let end = position_to_char_index(chars, edit.range.end);
    match (start, end) {
        (Some(a), Some(b)) => Some((a, b)),
        _ => None,
    }
}

/// The spans of all edits in `chars` (see [`edit_spans`]).
#[verifier::rlimit(40)]
fn collect_spans(chars: &Vec<char>, edits: &[TextEdit]) -> (r: Option<Vec<(usize, usize, usize)>>)
    ensures
        match r {
            Some(spans) => edit_spans(chars@, edits@) == Some(span_view(spans@)) && forall|j: int|
                0 <= j < spans.len() ==> spans@[j].2 < edits.len(),
            None => edit_spans(chars@, edits@) is None,
        },
{
    let mut spans: Vec<(usize, usize, usize)> = Vec::new();
    let mut i: usize = 0;
    while i < edits.len()
        invariant
            i <= edits.len(),
            edit_spans(chars@, edits@.take(i as int)) == Some(span_view(spans@)),
            forall|j: int| 0 <= j < spans.len() ==> spans@[j].2 < i,
        decreases edits.len() - i,
    {
        let span = edit_span_of(chars, &edits[i]);
        proof {
            assert(edits@.take(i + 1).drop_last() =~= edits@.take(i as int));
            assert(edits@.take(i + 1).last() == edits@[i as int]);
        }
        match span {
            Some((a, b)) => {
                let ghost before = spans@;
                spans.push((a, b, i));
                assert(span_view(spans@) =~= span_view(before).push((a as nat, b as nat, i as nat)));
            },
            None => {
                proof {
                    lemma_edit_spans_none_stays(chars@, edits@, (i + 1) as nat, edits@.len() as nat);
                    assert(edits@.take(edits@.len() as int) =~= edits@);
                }
                return None;
            },
        }
        i = i + 1;
    }
    assert(edits@.take(edits@.len() as int) =~= edits@);
    Some(spans)
}

/// Replaces the sorted spans of `chars` one after another, from the end backwards.
fn apply_spans(chars: &Vec<char>, sorted: &Vec<(usize, usize, usize)>, edits: &[TextEdit]) -> (r:
    Option<Vec<char>>)
    requires
        forall|j: int| 0 <= j < sorted.len() ==> sorted@[j].2 < edits.len(),
    ensures
        match r {
            Some(t) => apply_sorted_spans(chars@, span_view(sorted@), edits@, sorted.len() as nat)
                matches Some((u, _)) && u == t@,
            None => apply_sorted_spans(chars@, span_view(sorted@), edits@, sorted.len() as nat) is None,
        },
{
    let ghost source = chars@;
    let ghost sv = span_view(sorted@);
    assert(sv.len() == sorted.len());
    let mut text = slice_chars(chars, 0, chars.len());
    assert(text@ =~= source);
    let mut previous_start: usize = text.len();
    let mut k: usize = 0;
    while k < sorted.len()
        invariant
            k <= sorted.len(),
            sv == span_view(sorted@),
            apply_sorted_spans(source, sv, edits@, k as nat) == Some((text@, previous_start as nat)),
            source == chars@,
            sv.len() == sorted.len(),
            previous_start <= text.len(),
            forall|j: int| 0 <= j < sorted.len() ==> sorted@[j].2 < edits.len(),
        decreases sorted.len() - k,
    {
        let (a, b, idx) = sorted[k];
        assert(sv[k as int] == (a as nat, b as nat, idx as nat));
        if a > b || b > previous_start {
            proof {
                lemma_apply_step(source, sv, edits@, k as nat);
                lemma_apply_none_stays(source, sv, edits@, (k + 1) as nat, sv.len());
            }
            return None;
        }
        let inserted = chars_of(edits[idx].new_text.as_str());
        proof {
            lemma_apply_step(source, sv, edits@, k as nat);
        }
        text = splice_chars(&text, a, b, &inserted);
        previous_start = a;
        k = k + 1;
    }
    Some(text)
}

/// Applies `edits` to `source`: every range is converted to a character span, the
/// spans are sorted from the end of the text backwards, and each one replaces its
/// span provided it does not overlap the one applied before it.
pub fn apply_text_edits(source: &str, edits: &[TextEdit]) -> (r: Option<String>)
    ensures
        match r {
            Some(t) => applied_edits(source@, edits@) == Some(t@),
            None => applied_edits(source@, edits@) is None,
        },
{
    let chars = chars_of(source);
    let spans = match collect_spans(&chars, edits) {
        Some(spans) => spans,
        None => return None,
    };
    let sorted = sort_spans(&spans, edits.len());
    match apply_spans(&chars, &sorted, edits) {
        Some(text) => Some(string_from_chars(&text, 0, text.len())),
        None => None,
    }
}

} // verus!
