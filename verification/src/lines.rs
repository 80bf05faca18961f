//! A document as a list of lines, the way `str::lines` splits it, and the
//! line-level checks several features share.
use vstd::prelude::*;
use vstd::string::*;
use crate::symbol::{has_prefix, chars_start_with, trimmed, trimmed_start, leading_ws_from,
    lemma_leading_ws_bound, lemma_trailing_ws_bound, trimmed_string, skip_leading_whitespace};
use crate::text::{find_newline, lemma_next_newline_bound, next_newline_from, slice_chars,
    text_chars};

verus! {

broadcast use vstd::seq_lib::group_seq_properties;

/// The line from `start` up to the line break at `newline`, without a carriage
/// return just before the break.
pub open spec fn terminated_line(s: Seq<char>, start: nat, newline: nat) -> Seq<char> {
    let l = s.subrange(start as int, newline as int);
    if l.len() > 0 && l.last() == '\r' {
        l.drop_last()
    } else {
        l
    }
}

/// The lines of `s` from index `start` on: each line break ends a line (dropping a
/// `\r` before it), and text after the last break forms a final line.
pub open spec fn lines_from(s: Seq<char>, start: nat) -> Seq<Seq<char>>
    decreases s.len() - start,
{
    if start >= s.len() {
        Seq::empty()
    } else {
        proof {
            lemma_next_newline_bound(s, start);
        }
        match next_newline_from(s, start) {
            Some(newline) => seq![terminated_line(s, start, newline)] + lines_from(s, newline + 1),
            None => seq![s.subrange(start as int, s.len() as int)],
        }
    }
}

/// `str::lines`: the lines of `s`.
pub open spec fn text_lines(s: Seq<char>) -> Seq<Seq<char>> {
    lines_from(s, 0)
}

/// The character sequences of a list of character vectors.
pub open spec fn char_views(v: Seq<Vec<char>>) -> Seq<Seq<char>> {
    v.map_values(|l: Vec<char>| l@)
}

/// The lines of `text`, as characters.
pub fn split_lines(text: &str) -> (lines: Vec<Vec<char>>)
    ensures
        char_views(lines@) == text_lines(text@),
        forall|i: int| 0 <= i < lines.len() ==> crate::text::utf8_len(#[trigger] lines@[i]@)
            <= usize::MAX,
{
    let chars = text_chars(text);
    let mut lines: Vec<Vec<char>> = Vec::new();
    let mut start: usize = 0;
    assert(char_views(lines@) + lines_from(chars@, 0) =~= text_lines(text@));
    while start < chars.len()
        invariant
            start <= chars.len(),
            chars@ == text@,
            crate::text::utf8_len(chars@) <= usize::MAX,
            char_views(lines@) + lines_from(chars@, start as nat) == text_lines(text@),
            forall|i: int| 0 <= i < lines.len() ==> crate::text::utf8_len(#[trigger] lines@[i]@)
                <= usize::MAX,
        decreases chars.len() - start,
    {
        let ghost before = char_views(lines@);
        proof {
            lemma_next_newline_bound(chars@, start as nat);
        }
        match find_newline(&chars, start) {
            Some(newline) => {
                let mut end = newline;
                if end > start && chars[end - 1] == '\r' {
                    end = end - 1;
                }
                let line = slice_chars(&chars, start, end);
                proof {
                    crate::text::lemma_utf8_len_subrange(chars@, start as int, end as int);
                    let l = chars@.subrange(start as int, newline as int);
                    if newline > start && chars@[newline - 1] == '\r' {
                        assert(l.drop_last() =~= chars@.subrange(start as int, end as int));
                    } else {
                        assert(l =~= chars@.subrange(start as int, end as int));
                    }
                }
                lines.push(line);
                assert(char_views(lines@) =~= before.push(
                    terminated_line(chars@, start as nat, newline as nat),
                ));
                start = newline + 1;
            },
            None => {
                let line = slice_chars(&chars, start, chars.len());
                proof {
                    crate::text::lemma_utf8_len_subrange(chars@, start as int, chars.len() as int);
                }
                lines.push(line);
                assert(char_views(lines@) =~= before.push(
                    chars@.subrange(start as int, chars.len() as int),
                ));
                assert(lines_from(chars@, chars.len() as nat) =~= Seq::<Seq<char>>::empty());
                start = chars.len();
            },
        }
    }
    lines
}

/// The first segment of `s` before a `.` (all of `s` when it has none).
pub open spec fn first_segment(s: Seq<char>) -> Seq<char>
    decreases s.len(),
{
    if s.len() == 0 {
        s
    } else if s[0] == '.' {
        Seq::empty()
    } else {
        seq![s[0]] + first_segment(s.drop_first())
    }
}

/// The package root a line declares: the first dotted segment after `package `,
/// when the trimmed line starts with `package ` and the segment is not empty.
pub open spec fn package_root(line: Seq<char>) -> Option<Seq<char>> {
    let t = trimmed(line);
    if has_prefix(t, "package "@) && first_segment(t.skip(8)).len() > 0 {
        Some(first_segment(t.skip(8)))
    } else {
        None
    }
}

/// The package root of the first line that declares one.
pub open spec fn first_package_root(lines: Seq<Seq<char>>) -> Option<Seq<char>>
    decreases lines.len(),
{
    if lines.len() == 0 {
        None
    } else {
        match package_root(lines[0]) {
            Some(r) => Some(r),
            None => first_package_root(lines.drop_first()),
        }
    }
}

/// The characters of `chars[from..]` up to the first `.`.
fn segment_before_dot(chars: &Vec<char>, from: usize) -> (r: Vec<char>)
    requires
        from <= chars.len(),
    ensures
        r@ == first_segment(chars@.skip(from as int)),
{
    let mut i = from;
    while i < chars.len() && chars[i] != '.'
        invariant
            from <= i <= chars.len(),
            first_segment(chars@.skip(from as int)) == chars@.subrange(from as int, i as int)
                + first_segment(chars@.skip(i as int)),
        decreases chars.len() - i,
    {
        assert(chars@.skip(i as int).drop_first() =~= chars@.skip(i + 1));
        assert(chars@.subrange(from as int, i + 1) =~= chars@.subrange(from as int, i as int)
            + seq![chars@[i as int]]);
        i = i + 1;
    }
    assert(first_segment(chars@.skip(i as int)) =~= Seq::<char>::empty());
    slice_chars(chars, from, i)
}

/// The package root a line declares (see [`package_root`]).
fn line_package_root(line: &Vec<char>) -> (r: Option<String>)
    ensures
        r matches Some(s) ==> package_root(line@) == Some(s@),
        r is None ==> package_root(line@) is None,
{
    let t = trimmed_string(line, 0, line.len());
    assert(line@.subrange(0, line.len() as int) =~= line@);
    let chars = text_chars(t.as_str());
    proof {
        reveal_strlit("package ");
    }
    if !chars_start_with(&chars, 0, "package ") {
        assert(chars@.skip(0) =~= chars@);
        return None;
    }
    assert(chars@.skip(0) =~= chars@);
    let segment = segment_before_dot(&chars, 8);
    if segment.len() == 0 {
        return None;
    }
    let mut root = String::new();
    let mut i: usize = 0;
    while i < segment.len()
        invariant
            i <= segment.len(),
            root@ == segment@.take(i as int),
        decreases segment.len() - i,
    {
        crate::text::push_char(&mut root, segment[i]);
        assert(root@ =~= segment@.take(i + 1));
        i = i + 1;
    }
    assert(segment@.take(segment.len() as int) =~= segment@);
    Some(root)
}

/// The root of the package the document declares: the first segment of the name on
/// its first `package` line.
pub fn local_import_root(text: &str) -> (r: Option<String>)
    ensures
        r matches Some(s) ==> first_package_root(text_lines(text@)) == Some(s@),
        r is None ==> first_package_root(text_lines(text@)) is None,
{
    let lines = split_lines(text);
    let ghost lv = char_views(lines@);
    let mut i: usize = 0;
    while i < lines.len()
        invariant
            i <= lines.len(),
            lv == char_views(lines@),
            lv == text_lines(text@),
            first_package_root(lv.skip(i as int)) == first_package_root(lv),
        decreases lines.len() - i,
    {
        assert(lv.skip(i as int)[0] == lines@[i as int]@);
        assert(lv.skip(i as int).drop_first() =~= lv.skip(i + 1));
        match line_package_root(&lines[i]) {
            Some(root) => {
                return Some(root);
            },
            None => {},
        }
        i = i + 1;
    }
    assert(lv.skip(i as int).len() == 0);
    None
}

} // verus!
