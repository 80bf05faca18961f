//! Turning the formatter's output into editor edits: the whole document for
//! document formatting, the smallest differing region for range formatting.
use vstd::prelude::*;

use crate::text::{
    applied_edits, apply_sorted_spans, chars_equal, chars_of, common_prefix, common_suffix,
    edit_span, edit_spans, fits_positions, full_document_range, lemma_minimal_edit_reconstructs,
    lemma_fits_positions_prefix, lemma_position_roundtrip, minimal_formatting_edit, position_after, position_char_index,
    position_lt, ranges_overlap, sort_spans_desc, Position, Range, TextEdit,
};

verus! {

/// The range of the whole document `text`.
pub open spec fn whole_range(text: Seq<char>) -> Range {
    Range { start: Position { line: 0, character: 0 }, end: position_after(text) }
}

/// Edits that bring `text` to `formatted`, the formatter's output for it (`None`
/// when the formatter rejected the text): no edit when the text is already
/// formatted, otherwise a single edit replacing the whole document.
pub fn formatting_edits_for_text(text: &str, formatted: Option<String>) -> (r: Option<Vec<TextEdit>>)
    requires
        formatted matches Some(f) ==> (f@ != text@ ==> fits_positions(text@)),
    ensures
        formatted is None <==> r is None,
        formatted matches Some(f) ==> r matches Some(edits) && (f@ == text@ ==> edits.len() == 0) && (
        f@ != text@ ==> edits.len() == 1 && edits[0].range == whole_range(text@)
            && edits[0].new_text@ == f@),
{
    let formatted = match formatted {
        Some(f) => f,
        None => return None,
    };
    let original_chars = chars_of(text);
    let formatted_chars = chars_of(formatted.as_str());
    if chars_equal(&original_chars, &formatted_chars) {
        return Some(Vec::new());
    }
    let range = full_document_range(text);
    let mut edits: Vec<TextEdit> = Vec::new();
    edits.push(TextEdit { range, new_text: formatted });
    Some(edits)
}

/// Edits for formatting only the part of `text` inside `range`: the smallest edit
/// between `text` and `formatted`, kept only when it overlaps `range`.
pub fn range_formatting_edits_for_text(text: &str, formatted: Option<String>, range: Range) -> (r:
    Option<Vec<TextEdit>>)
    requires
        formatted matches Some(f) ==> (f@ != text@ ==> fits_positions(
            text@.take(text@.len() - common_suffix(text@, f@)),
        )),
    ensures
        formatted is None <==> r is None,
        formatted matches Some(f) ==> r matches Some(edits) && edits.len() <= 1 && (f@ == text@
            ==> edits.len() == 0) && (f@ != text@ ==> {
            let p = common_prefix(text@, f@);
            let k = common_suffix(text@, f@);
            let start = position_after(text@.take(p as int));
            let end = position_after(text@.take(text@.len() - k));
            &&& (edits.len() == 1 <==> (position_lt(range.start, end) && position_lt(
                start,
                range.end,
            )))
            &&& edits.len() == 1 ==> edits[0].range == (Range { start, end })
                && edits[0].new_text@ == f@.subrange(p as int, f@.len() - k)
        }),
{
    let formatted = match formatted {
        Some(f) => f,
        None => return None,
    };
    let edit = match minimal_formatting_edit(text, formatted.as_str()) {
        Some(edit) => edit,
        None => return Some(Vec::new()),
    };
    let mut edits: Vec<TextEdit> = Vec::new();
    if ranges_overlap(&edit.range, &range) {
        edits.push(edit);
    }
    Some(edits)
}

/// Applying no edit leaves the text unchanged.
pub proof fn lemma_no_edits_apply(text: Seq<char>)
    ensures
        applied_edits(text, Seq::empty()) == Some(text),
{
    assert(sort_spans_desc(Seq::<(nat, nat, nat)>::empty()) =~= Seq::<(nat, nat, nat)>::empty());
}

proof fn lemma_single_edit_apply(text: Seq<char>, e: TextEdit, a: nat, b: nat)
    requires
        a <= b <= text.len(),
        position_char_index(text, e.range.start) == Some(a),
        position_char_index(text, e.range.end) == Some(b),
    ensures
        applied_edits(text, seq![e]) == Some(text.take(a as int) + e.new_text@ + text.skip(b as int)),
{
    let edits = seq![e];
    assert(edits.drop_last() =~= Seq::<TextEdit>::empty());
    let v = Seq::<(nat, nat, nat)>::empty().push((a, b, 0nat));
    assert(edit_spans(text, edits.drop_last()) == Some(Seq::<(nat, nat, nat)>::empty()));
    assert(edits.last() == e);
    assert(edit_span(text, e) == Some((a, b)));
    assert(edit_spans(text, edits) == Some(v));
    assert(sort_spans_desc(Seq::<(nat, nat, nat)>::empty()) =~= Seq::<(nat, nat, nat)>::empty());
    assert(v.drop_last() =~= Seq::<(nat, nat, nat)>::empty());
    assert(sort_spans_desc(v) =~= v);
    assert(apply_sorted_spans(text, v, edits, 0) == Some((text, text.len())));
}

/// A document formatting edit (whole range, formatter output as text) turns the
/// document into the formatter's output.
pub proof fn lemma_full_document_edit_applies(text: Seq<char>, e: TextEdit)
    requires
        fits_positions(text),
        e.range == whole_range(text),
    ensures
        applied_edits(text, seq![e]) == Some(e.new_text@),
{
    assert(text.take(text.len() as int) =~= text);
    lemma_fits_positions_prefix(text, text.len() as int, 0);
    lemma_position_roundtrip(text, 0);
    assert(text.take(0) =~= Seq::<char>::empty());
    assert(position_after(Seq::<char>::empty()) == (Position { line: 0, character: 0 }));
    lemma_position_roundtrip(text, text.len());
    assert(text.take(text.len() as int) =~= text);
    lemma_single_edit_apply(text, e, 0, text.len());
    assert(text.take(0) + e.new_text@ + text.skip(text.len() as int) =~= e.new_text@);
}

/// The minimal formatting edit turns the original text into the formatted one.
pub proof fn lemma_minimal_edit_applies(original: Seq<char>, formatted: Seq<char>, e: TextEdit)
    requires
        fits_positions(original.take(original.len() - common_suffix(original, formatted))),
        e.range.start == position_after(original.take(common_prefix(original, formatted) as int)),
        e.range.end == position_after(
            original.take(original.len() - common_suffix(original, formatted)),
        ),
        e.new_text@ == formatted.subrange(
            common_prefix(original, formatted) as int,
            formatted.len() - common_suffix(original, formatted),
        ),
    ensures
        applied_edits(original, seq![e]) == Some(formatted),
{
    lemma_minimal_edit_reconstructs(original, formatted);
    let p = common_prefix(original, formatted);
    let k = common_suffix(original, formatted);
    lemma_fits_positions_prefix(original, original.len() - k, p as int);
    lemma_position_roundtrip(original, p);
    lemma_position_roundtrip(original, (original.len() - k) as nat);
    lemma_single_edit_apply(original, e, p, (original.len() - k) as nat);
}

} // verus!
