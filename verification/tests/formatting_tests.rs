use nomo_lsp::formatting::{formatting_edits_for_text, range_formatting_edits_for_text};
use nomo_lsp::text::{
    apply_text_edits, byte_index_to_position, full_document_range, minimal_formatting_edit,
    position_to_byte_offset, ranges_overlap, utf16_character_to_byte_index, Position, Range,
    TextEdit,
};

fn pos(line: u32, character: u32) -> Position {
    Position { line, character }
}

fn range(a: (u32, u32), b: (u32, u32)) -> Range {
    Range { start: pos(a.0, a.1), end: pos(b.0, b.1) }
}

#[test]
fn formatting_formats_standalone_source_text() {
    let text = "package app . main\nfn main(){\nlet message:string=\"hi\"\n}\n";
    let formatted =
        "package app.main\n\nfn main() -> void {\n    let message: string = \"hi\"\n}\n";
    let edits = formatting_edits_for_text(text, Some(formatted.to_string())).unwrap();

    assert_eq!(edits.len(), 1);
    assert_eq!(edits[0].range, range((0, 0), (4, 0)));
    assert_eq!(
        edits[0].new_text,
        "package app.main\n\nfn main() -> void {\n    let message: string = \"hi\"\n}\n"
    );
}

#[test]
fn formatting_returns_empty_edits_for_already_formatted_text() {
    let text = "package app.main\n\nfn main() -> void {\n    let message: string = \"hi\"\n}\n";

    let edits = formatting_edits_for_text(text, Some(text.to_string())).unwrap();

    assert!(edits.is_empty());
}

#[test]
fn formatting_returns_none_for_invalid_source() {
    let edits = formatting_edits_for_text("package app.main\n\nfn main( {\n", None);

    assert!(edits.is_none());
}

#[test]
fn formatting_formats_script_body_source_text() {
    let text = "package app.main\nimport std.io\nlet message:string=\"hi\"\nio.println(message)\n";
    let formatted =
        "package app.main\n\nimport std.io\n\nlet message: string = \"hi\"\nio.println(message)\n";
    let edits = formatting_edits_for_text(text, Some(formatted.to_string())).unwrap();

    assert_eq!(edits.len(), 1);
    assert_eq!(
        edits[0].new_text,
        "package app.main\n\nimport std.io\n\nlet message: string = \"hi\"\nio.println(message)\n"
    );
}

#[test]
fn range_formatting_formats_requested_region() {
    let text = "package app.main\n\nfn main() -> void {\nlet message:string=\"hi\"\n}\n";
    let formatted =
        "package app.main\n\nfn main() -> void {\n    let message: string = \"hi\"\n}\n";

    let edits =
        range_formatting_edits_for_text(text, Some(formatted.to_string()), range((2, 0), (5, 0)))
            .unwrap();

    assert_eq!(edits.len(), 1);
    assert_ne!(edits[0].range, full_document_range(text));
    assert!(edits[0].new_text.contains("let message: string = "));
}

#[test]
fn range_formatting_ignores_changes_outside_requested_region() {
    let text = "package app . main\n\nfn main() -> void {\n    let message: string = \"hi\"\n}\n";
    let formatted =
        "package app.main\n\nfn main() -> void {\n    let message: string = \"hi\"\n}\n";

    let edits =
        range_formatting_edits_for_text(text, Some(formatted.to_string()), range((3, 0), (4, 0)))
            .unwrap();

    assert!(edits.is_empty());
}

#[test]
fn range_formatting_returns_none_for_invalid_source() {
    assert!(range_formatting_edits_for_text("fn main( {\n", None, range((0, 0), (1, 0))).is_none());
}

#[test]
fn text_edit_application_uses_utf16_columns() {
    let source = "io.println(\"你\") value\n";
    let renamed = apply_text_edits(
        source,
        &[TextEdit { range: range((0, 16), (0, 21)), new_text: "answer".to_string() }],
    )
    .unwrap();

    assert_eq!(renamed, "io.println(\"你\") answer\n");
}

#[test]
fn text_edits_apply_from_the_end_backwards() {
    let source = "let a = b\n";
    let edits = [
        TextEdit { range: range((0, 4), (0, 5)), new_text: "first".to_string() },
        TextEdit { range: range((0, 8), (0, 9)), new_text: "second".to_string() },
    ];
    assert_eq!(apply_text_edits(source, &edits).unwrap(), "let first = second\n");
}

#[test]
fn text_edits_are_refused_when_they_overlap_or_point_past_a_line() {
    let source = "abcdef\n";
    let overlapping = [
        TextEdit { range: range((0, 1), (0, 4)), new_text: "x".to_string() },
        TextEdit { range: range((0, 3), (0, 5)), new_text: "y".to_string() },
    ];
    assert!(apply_text_edits(source, &overlapping).is_none());
    let past_line = [TextEdit { range: range((0, 2), (0, 9)), new_text: "x".to_string() }];
    assert!(apply_text_edits(source, &past_line).is_none());
    let past_text = [TextEdit { range: range((3, 0), (3, 0)), new_text: "x".to_string() }];
    assert!(apply_text_edits(source, &past_text).is_none());
}

#[test]
fn minimal_edit_replaces_only_the_changed_middle() {
    let edit = minimal_formatting_edit("let x=1\n", "let x = 1\n").unwrap();
    assert_eq!(edit.range, range((0, 5), (0, 6)));
    assert_eq!(edit.new_text, " = ");
    assert!(minimal_formatting_edit("same", "same").is_none());
    let applied = apply_text_edits("let x=1\n", &[edit]).unwrap();
    assert_eq!(applied, "let x = 1\n");
}

#[test]
fn positions_count_utf16_units_and_lines() {
    let text = "a你\n𝄞b\n";
    assert_eq!(byte_index_to_position(text, 4), pos(0, 2));
    assert_eq!(byte_index_to_position(text, 5), pos(1, 0));
    assert_eq!(byte_index_to_position(text, 9), pos(1, 2));
    assert_eq!(position_to_byte_offset(text, pos(1, 2)), Some(9));
    assert_eq!(position_to_byte_offset(text, pos(1, 4)), None);
    assert_eq!(position_to_byte_offset(text, pos(5, 0)), None);
    assert_eq!(utf16_character_to_byte_index("a你b", 2), 4);
    assert_eq!(utf16_character_to_byte_index("a你b", 9), 5);
    assert_eq!(full_document_range(text), range((0, 0), (2, 0)));
}

#[test]
fn ranges_overlap_only_when_they_share_a_position() {
    assert!(ranges_overlap(&range((0, 0), (0, 5)), &range((0, 4), (1, 0))));
    assert!(!ranges_overlap(&range((0, 0), (0, 5)), &range((0, 5), (1, 0))));
}

#[test]
fn formatting_edits_bring_the_text_to_the_formatted_text() {
    let text = "package app . main\nfn main(){\n}\n";
    let formatted = "package app.main\n\nfn main() -> void {\n}\n";
    let full = formatting_edits_for_text(text, Some(formatted.to_string())).unwrap();
    assert_eq!(apply_text_edits(text, &full).unwrap(), formatted);
    let ranged =
        range_formatting_edits_for_text(text, Some(formatted.to_string()), range((0, 0), (9, 0)))
            .unwrap();
    assert_eq!(ranged.len(), 1);
    assert_eq!(apply_text_edits(text, &ranged).unwrap(), formatted);
}

#[test]
fn byte_helpers_follow_ascii_rules() {
    assert_eq!(nomo_lsp::text::skip_ascii_whitespace("  \tx y", 0), 3);
    assert_eq!(nomo_lsp::text::skip_ascii_whitespace("ab", 5), 5);
    assert!(nomo_lsp::text::is_ident_byte(b'_'));
    assert!(nomo_lsp::text::is_ident_byte(b'9'));
    assert!(!nomo_lsp::text::is_ident_byte(b'.'));
    assert_eq!(
        nomo_lsp::text::byte_range_to_lsp_range("ab\ncd", 1, 4),
        range((0, 1), (1, 1))
    );
}

#[test]
fn minimal_edit_starts_where_the_texts_first_differ() {
    let edit = minimal_formatting_edit("abc", "abXc").unwrap();
    assert_eq!(edit.range, range((0, 2), (0, 2)));
    assert_eq!(edit.new_text, "X");
    assert_eq!(apply_text_edits("abc", &[edit]).unwrap(), "abXc");
}

#[test]
fn ordinary_documents_fit_lsp_positions() {
    assert!(nomo_lsp::text::text_positions_fit("fn main() {\n    let s = \"\u{1F600}\"\n}\n"));
    assert!(nomo_lsp::text::text_positions_fit(""));
    assert!(nomo_lsp::text::formatting_positions_fit("let x=1\n", "let x = 1\n"));
    assert!(nomo_lsp::text::formatting_positions_fit("same", "same"));
}
