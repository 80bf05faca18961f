use nomo_lsp::actions::{
    add_import_fixes, diagnostic_symbol_name, expected_package_for_current_file, imported_paths,
    import_insertion_range, matching_client_diagnostic, module_file_path_for_package,
    module_import_from_file, module_package_fixes, module_package_mismatch_diagnostic,
    package_declaration, suggestion_fixes, to_lsp_diagnostic, NomoDiagnostic, PackageFix,
    Suggestion,
};
use nomo_lsp::completion::{
    completion_for_document, completion_mode, completion_trigger_characters, CompletionKind,
    CompletionMode,
};
use nomo_lsp::navigation::{
    definition_for_text, identifier_range_at_position, import_path_at_position,
    is_nomo_identifier, module_definition_range, prepare_rename_for_document,
    references_for_text,
};
use nomo_lsp::paths::{module_imports_from_files, normalize_components, source_files};
use nomo_lsp::rename::{rename_allowed, rename_edits, replace_source_override};
use nomo_lsp::symbol::{SemanticSymbol, SemanticSymbolKind};
use nomo_lsp::text::{Position, Range};

fn pos(line: u32, character: u32) -> Position {
    Position { line, character }
}

fn range(a: (u32, u32), b: (u32, u32)) -> Range {
    Range { start: pos(a.0, a.1), end: pos(b.0, b.1) }
}

fn sym(name: &str, kind: SemanticSymbolKind, signature: &str, docs: &str) -> SemanticSymbol {
    SemanticSymbol {
        name: name.to_string(),
        kind,
        signature: signature.to_string(),
        docs: docs.to_string(),
        container_name: None,
        source_path: "main.nomo".to_string(),
        line: 1,
        range: range((0, 0), (0, 1)),
        selection_range: range((0, 0), (0, 1)),
    }
}

fn strings(parts: &[&str]) -> Vec<String> {
    parts.iter().map(|p| p.to_string()).collect()
}

const URI: &str = "file:///tmp/main.nomo";

#[test]
fn completion_options_trigger_after_import_space_and_path_dot() {
    assert_eq!(completion_trigger_characters(), vec![".".to_string(), " ".to_string(), "[".to_string()]);
}

#[test]
fn completion_includes_keywords_and_current_document_symbols() {
    let text = "package app.main\n\n/// Adds numbers.\npub fn add(a: i64, b: i64) -> i64 {\n    return a + b\n}\n\nstruct User {\n    email: string\n}\n";
    let mode = completion_mode(Some(text), None);
    assert_eq!(mode, CompletionMode::Symbols);
    let symbols = vec![
        sym("add", SemanticSymbolKind::Function, "pub fn add(a: i64, b: i64) -> i64", "Adds numbers."),
        sym("User", SemanticSymbolKind::Struct, "struct User", ""),
        sym("email", SemanticSymbolKind::Field, "email: string", ""),
    ];

    let items = completion_for_document(mode, Vec::new(), symbols);

    assert!(items.iter().any(|item| item.label == "fn" && item.kind == CompletionKind::Keyword));
    let add = items.iter().find(|item| item.label == "add").unwrap();
    assert_eq!(add.kind, CompletionKind::Function);
    assert_eq!(add.detail.as_deref(), Some("pub fn add(a: i64, b: i64) -> i64"));
    assert_eq!(add.documentation.as_deref(), Some("Adds numbers."));
    assert!(items.iter().any(|item| item.label == "User" && item.kind == CompletionKind::Struct));
}

#[test]
fn completion_uses_nested_block_doc_comments() {
    let text = "package app.main\n\n/**\n * Outer docs.\n * /* Nested docs. */\n * Still outer.\n */\npub fn nested() -> void {\n}\n";
    let symbols = vec![sym(
        "nested",
        SemanticSymbolKind::Function,
        "pub fn nested() -> void",
        "Outer docs.\n/* Nested docs. */\nStill outer.",
    )];

    let items = completion_for_document(completion_mode(Some(text), None), Vec::new(), symbols);
    let nested = items.iter().find(|item| item.label == "nested").unwrap();

    assert_eq!(nested.kind, CompletionKind::Function);
    assert_eq!(nested.documentation.as_deref(), Some("Outer docs.\n/* Nested docs. */\nStill outer."));
}

#[test]
fn completion_keeps_keywords_for_invalid_source() {
    let mode = completion_mode(Some("package app.main\n\nfn main( {\n"), None);

    let items = completion_for_document(mode, Vec::new(), Vec::new());

    assert!(items.iter().any(|item| item.label == "fn"));
    assert!(!items.iter().any(|item| item.label == "main"));
}

#[test]
fn completion_includes_test_attribute_at_attribute_position() {
    let text = "package app.main\n\n#[\nfn checks() -> void {\n}\n";
    let mode = completion_mode(Some(text), Some(pos(2, 2)));
    assert_eq!(mode, CompletionMode::Attribute);

    let items = completion_for_document(mode, Vec::new(), Vec::new());

    let item = items.iter().find(|item| item.label == "test").unwrap();
    assert_eq!(item.kind, CompletionKind::Keyword);
    assert_eq!(item.detail.as_deref(), Some("attribute"));
}

#[test]
fn completion_offers_each_label_once_and_sorted_imports() {
    let text = "package app.main\nimport \n";
    let mode = completion_mode(Some(text), Some(pos(1, 7)));
    assert_eq!(mode, CompletionMode::Import);
    let imports = vec![
        ("std.io".to_string(), CompletionKind::Module),
        ("app.math".to_string(), CompletionKind::Module),
        ("std.io".to_string(), CompletionKind::Module),
    ];
    let items = completion_for_document(mode, imports, Vec::new());
    let modules = items
        .iter()
        .filter(|i| i.kind == CompletionKind::Module)
        .map(|i| i.label.as_str())
        .collect::<Vec<_>>();
    assert_eq!(modules, vec!["app.math", "std.io"]);
    assert_eq!(completion_mode(None, None), CompletionMode::KeywordsOnly);
    // A symbol named like a keyword is not offered twice.
    let items = completion_for_document(
        CompletionMode::Symbols,
        Vec::new(),
        vec![sym("let", SemanticSymbolKind::Const, "const let", "")],
    );
    assert_eq!(items.iter().filter(|i| i.label == "let").count(), 1);
}

fn diagnostic(code: &str, message: &str, suggestions: Vec<Suggestion>) -> NomoDiagnostic {
    NomoDiagnostic {
        code: code.to_string(),
        message: message.to_string(),
        file: "main.nomo".to_string(),
        line: 4,
        column: 5,
        length: 10,
        line_text: "    io.println(\"Hello\")".to_string(),
        suggestions,
    }
}

#[test]
fn code_actions_return_quick_fix_for_compiler_suggestion() {
    let diagnostic = diagnostic(
        "E0303",
        "unknown name `io.println`",
        vec![Suggestion {
            description: "add `import std.io` to use `io.println`".to_string(),
            text: "import std.io\n".to_string(),
            line: 2,
            column: 1,
            length: 0,
        }],
    );

    let actions = suggestion_fixes(&diagnostic);

    assert_eq!(actions.len(), 1);
    assert_eq!(actions[0].title, "add `import std.io` to use `io.println`");
    assert!(actions[0].is_preferred);
    assert_eq!(actions[0].edit.range, range((1, 0), (1, 0)));
    assert_eq!(actions[0].edit.new_text, "import std.io\n");
}

#[test]
fn code_actions_return_empty_for_diagnostic_without_suggestions() {
    let diagnostic = diagnostic("E0201", "mismatched types", Vec::new());

    assert!(suggestion_fixes(&diagnostic).is_empty());
}

#[test]
fn lsp_diagnostics_are_zero_based_and_at_least_one_column_wide() {
    let mut d = diagnostic("E0201", "mismatched types", Vec::new());
    d.length = 0;
    let lsp = to_lsp_diagnostic(&d);
    assert_eq!(lsp.range, range((3, 4), (3, 5)));
    assert_eq!(lsp.code, "E0201");
    assert_eq!(lsp.message, "mismatched types");
}

#[test]
fn import_fixes_are_sorted_unique_and_skip_current_imports() {
    let text = "package app.main\nimport std.io\n\nfn main() -> void {\n}\n";
    let current = imported_paths(text);
    assert_eq!(current, vec!["std.io".to_string()]);
    let insertion = import_insertion_range(text);
    assert_eq!(insertion, range((2, 0), (2, 0)));
    let candidates = strings(&["app.util", "app.main", "std.io", "app.math", "app.util"]);
    let fixes = add_import_fixes(&candidates, "app", &current, "helper", insertion);
    let titles = fixes.iter().map(|f| f.title.as_str()).collect::<Vec<_>>();
    assert_eq!(
        titles,
        vec!["add `import app.math` to use `helper`", "add `import app.util` to use `helper`"]
    );
    assert_eq!(fixes[0].edit.new_text, "import app.math\n");
    assert!(!fixes[0].is_preferred);
    assert_eq!(diagnostic_symbol_name("unknown name `helper` here").as_deref(), Some("helper"));
    assert_eq!(diagnostic_symbol_name("no quotes"), None);
}

#[test]
fn package_mismatch_is_reported_and_fixed() {
    let text = "package app.wrong\n\nfn main() -> void {\n}\n";
    let declared = package_declaration(text).unwrap();
    assert_eq!(declared.name, "app.wrong");
    assert_eq!(declared.range, range((0, 8), (0, 17)));
    let d = module_package_mismatch_diagnostic(
        &"/w/src/util.nomo".to_string(),
        text,
        Some("app.util".to_string()),
    )
    .unwrap();
    assert_eq!(d.code, "E0904");
    assert_eq!(d.message, "module `app.util` declares package `app.wrong`");
    assert!(module_package_mismatch_diagnostic(
        &"/w/src/util.nomo".to_string(),
        text,
        Some("app.wrong".to_string())
    )
    .is_none());
    let fixes = module_package_fixes(
        d.code.as_str(),
        true,
        Some(declared.clone()),
        Some("app.util".to_string()),
        Some(strings(&["/", "w", "src", "wrong.nomo"])),
    );
    assert_eq!(fixes.len(), 2);
    match &fixes[1] {
        PackageFix::RenameFile { title, target } => {
            assert_eq!(title, "rename module file to match package `app.wrong`");
            assert_eq!(target, &strings(&["/", "w", "src", "wrong.nomo"]));
        }
        other => panic!("unexpected fix {other:?}"),
    }
    assert!(module_package_fixes("E0303", true, Some(declared.clone()), Some("app.util".to_string()), None)
        .is_empty());
    match &fixes[0] {
        PackageFix::UpdateDeclaration { title, edit } => {
            assert_eq!(title, "update package declaration to match module `app.util`");
            assert_eq!(edit.range, range((0, 8), (0, 17)));
            assert_eq!(edit.new_text, "app.util");
        }
        other => panic!("unexpected fix {other:?}"),
    }
}

#[test]
fn definition_returns_function_declaration_location() {
    let found = definition_for_text(&URI.to_string(), Some(range((2, 3), (2, 6)))).unwrap();

    assert_eq!(found.0, URI);
    assert_eq!(found.1, range((2, 3), (2, 6)));
    assert!(definition_for_text(&URI.to_string(), None).is_none());
}

#[test]
fn references_return_current_document_identifier_locations() {
    let ranges = vec![range((2, 3), (2, 6)), range((7, 21), (7, 24)), range((8, 22), (8, 25))];

    let references = references_for_text(&URI.to_string(), Some(ranges.clone())).unwrap();

    assert_eq!(references.len(), 3);
    assert!(references.iter().all(|location| location.0 == URI));
    assert_eq!(references.iter().map(|l| l.1).collect::<Vec<_>>(), ranges);
}

#[test]
fn rename_returns_current_document_workspace_edit() {
    let locations = vec![
        (URI.to_string(), range((2, 3), (2, 6))),
        (URI.to_string(), range((7, 21), (7, 24))),
        (URI.to_string(), range((7, 21), (7, 24))),
    ];

    let edit = rename_edits("sum", Some(locations)).unwrap();

    assert_eq!(edit.len(), 1);
    let (uri, edits) = &edit[0];
    assert_eq!(uri, URI);
    assert_eq!(edits.len(), 2);
    assert!(edits.iter().all(|edit| edit.new_text == "sum"));
    assert_eq!(edits.iter().map(|edit| edit.range.start).collect::<Vec<_>>(), vec![pos(2, 3), pos(7, 21)]);
    assert!(rename_allowed(true, true));
}

#[test]
fn rename_rejects_invalid_identifier() {
    let locations = vec![(URI.to_string(), range((2, 3), (2, 6)))];

    assert!(rename_edits("for", Some(locations.clone())).is_none());
    assert!(rename_edits("9lives", Some(locations.clone())).is_none());
    assert!(rename_edits("ok_name", Some(Vec::new())).is_none());
    assert!(rename_edits("ok_name", None).is_none());
    assert!(!is_nomo_identifier("void"));
    assert!(is_nomo_identifier("_tmp1"));
}

#[test]
fn rename_rejects_top_level_declaration_collision() {
    // The program compiles; after renaming `first` to `second` it no longer does.
    assert!(!rename_allowed(true, false));
    // A program that did not compile before is not held against the rename.
    assert!(rename_allowed(false, false));
}

#[test]
fn prepare_rename_returns_current_identifier_range() {
    let text = "package app.main\n\nfn add(a: i64, b: i64) -> i64 {\n    return a + b\n}\n\nfn main() -> void {\n    let total: i64 = add(1, 2)\n}\n";
    let found = vec![(URI.to_string(), range((2, 3), (2, 6)))];

    let prepared = prepare_rename_for_document(text, pos(7, 22), Some(found)).unwrap();

    assert_eq!(prepared, range((7, 21), (7, 24)));
    assert!(prepare_rename_for_document(text, pos(7, 22), Some(Vec::new())).is_none());
}

#[test]
fn prepare_rename_accepts_local_binding() {
    let text = "package app.main\n\nfn main() -> void {\n    let message: string = \"hi\"\n    io.println(message)\n}\n";
    let found = vec![(URI.to_string(), range((3, 8), (3, 15)))];

    let prepared = prepare_rename_for_document(text, pos(4, 16), Some(found)).unwrap();

    assert_eq!(prepared, range((4, 15), (4, 22)));
    assert_eq!(identifier_range_at_position(text, pos(4, 6)), Some(range((4, 4), (4, 6))));
    assert_eq!(identifier_range_at_position(text, pos(4, 3)), None);
}

#[test]
fn import_path_under_the_cursor_and_module_ranges() {
    let text = "package app.main\n\nimport app.math.vectors\n";
    assert_eq!(
        import_path_at_position(text, pos(2, 12)),
        Some(strings(&["app", "math", "vectors"]))
    );
    assert_eq!(import_path_at_position(text, pos(2, 3)), None);
    assert_eq!(module_definition_range("package app.math\nfn x() {}\n"), range((0, 0), (0, 16)));
    assert_eq!(module_definition_range(""), range((0, 0), (0, 0)));
}

#[test]
fn source_overrides_are_replaced_or_added() {
    let mut sources = vec![("a.nomo".to_string(), "old".to_string())];
    replace_source_override(&mut sources, &"a.nomo".to_string(), "new".to_string());
    replace_source_override(&mut sources, &"b.nomo".to_string(), "b".to_string());
    assert_eq!(
        sources,
        vec![("a.nomo".to_string(), "new".to_string()), ("b.nomo".to_string(), "b".to_string())]
    );
}

#[test]
fn source_overrides_match_paths_by_components() {
    let mut sources = vec![("a/".to_string(), "old".to_string()), ("b.nomo".to_string(), "b".to_string())];
    replace_source_override(&mut sources, &"a".to_string(), "new".to_string());
    replace_source_override(&mut sources, &"b.nomo//.".to_string(), "b2".to_string());
    replace_source_override(&mut sources, &"./b.nomo".to_string(), "dotted".to_string());
    replace_source_override(&mut sources, &"/b.nomo".to_string(), "rooted".to_string());
    assert_eq!(
        sources,
        vec![
            ("a/".to_string(), "new".to_string()),
            ("b.nomo".to_string(), "b2".to_string()),
            ("./b.nomo".to_string(), "dotted".to_string()),
            ("/b.nomo".to_string(), "rooted".to_string()),
        ]
    );
}

#[test]
fn paths_normalise_lexically() {
    assert_eq!(normalize_components(&strings(&["/", "a", ".", "b", "..", "c"])), strings(&["/", "a", "c"]));
    assert_eq!(normalize_components(&strings(&["/", "..", "x"])), strings(&["/", "x"]));
    assert_eq!(normalize_components(&strings(&["..", "x"])), strings(&["x"]));
}

#[test]
fn module_imports_come_from_sorted_unique_source_files() {
    let root = strings(&["/", "w", "src"]);
    let files = vec![strings(&["/", "w", "src", "util.nomo"]), strings(&["/", "w", "src", "main.nomo"])];
    let overrides = vec![
        (strings(&["/", "w", "src", "util.nomo"]), strings(&["/", "w", "src", "util.nomo"])),
        (strings(&["/", "w", "src", "new.nomo"]), strings(&["/", "w", "src", "new.nomo"])),
        (strings(&["/", "w", "src", "notes.txt"]), strings(&["/", "w", "src", "notes.txt"])),
        (strings(&["/", "elsewhere", "x.nomo"]), strings(&["/", "elsewhere", "x.nomo"])),
    ];
    let found = source_files(&root, files, &overrides);
    assert_eq!(
        found,
        vec![
            strings(&["/", "w", "src", "main.nomo"]),
            strings(&["/", "w", "src", "new.nomo"]),
            strings(&["/", "w", "src", "util.nomo"]),
        ]
    );
    assert_eq!(module_imports_from_files(&root, "app", &found), strings(&["app.main", "app.new", "app.util"]));
}

fn definition_at(found: Range) -> (String, Range) {
    definition_for_text(&URI.to_string(), Some(found)).unwrap()
}

#[test]
fn definition_returns_type_declaration_location() {
    let location = definition_at(range((2, 11), (2, 15)));
    assert_eq!(location.0, URI);
    assert_eq!(location.1, range((2, 11), (2, 15)));
}

#[test]
fn definition_returns_field_declaration_location() {
    let location = definition_at(range((3, 4), (3, 9)));
    assert_eq!(location.0, URI);
    assert_eq!(location.1, range((3, 4), (3, 9)));
}

#[test]
fn definition_uses_receiver_type_for_same_name_fields_without_manifest() {
    let location = definition_at(range((3, 4), (3, 8)));
    assert_eq!(location.1.start.line, 3);
    assert_eq!(location.1.start.character, 4);
}

#[test]
fn definition_returns_enum_variant_declaration_location() {
    let location = definition_at(range((4, 4), (4, 7)));
    assert_eq!(location.0, URI);
    assert_eq!(location.1, range((4, 4), (4, 7)));
}

#[test]
fn definition_returns_local_binding_declaration() {
    let location = definition_at(range((3, 8), (3, 15)));
    assert_eq!(location.0, URI);
    assert_eq!(location.1, range((3, 8), (3, 15)));
}

#[test]
fn references_can_exclude_declaration() {
    let found = vec![range((7, 14), (7, 18)), range((7, 21), (7, 25))];
    let references = references_for_text(&URI.to_string(), Some(found)).unwrap();
    assert_eq!(
        references.iter().map(|l| l.1).collect::<Vec<_>>(),
        vec![range((7, 14), (7, 18)), range((7, 21), (7, 25))]
    );
    assert!(references_for_text(&URI.to_string(), None).is_none());
}

#[test]
fn references_return_local_binding_locations() {
    let found = vec![range((3, 8), (3, 15)), range((4, 15), (4, 22))];
    let references = references_for_text(&URI.to_string(), Some(found)).unwrap();
    assert_eq!(references.len(), 2);
    assert_eq!(references[0].1.start.line, 3);
    assert_eq!(references[1].1.start.line, 4);
}

#[test]
fn rename_excludes_shadowing_parameter_references() {
    let locations = vec![
        (URI.to_string(), range((2, 3), (2, 8))),
        (URI.to_string(), range((11, 22), (11, 27))),
    ];
    let groups = rename_edits("answer", Some(locations)).unwrap();
    let edits = &groups[0].1;
    assert_eq!(edits.len(), 2);
    assert_eq!(edits[0].range.start.line, 2);
    assert_eq!(edits[1].range.start.line, 11);
    assert!(edits.iter().all(|edit| edit.new_text == "answer"));
}

#[test]
fn rename_rejects_local_binding_collision() {
    // Renaming `first` to `second` leaves a program that no longer compiles.
    assert!(!rename_allowed(true, false));
}

#[test]
fn rename_groups_edits_by_document_in_first_seen_order() {
    let other = "file:///tmp/other.nomo";
    let locations = vec![
        (other.to_string(), range((1, 0), (1, 3))),
        (URI.to_string(), range((0, 0), (0, 3))),
        (other.to_string(), range((2, 0), (2, 3))),
    ];
    let groups = rename_edits("abc", Some(locations)).unwrap();
    assert_eq!(groups.len(), 2);
    assert_eq!(groups[0].0, other);
    assert_eq!(groups[0].1.len(), 2);
    assert_eq!(groups[1].0, URI);
}

fn hello_source_root() -> Vec<String> {
    strings(&["/", "work", "hello", "src"])
}

#[test]
fn diagnostics_flag_module_package_mismatch_for_current_file() {
    let root = hello_source_root();
    let mut module_file = root.clone();
    module_file.push("math.nomo".to_string());
    let text = "package app.other\n\npub fn add(a: i64, b: i64) -> i64 {\n    return a + b\n}\n";
    let expected =
        expected_package_for_current_file(&root, &module_file, Some("package app.main\n"), text);
    assert_eq!(expected.as_deref(), Some("app.math"));

    let diagnostic = module_package_mismatch_diagnostic(
        &"/work/hello/src/math.nomo".to_string(),
        text,
        expected,
    )
    .unwrap();
    let shown = to_lsp_diagnostic(&diagnostic);

    assert_eq!(shown.code, "E0904");
    assert!(shown.message.contains("app.math"));
    assert!(shown.message.contains("app.other"));
    assert_eq!(shown.range, range((0, 8), (0, 17)));
}

#[test]
fn code_actions_update_package_for_module_file_mismatch() {
    let root = hello_source_root();
    let mut module_file = root.clone();
    module_file.push("math.nomo".to_string());
    let text = "package app.other\n\npub fn add(a: i64, b: i64) -> i64 {\n    return a + b\n}\n";
    let expected =
        expected_package_for_current_file(&root, &module_file, Some("package app.main\n"), text);
    let declared = package_declaration(text).unwrap();
    let target = module_file_path_for_package(&root, "app", &declared.name).unwrap();
    assert_eq!(target, strings(&["/", "work", "hello", "src", "other.nomo"]));

    let actions = module_package_fixes("E0904", true, Some(declared), expected, Some(target));

    assert_eq!(actions.len(), 2);
    match &actions[0] {
        PackageFix::UpdateDeclaration { title, edit } => {
            assert_eq!(title, "update package declaration to match module `app.math`");
            assert_eq!(edit.range, range((0, 8), (0, 17)));
            assert_eq!(edit.new_text, "app.math");
        }
        other => panic!("unexpected fix {other:?}"),
    }
    match &actions[1] {
        PackageFix::RenameFile { title, target } => {
            assert_eq!(title, "rename module file to match package `app.other`");
            assert_eq!(target, &strings(&["/", "work", "hello", "src", "other.nomo"]));
        }
        other => panic!("unexpected fix {other:?}"),
    }
}

#[test]
fn module_paths_map_between_files_and_imports() {
    let root = hello_source_root();
    let file = |parts: &[&str]| {
        let mut p = root.clone();
        p.extend(parts.iter().map(|s| s.to_string()));
        p
    };
    assert_eq!(module_import_from_file(&root, "app", &file(&["main.nomo"])).as_deref(), Some("app.main"));
    assert_eq!(
        module_import_from_file(&root, "app", &file(&["net", "http.nomo"])).as_deref(),
        Some("app.net.http")
    );
    assert_eq!(module_import_from_file(&root, "app", &file(&["notes.txt"])), None);
    assert_eq!(module_import_from_file(&root, "app", &strings(&["/", "elsewhere", "x.nomo"])), None);
    assert_eq!(module_file_path_for_package(&root, "app", "app.main"), Some(file(&["main.nomo"])));
    assert_eq!(module_file_path_for_package(&root, "app", "other.x"), None);
    assert_eq!(
        matching_client_diagnostic(
            &"E0303".to_string(),
            &vec![None, Some("E0201".to_string()), Some("E0303".to_string())]
        ),
        Some(2)
    );
}

#[test]
fn project_references_that_found_nothing_have_no_locations() {
    assert_eq!(nomo_lsp::navigation::locations_for_files(Some(Vec::new())), Some(Vec::new()));
    assert_eq!(nomo_lsp::navigation::locations_for_files(None), None);
}
