use nomo_lsp::hover::{hover_for_document, hover_markdown, semantic_kind_label};
use nomo_lsp::symbol::{SemanticSymbol, SemanticSymbolKind};
use nomo_lsp::symbol::SemanticSymbolKind as K;
use nomo_lsp::symbols::{
    document_symbols_for_text, lsp_symbol_kind, path_file_name, select_workspace_symbols,
    workspace_symbol_listing, workspace_symbols_for_roots, SymbolKind,
};
use nomo_lsp::text::{Position, Range};

fn range(a: (u32, u32), b: (u32, u32)) -> Range {
    Range {
        start: Position { line: a.0, character: a.1 },
        end: Position { line: b.0, character: b.1 },
    }
}

fn sym(
    name: &str,
    kind: SemanticSymbolKind,
    signature: &str,
    docs: &str,
    container: Option<&str>,
    line: u32,
) -> SemanticSymbol {
    SemanticSymbol {
        name: name.to_string(),
        kind,
        signature: signature.to_string(),
        docs: docs.to_string(),
        container_name: container.map(|c| c.to_string()),
        source_path: "/work/app/src/main.nomo".to_string(),
        line: line as usize + 1,
        range: range((line, 0), (line, 1)),
        selection_range: range((line, 4), (line, 4 + name.len() as u32)),
    }
}

#[test]
fn document_symbols_nest_fields_and_variants_under_parent_types() {
    let mut user = sym("User", K::Struct, "pub struct User", "", None, 2);
    user.selection_range = range((2, 11), (2, 15));
    let symbols = vec![
        user,
        sym("email", K::Field, "email: string", "", Some("User"), 3),
        sym("Status", K::Enum, "enum Status", "", None, 6),
        sym("Ready", K::Variant, "Ready", "", Some("Status"), 7),
        sym("Done", K::Variant, "Done(string)", "", Some("Status"), 8),
        sym("Display", K::Interface, "pub interface Display", "", None, 11),
        sym(
            "to_string",
            K::InterfaceMethod,
            "fn Display.to_string(self: Self) -> string",
            "",
            Some("Display"),
            12,
        ),
        sym("MAX", K::Const, "const MAX: i64", "", None, 15),
        sym("main", K::Function, "fn main() -> void", "", None, 27),
        sym(
            "puts",
            K::ExternFunction,
            "extern \"C\" fn puts(message: string) -> i32",
            "",
            None,
            18,
        ),
        sym("email", K::Method, "pub fn User.email(self: User) -> string", "", Some("User"), 22),
    ];

    let count = symbols.len();
    let symbols = document_symbols_for_text(Some(symbols)).expect("document symbols");
    let nested: usize = symbols.iter().map(|s| s.children.as_ref().map_or(0, |c| c.len())).sum();
    assert_eq!(symbols.len() + nested, count);

    let names = symbols.iter().map(|symbol| symbol.name.as_str()).collect::<Vec<_>>();
    assert_eq!(names, vec!["User", "Status", "Display", "MAX", "main", "puts", "email"]);
    assert_eq!(symbols[0].kind, SymbolKind::Struct);
    assert_eq!(symbols[1].kind, SymbolKind::Enum);
    assert_eq!(symbols[2].kind, SymbolKind::Interface);
    assert_eq!(symbols[3].kind, SymbolKind::Constant);
    assert_eq!(symbols[4].kind, SymbolKind::Function);
    assert_eq!(symbols[5].kind, SymbolKind::Function);
    assert_eq!(symbols[6].kind, SymbolKind::Method);
    let user_children = symbols[0].children.as_ref().expect("struct children");
    assert_eq!(user_children.len(), 1);
    assert_eq!(user_children[0].name, "email");
    assert_eq!(user_children[0].kind, SymbolKind::Field);
    let status_children = symbols[1].children.as_ref().expect("enum children");
    assert_eq!(
        status_children.iter().map(|symbol| symbol.name.as_str()).collect::<Vec<_>>(),
        vec!["Ready", "Done"]
    );
    assert_eq!(status_children[0].kind, SymbolKind::EnumMember);
    let display_children = symbols[2].children.as_ref().expect("interface children");
    assert_eq!(display_children.len(), 1);
    assert_eq!(display_children[0].name, "to_string");
    assert_eq!(display_children[0].kind, SymbolKind::Method);
    assert_eq!(display_children[0].detail, "fn Display.to_string(self: Self) -> string");
    assert_eq!(symbols[0].selection_range, range((2, 11), (2, 15)));
    assert_eq!(symbols[5].detail, "extern \"C\" fn puts(message: string) -> i32");
    assert_eq!(symbols[6].detail, "pub fn User.email(self: User) -> string");
}

#[test]
fn document_symbols_return_none_for_invalid_source() {
    assert!(document_symbols_for_text(None).is_none());
}

#[test]
fn document_symbols_keep_orphan_members_at_top_level() {
    let symbols = vec![
        sym("value", K::Field, "value: i64", "", Some("Missing"), 1),
        sym("Missing", K::Enum, "enum Missing", "", None, 2),
        sym("loose", K::Variant, "loose", "", None, 3),
    ];
    let outline = document_symbols_for_text(Some(symbols)).unwrap();
    let names = outline.iter().map(|s| s.name.as_str()).collect::<Vec<_>>();
    // A field whose struct is not (yet) in the outline stays at the top level, and
    // a field never nests under an enum of the same name.
    assert_eq!(names, vec!["value", "Missing", "loose"]);
    assert!(outline[1].children.is_none());
}

#[test]
fn symbol_kinds_map_to_editor_kinds() {
    assert_eq!(lsp_symbol_kind(SemanticSymbolKind::ExternFunction), SymbolKind::Function);
    assert_eq!(lsp_symbol_kind(SemanticSymbolKind::InterfaceMethod), SymbolKind::Method);
    assert_eq!(lsp_symbol_kind(SemanticSymbolKind::Variant), SymbolKind::EnumMember);
    assert_eq!(lsp_symbol_kind(SemanticSymbolKind::Const), SymbolKind::Constant);
}

#[test]
fn workspace_symbols_match_case_insensitively_and_once_per_declaration() {
    let app = vec![
        sym("UserName", K::Struct, "struct UserName", "", None, 1),
        sym("other", K::Function, "fn other()", "", None, 5),
    ];
    let mut dep = sym("username_len", K::Function, "fn username_len()", "", None, 2);
    dep.source_path = "/work/dep/src/lib.nomo".to_string();
    let projects = vec![
        ("/work/app".to_string(), Some(app.clone())),
        ("/work/app".to_string(), Some(app)),
        ("/work/broken".to_string(), None),
        ("/work/dep".to_string(), Some(vec![dep])),
    ];
    let selected = select_workspace_symbols(projects, None, "USERNAME");
    assert_eq!(
        selected.iter().map(|s| s.name.as_str()).collect::<Vec<_>>(),
        vec!["UserName", "username_len"]
    );
    let everything = select_workspace_symbols(
        vec![("/a".to_string(), Some(vec![sym("x", K::Const, "const x", "", None, 0)]))],
        Some(vec![sym("y", K::Const, "const y", "", None, 0)]),
        "",
    );
    assert_eq!(everything.len(), 2);
}

#[test]
fn workspace_symbol_listing_sorts_by_name_then_uri() {
    let mut b = sym("beta", K::Function, "fn beta()", "", None, 3);
    b.source_path = "/w/src/b.nomo".to_string();
    let mut a = sym("alpha", K::Function, "fn alpha()", "", None, 1);
    a.source_path = "/w/src/a.nomo".to_string();
    let hidden = sym("gamma", K::Function, "fn gamma()", "", None, 1);
    let listing = workspace_symbol_listing(
        vec![b, a, hidden],
        vec![
            Some("file:///w/src/b.nomo".to_string()),
            Some("file:///w/src/a.nomo".to_string()),
            None,
        ],
    );
    assert_eq!(listing.len(), 2);
    assert_eq!(listing[0].name, "alpha");
    assert_eq!(listing[0].uri, "file:///w/src/a.nomo");
    assert_eq!(listing[0].container_name.as_deref(), Some("a.nomo"));
    assert_eq!(listing[0].range, range((1, 4), (1, 9)));
    assert_eq!(listing[1].name, "beta");
    assert_eq!(listing[1].kind, SymbolKind::Function);
}

#[test]
fn path_file_name_follows_path_components() {
    assert_eq!(path_file_name(&"/w/src/a.nomo".to_string()).as_deref(), Some("a.nomo"));
    assert_eq!(path_file_name(&"/w/src/./".to_string()).as_deref(), Some("src"));
    assert_eq!(path_file_name(&"/w/..".to_string()), None);
    assert_eq!(path_file_name(&"/".to_string()), None);
}

#[test]
fn hover_returns_function_signature_and_doc_comment() {
    let add = sym(
        "add",
        SemanticSymbolKind::Function,
        "pub fn add(a: i64, b: i64) -> i64",
        "Adds two numbers.",
        None,
        3,
    );
    let hover = hover_for_document(Some(add)).unwrap();

    assert!(hover.markdown.contains("pub fn add(a: i64, b: i64) -> i64"));
    assert!(hover.markdown.contains("Adds two numbers."));
    assert!(hover.markdown.contains("function"));
}

#[test]
fn hover_returns_struct_signature_and_block_doc_comment() {
    let user = sym(
        "User",
        SemanticSymbolKind::Struct,
        "pub struct User",
        "User record.\nStores identity fields.",
        None,
        5,
    );
    let hover = hover_for_document(Some(user)).unwrap();

    assert!(hover.markdown.contains("pub struct User"));
    assert!(hover.markdown.contains("User record."));
    assert!(hover.markdown.contains("Stores identity fields."));
}

#[test]
fn hover_returns_nested_block_doc_comment() {
    let nested = sym(
        "nested",
        SemanticSymbolKind::Function,
        "pub fn nested() -> void",
        "Outer docs.\n/* Nested docs. */\nStill outer.",
        None,
        7,
    );
    let hover = hover_for_document(Some(nested)).unwrap();

    assert!(hover.markdown.contains("Outer docs."));
    assert!(hover.markdown.contains("/* Nested docs. */"));
    assert!(hover.markdown.contains("Still outer."));
}

#[test]
fn hover_returns_method_signature_and_doc_comment() {
    let method = sym(
        "add",
        SemanticSymbolKind::Method,
        "pub fn Counter.add(self: Counter, delta: i64) -> i64",
        "Adds to the counter.",
        Some("Counter"),
        8,
    );
    let hover = hover_for_document(Some(method)).unwrap();

    assert!(hover.markdown.contains("pub fn Counter.add(self: Counter, delta: i64) -> i64"));
    assert!(hover.markdown.contains("Adds to the counter."));
    assert!(hover.markdown.contains("method"));
}

#[test]
fn hover_returns_extern_function_signature_and_doc_comment() {
    let puts = sym(
        "puts",
        SemanticSymbolKind::ExternFunction,
        "extern \"C\" fn puts(message: string) -> i32",
        "Writes a line.",
        None,
        4,
    );
    let hover = hover_for_document(Some(puts)).unwrap();

    assert!(hover.markdown.contains("extern \"C\" fn puts(message: string) -> i32"));
    assert!(hover.markdown.contains("Writes a line."));
    assert!(hover.markdown.contains("extern function"));
}

#[test]
fn hover_returns_interface_method_signature_and_doc_comment() {
    let write = sym(
        "write",
        SemanticSymbolKind::InterfaceMethod,
        "fn Writer.write(self: Self, message: string) -> void",
        "Writes a message.",
        Some("Writer"),
        4,
    );
    let hover = hover_for_document(Some(write)).unwrap();

    assert!(hover.markdown.contains("fn Writer.write(self: Self, message: string) -> void"));
    assert!(hover.markdown.contains("Writes a message."));
    assert!(hover.markdown.contains("interface method"));
}

#[test]
fn hover_returns_none_for_unknown_identifier() {
    assert!(hover_for_document(None).is_none());
}

#[test]
fn hover_markdown_has_code_block_docs_and_kind() {
    let with_docs = sym("MAX", SemanticSymbolKind::Const, "const MAX: i64", "Upper bound.", None, 1);
    assert_eq!(hover_markdown(&with_docs), "```nomo\nconst MAX: i64\n```\n\nUpper bound.\n\nconst");
    let without = sym("Ok", SemanticSymbolKind::Variant, "Ok", "", Some("Status"), 1);
    assert_eq!(hover_markdown(&without), "```nomo\nOk\n```\n\nenum variant");
    assert_eq!(semantic_kind_label(SemanticSymbolKind::Field), "field");
    assert_eq!(semantic_kind_label(SemanticSymbolKind::Interface), "interface");
}

#[test]
fn workspace_symbols_carry_the_file_uri_of_each_declaration() {
    let mut a = sym("alpha", K::Function, "fn alpha()", "", None, 1);
    a.source_path = "/w/src/a.nomo".to_string();
    let mut b = sym("Alphabet", K::Struct, "struct Alphabet", "", None, 2);
    b.source_path = "/w/src/b.nomo".to_string();
    let found = workspace_symbols_for_roots(
        vec![("/w".to_string(), Some(vec![b, a]))],
        None,
        "ALPHA",
    );
    assert_eq!(found.len(), 2);
    assert_eq!(found[0].name, "Alphabet");
    assert_eq!(found[0].uri, "file:///w/src/b.nomo");
    assert_eq!(found[1].name, "alpha");
    assert_eq!(found[1].uri, "file:///w/src/a.nomo");
    assert_eq!(found[1].container_name.as_deref(), Some("a.nomo"));
}

#[test]
fn workspace_selection_compares_paths_by_components() {
    let x = sym("x", K::Const, "const x", "", None, 0);
    let mut same_file = sym("x", K::Const, "const x", "", None, 0);
    same_file.source_path = "/work//app/./src/main.nomo".to_string();
    let mut other_file = sym("x", K::Const, "const x", "", None, 0);
    other_file.source_path = "/work/app/src/other.nomo".to_string();
    let projects = vec![
        ("/work/app".to_string(), Some(vec![x])),
        ("/work/app/".to_string(), Some(vec![other_file.clone()])),
        ("/work/lib".to_string(), Some(vec![same_file, other_file])),
    ];
    let selected = select_workspace_symbols(projects, None, "");
    assert_eq!(
        selected.iter().map(|s| s.source_path.as_str()).collect::<Vec<_>>(),
        vec!["/work/app/src/main.nomo", "/work/app/src/other.nomo"]
    );
}
