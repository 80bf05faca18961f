use nomo_lsp::ast::{BinaryOp, Expr, FunctionDecl, SourceFile, Span, Stmt, TypeRef};
use nomo_lsp::inlay_hints::{inlay_hints_for_text, InlayHint, InlayHintKind};
use nomo_lsp::semantic::{
    classify, tokens, SemanticContext, ENUM_MEMBER, FUNCTION, KEYWORD, OPERATOR, PROPERTY,
};
use nomo_lsp::signature_help::{
    parameter_labels, signature_help_for_document, signature_help_target,
};
use nomo_lsp::symbol::{SemanticSymbol, SemanticSymbolKind};
use nomo_lsp::text::{Position, Range};
use nomo_lsp::token::{Token, TokenKind};

/// Splits Nomo source into tokens the way the compiler's lexer reports them:
/// one-based lines and byte columns, each token carrying its source line.
fn lex(source: &str) -> Vec<Token> {
    let lines: Vec<&str> = source.split('\n').collect();
    let mut out = Vec::new();
    let mut depth_comment = 0usize;
    for (li, line) in lines.iter().enumerate() {
        let bytes = line.as_bytes();
        let mut i = 0usize;
        let push = |out: &mut Vec<Token>, kind: TokenKind, col: usize| {
            out.push(Token { kind, line: li + 1, column: col + 1, text: line.to_string() });
        };
        while i < bytes.len() {
            let c = bytes[i];
            if depth_comment > 0 {
                if line[i..].starts_with("*/") {
                    depth_comment -= 1;
                    i += 2;
                } else if line[i..].starts_with("/*") {
                    depth_comment += 1;
                    i += 2;
                } else {
                    i += 1;
                }
                continue;
            }
            if c == b' ' || c == b'\t' || c == b'\r' {
                i += 1;
                continue;
            }
            if line[i..].starts_with("//") {
                break;
            }
            if line[i..].starts_with("/*") {
                depth_comment += 1;
                i += 2;
                continue;
            }
            let start = i;
            if c.is_ascii_alphabetic() || c == b'_' {
                while i < bytes.len() && (bytes[i].is_ascii_alphanumeric() || bytes[i] == b'_') {
                    i += 1;
                }
                let word = &line[start..i];
                let kind = match word {
                    "package" => TokenKind::Package,
                    "import" => TokenKind::Import,
                    "pub" => TokenKind::Pub,
                    "impl" => TokenKind::Impl,
                    "interface" => TokenKind::Interface,
                    "unsafe" => TokenKind::Unsafe,
                    "extern" => TokenKind::Extern,
                    "fn" => TokenKind::Fn,
                    "struct" => TokenKind::Struct,
                    "enum" => TokenKind::Enum,
                    "const" => TokenKind::Const,
                    "if" => TokenKind::If,
                    "else" => TokenKind::Else,
                    "match" => TokenKind::Match,
                    "panic" => TokenKind::Panic,
                    "as" => TokenKind::As,
                    "let" => TokenKind::Let,
                    "mut" => TokenKind::Mut,
                    "return" => TokenKind::Return,
                    "for" => TokenKind::For,
                    "in" => TokenKind::In,
                    "break" => TokenKind::Break,
                    "continue" => TokenKind::Continue,
                    "defer" => TokenKind::Defer,
                    "void" => TokenKind::Void,
                    "true" => TokenKind::True,
                    "false" => TokenKind::False,
                    _ => TokenKind::Ident(word.to_string()),
                };
                push(&mut out, kind, start);
                continue;
            }
            if c.is_ascii_digit() {
                while i < bytes.len() && bytes[i].is_ascii_digit() {
                    i += 1;
                }
                if i + 1 < bytes.len() && bytes[i] == b'.' && bytes[i + 1].is_ascii_digit() {
                    i += 1;
                    while i < bytes.len() && bytes[i].is_ascii_digit() {
                        i += 1;
                    }
                    push(&mut out, TokenKind::Float(line[start..i].to_string()), start);
                } else {
                    push(&mut out, TokenKind::Int(line[start..i].parse().unwrap()), start);
                }
                continue;
            }
            if c == b'"' {
                i += 1;
                while i < bytes.len() && bytes[i] != b'"' {
                    i += 1;
                }
                let contents = line[start + 1..i].to_string();
                i += 1;
                push(&mut out, TokenKind::Str(contents), start);
                continue;
            }
            if c == b'\'' {
                i += 1;
                while i < bytes.len() && bytes[i] != b'\'' {
                    i += 1;
                }
                i += 1;
                push(&mut out, TokenKind::Char, start);
                continue;
            }
            let two = if i + 1 < bytes.len() { &line[i..i + 2] } else { "" };
            let kind2 = match two {
                "==" => Some(TokenKind::EqualEqual),
                "!=" => Some(TokenKind::BangEqual),
                "<=" => Some(TokenKind::LessEqual),
                ">=" => Some(TokenKind::GreaterEqual),
                "->" => Some(TokenKind::Arrow),
                "=>" => Some(TokenKind::FatArrow),
                _ => None,
            };
            if let Some(kind) = kind2 {
                push(&mut out, kind, start);
                i += 2;
                continue;
            }
            let kind = match c {
                b'=' => TokenKind::Equal,
                b'+' => TokenKind::Plus,
                b'*' => TokenKind::Star,
                b'<' => TokenKind::Less,
                b'>' => TokenKind::Greater,
                b'?' => TokenKind::Question,
                b'(' => TokenKind::LParen,
                b')' => TokenKind::RParen,
                b'{' => TokenKind::LBrace,
                b'}' => TokenKind::RBrace,
                b'[' => TokenKind::LBracket,
                b']' => TokenKind::RBracket,
                b',' => TokenKind::Comma,
                b'.' => TokenKind::Dot,
                b':' => TokenKind::Colon,
                _ => TokenKind::Other,
            };
            push(&mut out, kind, start);
            i += 1;
        }
        if li + 1 < lines.len() {
            push(&mut out, TokenKind::Newline, bytes.len());
        } else {
            push(&mut out, TokenKind::Eof, bytes.len());
        }
    }
    out
}

fn line_of(text: &str, line: usize) -> String {
    text.split('\n').nth(line - 1).unwrap().to_string()
}

fn span(text: &str, line: usize, column: usize) -> Span {
    Span { line, column, text: line_of(text, line) }
}

fn let_stmt(text: &str, line: usize, name: &str, annotated: bool, value: Expr) -> Stmt {
    Stmt::Let { name: name.to_string(), annotated, value, span: span(text, line, 5) }
}

fn func(name: &str, params: &[&str], body: Vec<Stmt>) -> FunctionDecl {
    FunctionDecl {
        name: name.to_string(),
        params: params.iter().map(|p| p.to_string()).collect(),
        body,
    }
}

fn file(functions: Vec<FunctionDecl>) -> SourceFile {
    SourceFile {
        functions,
        extern_functions: Vec::new(),
        interface_methods: Vec::new(),
        impl_methods: Vec::new(),
        script_body: Vec::new(),
    }
}

fn full_document_range(text: &str) -> Range {
    let mut line = 0u32;
    let mut character = 0u32;
    for c in text.chars() {
        if c == '\n' {
            line += 1;
            character = 0;
        } else {
            character += c.len_utf16() as u32;
        }
    }
    Range { start: Position { line: 0, character: 0 }, end: Position { line, character } }
}

fn labels(hints: &[InlayHint]) -> Vec<&str> {
    hints.iter().map(|h| h.label.as_str()).collect()
}

fn symbol(name: &str, kind: SemanticSymbolKind, signature: &str, docs: &str) -> SemanticSymbol {
    let zero = Position { line: 0, character: 0 };
    SemanticSymbol {
        name: name.to_string(),
        kind,
        signature: signature.to_string(),
        docs: docs.to_string(),
        container_name: None,
        source_path: "main.nomo".to_string(),
        line: 1,
        range: Range { start: zero, end: zero },
        selection_range: Range { start: zero, end: zero },
    }
}

#[test]
fn classifies_current_v0_1_keywords_and_operators() {
    for (kind, text) in [
        (TokenKind::Impl, "impl"),
        (TokenKind::Interface, "interface"),
        (TokenKind::Unsafe, "unsafe"),
        (TokenKind::Extern, "extern"),
        (TokenKind::Const, "const"),
        (TokenKind::For, "for"),
        (TokenKind::In, "in"),
        (TokenKind::Break, "break"),
        (TokenKind::Continue, "continue"),
        (TokenKind::Defer, "defer"),
    ] {
        assert_eq!(classify(&kind), Some((KEYWORD, text.len() as u32)));
    }

    assert_eq!(classify(&TokenKind::Star), Some((OPERATOR, 1)));
}

#[test]
fn classifies_contextual_identifiers_for_lsp_highlighting() {
    let source = "package app.main\n\nstruct User {\n    name: string\n}\n\nenum Status {\n    Ok\n    Err(string)\n}\n\nfn greet(user: User) -> void {\n    println(user.name)\n    Status.Ok\n    let other: User = User { name: \"Ada\" }\n}\n";
    let raw = lex(source);
    let mut context = SemanticContext::new();
    let mut classified = Vec::new();
    for index in 0..raw.len() {
        if let TokenKind::Ident(name) = &raw[index].kind {
            let token_type = context.classify(&raw, index).map(|(token_type, _)| token_type);
            classified.push((name.clone(), raw[index].line, token_type));
        } else {
            context.classify(&raw, index);
        }
    }
    let has = |name: &str, line: usize, t: u32| {
        classified.iter().any(|(n, l, k)| n == name && *l == line && *k == Some(t))
    };

    assert!(has("greet", 12, FUNCTION));
    assert!(has("println", 13, FUNCTION));
    assert!(has("name", 4, PROPERTY));
    assert!(has("name", 13, PROPERTY));
    assert!(has("name", 15, PROPERTY));
    assert!(has("Ok", 8, ENUM_MEMBER));
    assert!(has("Ok", 14, ENUM_MEMBER));
    assert!(has("Err", 9, ENUM_MEMBER));
}

#[test]
fn semantic_tokens_are_delta_encoded() {
    let source = "fn main() {\n    let x = 1\n}\n";
    let encoded = tokens(Some(lex(source)));
    // `fn` at (0, 0), `main` at (0, 3), then `let` on the next line at column 4.
    assert_eq!((encoded[0].delta_line, encoded[0].delta_start, encoded[0].length), (0, 0, 2));
    assert_eq!(encoded[0].token_type, KEYWORD);
    assert_eq!((encoded[1].delta_line, encoded[1].delta_start, encoded[1].length), (0, 3, 4));
    assert_eq!(encoded[1].token_type, FUNCTION);
    let let_token = encoded.iter().find(|t| t.delta_line == 1).unwrap();
    assert_eq!((let_token.delta_start, let_token.length, let_token.token_type), (4, 3, KEYWORD));
    assert!(encoded.iter().all(|t| t.token_modifiers_bitset == 0));
}

#[test]
fn semantic_tokens_are_empty_when_lexing_fails() {
    assert!(tokens(None).is_empty());
}

#[test]
fn signature_help_uses_canonical_signature_and_active_parameter() {
    let text = "package app\n\n/// Adds two values.\nfn add(left: i64, right: i64) -> i64 {\n    return left + right\n}\n\nfn main() {\n    let total: i64 = add(1, 2)\n}\n";
    let (callee, active) =
        signature_help_target(&lex(text), Position { line: 8, character: 29 }).unwrap();
    assert_eq!(callee, Position { line: 8, character: 21 });
    let add = symbol(
        "add",
        SemanticSymbolKind::Function,
        "fn add(left: i64, right: i64) -> i64",
        "Adds two values.",
    );
    let help = signature_help_for_document(Some(add), active).unwrap();

    assert_eq!(help.signatures[0].label, "fn add(left: i64, right: i64) -> i64");
    assert_eq!(help.active_parameter, Some(1));
    assert_eq!(help.signatures[0].active_parameter, Some(1));
}

#[test]
fn signature_help_offsets_the_implicit_method_receiver() {
    let text = "package app\n\nstruct Counter {\n    value: i64\n}\n\nimpl Counter {\n    fn add(self, delta: i64) -> i64 {\n        return self.value + delta\n    }\n}\n\nfn main() {\n    let counter = Counter { value: 1 }\n    let total = counter.add(2)\n}\n";
    let (callee, active) =
        signature_help_target(&lex(text), Position { line: 14, character: 29 }).unwrap();
    assert_eq!(callee, Position { line: 14, character: 24 });
    let add = symbol(
        "add",
        SemanticSymbolKind::Method,
        "fn Counter.add(self: Counter, delta: i64) -> i64",
        "",
    );
    let help = signature_help_for_document(Some(add), active).unwrap();

    assert_eq!(help.signatures[0].label, "fn Counter.add(self: Counter, delta: i64) -> i64");
    assert_eq!(help.active_parameter, Some(1));
}

#[test]
fn signature_help_preserves_callable_void_returns() {
    let text = "package app\n\nfn install(callback: task fn(string) -> void) {\n}\n\nfn handler(message: string) {\n}\n\nfn main() {\n    install(handler)\n}\n";
    let (_, active) =
        signature_help_target(&lex(text), Position { line: 9, character: 13 }).unwrap();
    let install = symbol(
        "install",
        SemanticSymbolKind::Function,
        "fn install(callback: task fn(string) -> void)",
        "",
    );
    let help = signature_help_for_document(Some(install), active).unwrap();

    assert_eq!(help.signatures[0].label, "fn install(callback: task fn(string) -> void)");
    assert_eq!(
        parameter_labels(&help.signatures[0].label).unwrap(),
        vec!["callback: task fn(string) -> void"]
    );
}

#[test]
fn signature_help_is_not_offered_for_a_declaration_parameter_list() {
    let text = "package app\n\nfn add(left: i64, right: i64) -> i64 {\n    return left + right\n}\n";

    assert!(signature_help_target(&lex(text), Position { line: 2, character: 20 }).is_none());
}

#[test]
fn signature_help_needs_a_declaration_at_the_callee() {
    assert!(signature_help_for_document(None, 0).is_none());
    let user = symbol("User", SemanticSymbolKind::Struct, "pub struct User", "");
    assert!(signature_help_for_document(Some(user), 0).is_none());
}

#[test]
fn inlay_hints_include_unannotated_let_literal_types() {
    let text = "package app.main\n\nfn main() -> void {\n    let message = \"hi\"\n    let count = 1\n    let ok = true\n    let et = 'x'\n    let mut mutable = 3.14\n    let explicit: string = \"shown in source\"\n}\n";
    let body = vec![
        let_stmt(text, 4, "message", false, Expr::String),
        let_stmt(text, 5, "count", false, Expr::Int),
        let_stmt(text, 6, "ok", false, Expr::Bool),
        let_stmt(text, 7, "et", false, Expr::Char),
        let_stmt(text, 8, "mutable", false, Expr::Float),
        let_stmt(text, 9, "explicit", true, Expr::String),
    ];
    let parsed = file(vec![func("main", &[], body)]);

    let hints = inlay_hints_for_text(Some(lex(text)), Some(parsed), full_document_range(text));

    assert_eq!(labels(&hints), vec![": string", ": i64", ": bool", ": char", ": f64"]);
    assert_eq!(hints[0].position, Position { line: 3, character: 15 });
    assert!(hints.iter().all(|hint| hint.kind == InlayHintKind::Type));
    assert_eq!(hints[3].position, Position { line: 6, character: 10 });
    assert_eq!(hints[4].position, Position { line: 7, character: 19 });
}

#[test]
fn inlay_hints_include_nested_and_expression_types() {
    let text = "package app.main\n\nstruct Label {\n    value: string\n}\n\nfn main() -> void {\n    for {\n        let label = Label { value: \"hi\" }\n        let casted = 1 as i32\n        let compared = 1 < 2\n        let uncertain = load()\n        break\n    }\n}\n";
    let nested = |line: usize, name: &str, value: Expr| Stmt::Let {
        name: name.to_string(),
        annotated: false,
        value,
        span: span(text, line, 9),
    };
    let body = vec![Stmt::For {
        body: vec![
            nested(9, "label", Expr::StructLiteral { path: vec!["Label".to_string()] }),
            nested(
                10,
                "casted",
                Expr::Cast { target: TypeRef { path: vec!["i32".to_string()], args: vec![] } },
            ),
            nested(
                11,
                "compared",
                Expr::Binary {
                    left: Box::new(Expr::Int),
                    op: BinaryOp::Less,
                    right: Box::new(Expr::Int),
                },
            ),
            nested(12, "uncertain", Expr::Opaque),
            Stmt::Simple,
        ],
    }];
    let parsed = file(vec![func("main", &[], body)]);

    let hints = inlay_hints_for_text(Some(lex(text)), Some(parsed), full_document_range(text));

    assert_eq!(labels(&hints), vec![": Label", ": i32", ": bool"]);
}

#[test]
fn inlay_hints_include_same_file_function_parameter_names() {
    let text = "package app.main\n\nfn add(left: i64, right: i64) -> i64 {\n    return left + right\n}\n\nfn main() -> void {\n    let total = add(1, 2)\n    let copied = add(left, right)\n}\n";
    let parsed = file(vec![
        func("add", &["left", "right"], vec![Stmt::Simple]),
        func(
            "main",
            &[],
            vec![
                let_stmt(text, 8, "total", false, Expr::Opaque),
                let_stmt(text, 9, "copied", false, Expr::Opaque),
            ],
        ),
    ]);

    let hints = inlay_hints_for_text(Some(lex(text)), Some(parsed), full_document_range(text));

    assert_eq!(labels(&hints), vec!["left:", "right:"]);
    assert_eq!(hints[0].kind, InlayHintKind::Parameter);
    assert_eq!(hints[0].position, Position { line: 7, character: 20 });
    assert_eq!(hints[1].position, Position { line: 7, character: 23 });
}

#[test]
fn inlay_hints_include_same_file_extern_function_parameter_names() {
    let text = "package app.main\n\nextern \"C\" {\n    fn puts(message: string) -> i32\n}\n\nfn main() -> void {\n    let status = puts(\"hi\")\n}\n";
    let mut parsed =
        file(vec![func("main", &[], vec![let_stmt(text, 8, "status", false, Expr::Opaque)])]);
    parsed.extern_functions.push(func("puts", &["message"], vec![]));

    let hints = inlay_hints_for_text(Some(lex(text)), Some(parsed), full_document_range(text));

    assert_eq!(labels(&hints), vec!["message:"]);
    assert_eq!(hints[0].kind, InlayHintKind::Parameter);
}

#[test]
fn inlay_hints_include_same_file_method_parameter_names() {
    let text = "package app.main\n\nstruct Counter {\n    value: i64\n}\n\nimpl Counter {\n    fn add(self, delta: i64) -> i64 {\n        return self.value + delta\n    }\n}\n\ninterface Writer {\n    fn write(self, message: string) -> void\n}\n\nfn main() -> void {\n    let counter = Counter { value: 1 }\n    let value = counter.add(2)\n    writer.write(\"hi\")\n}\n";
    let mut parsed = file(vec![func(
        "main",
        &[],
        vec![
            let_stmt(
                text,
                18,
                "counter",
                false,
                Expr::StructLiteral { path: vec!["Counter".to_string()] },
            ),
            let_stmt(text, 19, "value", false, Expr::Opaque),
            Stmt::Simple,
        ],
    )]);
    parsed.impl_methods.push(func("add", &["self", "delta"], vec![Stmt::Simple]));
    parsed.interface_methods.push(func("write", &["self", "message"], vec![]));

    let hints = inlay_hints_for_text(Some(lex(text)), Some(parsed), full_document_range(text));

    let parameter_labels = hints
        .iter()
        .filter(|hint| hint.kind == InlayHintKind::Parameter)
        .map(|hint| hint.label.as_str())
        .collect::<Vec<_>>();
    assert_eq!(parameter_labels, vec!["delta:", "message:"]);
}

#[test]
fn inlay_hints_respect_requested_range() {
    let text = "package app.main\n\nfn main() -> void {\n    let first = \"hi\"\n    let second = 1\n}\n";
    let range = Range {
        start: Position { line: 4, character: 0 },
        end: Position { line: 4, character: u32::MAX },
    };
    let parsed = file(vec![func(
        "main",
        &[],
        vec![
            let_stmt(text, 4, "first", false, Expr::String),
            let_stmt(text, 5, "second", false, Expr::Int),
        ],
    )]);

    let hints = inlay_hints_for_text(Some(lex(text)), Some(parsed), range);

    assert_eq!(hints.len(), 1);
    assert_eq!(hints[0].position, Position { line: 4, character: 14 });
    assert_eq!(hints[0].label, ": i64");
}

#[test]
fn inlay_hints_return_empty_for_invalid_source() {
    let text = "package app.main\n\nfn main( {\n";

    let hints = inlay_hints_for_text(Some(lex(text)), None, full_document_range(text));

    assert!(hints.is_empty());
}

#[test]
fn inlay_hints_come_sorted_by_position() {
    let text = "package app.main\n\nfn add(left: i64) -> i64 {\n    return left\n}\n\nfn main() -> void {\n    let a = add(1)\n    let b = 2\n}\n";
    let parsed = file(vec![
        func("add", &["left"], vec![Stmt::Simple]),
        func(
            "main",
            &[],
            vec![
                let_stmt(text, 8, "a", false, Expr::Opaque),
                let_stmt(text, 9, "b", false, Expr::Int),
            ],
        ),
    ]);

    let hints = inlay_hints_for_text(Some(lex(text)), Some(parsed), full_document_range(text));

    assert_eq!(labels(&hints), vec!["left:", ": i64"]);
    for pair in hints.windows(2) {
        let (a, b) = (pair[0].position, pair[1].position);
        assert!((a.line, a.character) <= (b.line, b.character));
    }
}

#[test]
fn signature_help_takes_any_argument_index_without_a_receiver() {
    let add = symbol("add", SemanticSymbolKind::Function, "fn add(a: i64) -> i64", "");
    let help = signature_help_for_document(Some(add), u32::MAX).unwrap();
    assert_eq!(help.active_parameter, None);
    let user = symbol("User", SemanticSymbolKind::Struct, "pub struct User", "");
    assert!(signature_help_for_document(Some(user), u32::MAX).is_none());
}

#[test]
fn parameter_labels_read_back_joined_labels() {
    let labels = vec!["a: i64".to_string(), "mut self: Counter".to_string(), "f: task fn".to_string()];
    let signature = format!("fn f({}) -> i64", labels.join(", "));
    assert_eq!(parameter_labels(&signature), Some(labels));
    assert_eq!(parameter_labels("fn f() -> i64"), Some(Vec::new()));
    assert_eq!(parameter_labels("pub struct User"), None);
}
