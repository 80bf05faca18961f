//! Completion: which kind of completion a cursor position asks for, and the items
//! offered: keywords first, then attributes, import paths or declared symbols,
//! each label at most once.
use vstd::prelude::*;
use vstd::string::*;
use crate::ast::views;
use crate::incremental::path_lt;
use crate::lines::{char_views, split_lines, text_lines};
use crate::navigation::{is_ident_char, ident_char, string_of};
use crate::symbol::{SemanticSymbol, SemanticSymbolKind, chars_start_with, has_prefix,
    skip_leading_whitespace, leading_ws_from, trimmed_start};
use crate::text::{Position, column_char_index, column_to_char_index, slice_chars};

verus! {

broadcast use vstd::seq_lib::group_seq_properties;

/// What a completion item completes.
#[derive(Clone, Copy, Debug, PartialEq, Eq, Structural)]
pub enum CompletionKind {
    Keyword,
    Module,
    Struct,
    Enum,
    Field,
    EnumMember,
    Interface,
    Method,
    Constant,
    Function,
}

/// A completion item: its label and kind, and optionally a detail line and
/// Markdown documentation.
#[derive(Clone, Debug)]
pub struct CompletionItem {
    pub label: String,
    pub kind: CompletionKind,
    pub detail: Option<String>,
    pub documentation: Option<String>,
}

/// What an item shows: label, kind, detail and documentation.
pub open spec fn item_view(i: CompletionItem) -> (Seq<char>, CompletionKind, Option<Seq<char>>, Option<
    Seq<char>,
>) {
    (
        i.label@,
        i.kind,
        match i.detail {
            Some(d) => Some(d@),
            None => None,
        },
        match i.documentation {
            Some(d) => Some(d@),
            None => None,
        },
    )
}

/// The views of a list of items.
pub open spec fn items_view(v: Seq<CompletionItem>) -> Seq<
    (Seq<char>, CompletionKind, Option<Seq<char>>, Option<Seq<char>>),
> {
    v.map_values(|i: CompletionItem| item_view(i))
}

/// The keywords offered as completions, in the order they are offered.
pub open spec fn keyword_list() -> Seq<Seq<char>> {
    seq![
        "package"@, "import"@, "pub"@, "fn"@, "struct"@, "enum"@, "interface"@, "impl"@,
        "extern"@, "unsafe"@, "let"@, "mut"@, "const"@, "if"@, "else"@, "match"@, "for"@,
        "in"@, "return"@, "defer"@, "break"@, "continue"@, "panic"@, "as"@, "true"@, "false"@,
        "void"@,
    ]
}

/// The keywords, as strings.
pub fn keywords() -> (k: Vec<String>)
    ensures
        views(k@) == keyword_list(),
{
    let mut k: Vec<String> = Vec::new();
    k.push("package".to_owned());
    k.push("import".to_owned());
    k.push("pub".to_owned());
    k.push("fn".to_owned());
    k.push("struct".to_owned());
    k.push("enum".to_owned());
    k.push("interface".to_owned());
    k.push("impl".to_owned());
    k.push("extern".to_owned());
    k.push("unsafe".to_owned());
    k.push("let".to_owned());
    k.push("mut".to_owned());
    k.push("const".to_owned());
    k.push("if".to_owned());
    k.push("else".to_owned());
    k.push("match".to_owned());
    k.push("for".to_owned());
    k.push("in".to_owned());
    k.push("return".to_owned());
    k.push("defer".to_owned());
    k.push("break".to_owned());
    k.push("continue".to_owned());
    k.push("panic".to_owned());
    k.push("as".to_owned());
    k.push("true".to_owned());
    k.push("false".to_owned());
    k.push("void".to_owned());
    assert(views(k@) =~= keyword_list());
    k
}

/// The characters that make a client ask for completions: `.`, space and `[`.
pub fn completion_trigger_characters() -> (t: Vec<String>)
    ensures
        views(t@) == seq![("."@), (" "@), ("["@)],
{
    let mut t: Vec<String> = Vec::new();
    t.push(".".to_owned());
    t.push(" ".to_owned());
    t.push("[".to_owned());
    assert(views(t@) =~= seq![("."@), (" "@), ("["@)]);
    t
}

/// Whether `name` is among the labels already offered.
fn seen_contains(seen: &Vec<String>, name: &String) -> (b: bool)
    ensures
        b == views(seen@).contains(name@),
{
    crate::inlay_hints::contains_string(seen, name)
}

/// Offers `label` unless it was offered before; returns whether it is new.
fn offer(seen: &mut Vec<String>, label: &String) -> (fresh: bool)
    ensures
        fresh == !views(old(seen)@).contains(label@),
        forall|x: Seq<char>| #[trigger]
            views(final(seen)@).contains(x) == (views(old(seen)@).contains(x) || x == label@),
{
    if seen_contains(seen, label) {
        return false;
    }
    let ghost before = views(seen@);
    seen.push(label.clone());
    assert(views(seen@) =~= before.push(label@));
    assert forall|x: Seq<char>| #[trigger] views(seen@).contains(x) == (before.contains(x) || x
        == label@) by {
        if views(seen@).contains(x) && x != label@ {
            let w = choose|w: int| 0 <= w < views(seen@).len() && views(seen@)[w] == x;
            assert(before[w] == x);
        }
        if before.contains(x) {
            let w = choose|w: int| 0 <= w < before.len() && before[w] == x;
            assert(views(seen@)[w] == x);
        }
        if x == label@ {
            assert(views(seen@)[before.len() as int] == x);
        }
    }
    true
}

/// The labels among `labels` not already offered, each once, in order.
pub open spec fn fresh_labels(labels: Seq<Seq<char>>, seen: Seq<Seq<char>>) -> Seq<Seq<char>>
    decreases labels.len(),
{
    if labels.len() == 0 {
        Seq::empty()
    } else {
        let before = fresh_labels(labels.drop_last(), seen);
        let l = labels.last();
        if seen.contains(l) || labels.drop_last().contains(l) {
            before
        } else {
            before.push(l)
        }
    }
}

/// Keyword items for the keywords not yet offered, which become offered.
pub fn keyword_completion_items(seen: &mut Vec<String>) -> (items: Vec<CompletionItem>)
    ensures
        items_view(items@) == fresh_labels(keyword_list(), views(old(seen)@)).map_values(
            |l: Seq<char>| (l, CompletionKind::Keyword, None::<Seq<char>>, None::<Seq<char>>),
        ),
        forall|x: Seq<char>| #[trigger]
            views(final(seen)@).contains(x) == (views(old(seen)@).contains(x)
                || keyword_list().contains(x)),
{
    let words = keywords();
    let ghost start = views(seen@);
    let ghost kw = keyword_list();
    let mut items: Vec<CompletionItem> = Vec::new();
    let mut i: usize = 0;
    while i < words.len()
        invariant
            i <= words.len(),
            kw == keyword_list(),
            views(words@) == kw,
            items_view(items@) == fresh_labels(kw.take(i as int), start).map_values(
                |l: Seq<char>| (l, CompletionKind::Keyword, None::<Seq<char>>, None::<Seq<char>>),
            ),
            forall|x: Seq<char>| #[trigger]
                views(seen@).contains(x) == (start.contains(x) || kw.take(i as int).contains(x)),
        decreases words.len() - i,
    {
        let word = &words[i];
        assert(kw[i as int] == word@);
        let ghost prefix = kw.take(i as int);
        assert(kw.take(i + 1).drop_last() =~= prefix);
        assert(kw.take(i + 1).last() == word@);
        let ghost before_items = items_view(items@);
        let fresh = offer(seen, word);
        assert(fresh == !(start.contains(word@) || prefix.contains(word@)));
        if fresh {
            items.push(
                CompletionItem {
                    label: word.clone(),
                    kind: CompletionKind::Keyword,
                    detail: None,
                    documentation: None,
                },
            );
            assert(items_view(items@) =~= before_items.push(
                (word@, CompletionKind::Keyword, None::<Seq<char>>, None::<Seq<char>>),
            ));
        }
        assert forall|x: Seq<char>| #[trigger]
            views(seen@).contains(x) == (start.contains(x) || kw.take(i + 1).contains(x)) by {
            let t = kw.take(i + 1);
            if t.contains(x) && x != word@ {
                let w = choose|w: int| 0 <= w < t.len() && t[w] == x;
                assert(prefix[w] == x);
            }
            if prefix.contains(x) {
                let w = choose|w: int| 0 <= w < i && prefix[w] == x;
                assert(kw.take(i + 1)[w] == x);
            }
            if x == word@ {
                assert(kw.take(i + 1)[i as int] == x);
            }
        }
        i = i + 1;
    }
    assert(kw.take(words.len() as int) =~= kw);
    items
}

/// The documentation of the `test` attribute.
pub open spec fn test_attribute_docs() -> Seq<char> {
    "Marks a top-level function for `nomo test` discovery."@
}

/// The `test` attribute item, unless `test` was offered before.
pub fn attribute_completion_items(seen: &mut Vec<String>) -> (items: Vec<CompletionItem>)
    ensures
        views(old(seen)@).contains("test"@) ==> items@.len() == 0,
        !views(old(seen)@).contains("test"@) ==> items_view(items@) == seq![
            ("test"@, CompletionKind::Keyword, Some("attribute"@), Some(test_attribute_docs())),
        ],
        forall|x: Seq<char>| #[trigger]
            views(final(seen)@).contains(x) == (views(old(seen)@).contains(x) || x == "test"@),
{
    let label = "test".to_owned();
    let mut items: Vec<CompletionItem> = Vec::new();
    if offer(seen, &label) {
        items.push(
            CompletionItem {
                label,
                kind: CompletionKind::Keyword,
                detail: Some("attribute".to_owned()),
                documentation: Some(
                    "Marks a top-level function for `nomo test` discovery.".to_owned(),
                ),
            },
        );
        assert(items_view(items@) =~= seq![
            ("test"@, CompletionKind::Keyword, Some("attribute"@), Some(test_attribute_docs())),
        ]);
    }
    items
}

/// The text of the cursor's line before the cursor, without leading whitespace.
pub open spec fn text_before_cursor(lines: Seq<Seq<char>>, position: Position) -> Seq<char> {
    let line = lines[position.line as int];
    trimmed_start(line.take(column_char_index(line, position.character as int) as int))
}

/// Whether the cursor follows `#[` and identifier characters at the start of its line.
pub open spec fn attribute_position(lines: Seq<Seq<char>>, position: Position) -> bool {
    &&& position.line < lines.len()
    &&& has_prefix(text_before_cursor(lines, position), "#["@)
    &&& forall|i: int|
        2 <= i < text_before_cursor(lines, position).len() ==> is_ident_char(
            #[trigger] text_before_cursor(lines, position)[i],
        )
}

/// Whether the text before the cursor starts with `import`.
pub open spec fn import_position(lines: Seq<Seq<char>>, position: Position) -> bool {
    position.line < lines.len() && has_prefix(text_before_cursor(lines, position), "import"@)
}

/// The text before the cursor on its line, without leading whitespace.
fn prefix_before_cursor(lines: &Vec<Vec<char>>, position: Position) -> (p: Vec<char>)
    requires
        position.line < lines.len(),
    ensures
        p@ == text_before_cursor(char_views(lines@), position),
{
    let line = &lines[position.line as usize];
    assert(char_views(lines@)[position.line as int] == line@);
    let cursor = column_to_char_index(line, position.character);
    let start = skip_leading_whitespace(line, 0, cursor);
    assert(line@.subrange(0, cursor as int) =~= line@.take(cursor as int));
    let p = slice_chars(line, start, cursor);
    assert(p@ =~= line@.take(cursor as int).skip(start as int));
    p
}

/// Whether the cursor is completing an attribute name (see [`attribute_position`]).
pub fn is_attribute_completion_position(text: &str, position: Position) -> (b: bool)
    ensures
        b == attribute_position(text_lines(text@), position),
{
    let lines = split_lines(text);
    if position.line as usize >= lines.len() {
        return false;
    }
    let p = prefix_before_cursor(&lines, position);
    proof {
        reveal_strlit("#[");
    }
    if !chars_start_with(&p, 0, "#[") {
        assert(p@.skip(0) =~= p@);
        return false;
    }
    assert(p@.skip(0) =~= p@);
    let mut i: usize = 2;
    while i < p.len()
        invariant
            2 <= i <= p.len(),
            p@ == text_before_cursor(text_lines(text@), position),
            position.line < text_lines(text@).len(),
            has_prefix(p@, "#["@),
            forall|j: int| 2 <= j < i ==> is_ident_char(#[trigger] p@[j]),
        decreases p.len() - i,
    {
        if !ident_char(p[i]) {
            assert(!is_ident_char(text_before_cursor(text_lines(text@), position)[i as int]));
            return false;
        }
        i = i + 1;
    }
    true
}

/// Whether the cursor is completing an import path (see [`import_position`]).
pub fn is_import_completion_position(text: &str, position: Position) -> (b: bool)
    ensures
        b == import_position(text_lines(text@), position),
{
    let lines = split_lines(text);
    if position.line as usize >= lines.len() {
        return false;
    }
    let p = prefix_before_cursor(&lines, position);
    assert(p@.skip(0) =~= p@);
    chars_start_with(&p, 0, "import")
}

/// Which completions a request gets.
#[derive(Clone, Copy, Debug, PartialEq, Eq, Structural)]
pub enum CompletionMode {
    /// The document's text is unavailable: keywords only.
    KeywordsOnly,
    /// An attribute name: keywords and attributes.
    Attribute,
    /// An import path: keywords and importable modules.
    Import,
    /// Anything else: keywords and declared symbols.
    Symbols,
}

/// The completion mode for a document text and cursor.
pub open spec fn completion_mode_of(text: Option<Seq<char>>, position: Option<Position>) -> CompletionMode {
    match text {
        None => CompletionMode::KeywordsOnly,
        Some(t) => match position {
            Some(p) => if attribute_position(text_lines(t), p) {
                CompletionMode::Attribute
            } else if import_position(text_lines(t), p) {
                CompletionMode::Import
            } else {
                CompletionMode::Symbols
            },
            None => CompletionMode::Symbols,
        },
    }
}

/// Which completions the cursor asks for (see [`completion_mode_of`]).
pub fn completion_mode(text: Option<&str>, position: Option<Position>) -> (m: CompletionMode)
    ensures
        m == completion_mode_of(
            match text {
                Some(t) => Some(t@),
                None => None,
            },
            position,
        ),
{
    match text {
        None => CompletionMode::KeywordsOnly,
        Some(t) => match position {
            Some(p) => {
                if is_attribute_completion_position(t, p) {
                    CompletionMode::Attribute
                } else if is_import_completion_position(t, p) {
                    CompletionMode::Import
                } else {
                    CompletionMode::Symbols
                }
            },
            None => CompletionMode::Symbols,
        },
    }
}

/// The completion kind of a declared symbol.
pub open spec fn symbol_completion_kind(kind: SemanticSymbolKind) -> CompletionKind {
    match kind {
        SemanticSymbolKind::Struct => CompletionKind::Struct,
        SemanticSymbolKind::Enum => CompletionKind::Enum,
        SemanticSymbolKind::Field => CompletionKind::Field,
        SemanticSymbolKind::Variant => CompletionKind::EnumMember,
        SemanticSymbolKind::Interface => CompletionKind::Interface,
        SemanticSymbolKind::InterfaceMethod => CompletionKind::Method,
        SemanticSymbolKind::Const => CompletionKind::Constant,
        SemanticSymbolKind::Function => CompletionKind::Function,
        SemanticSymbolKind::ExternFunction => CompletionKind::Function,
        SemanticSymbolKind::Method => CompletionKind::Method,
    }
}

/// The completion kind of a declared symbol (see [`symbol_completion_kind`]).
pub fn completion_kind(kind: SemanticSymbolKind) -> (k: CompletionKind)
    ensures
        k == symbol_completion_kind(kind),
{
    match kind {
        SemanticSymbolKind::Struct => CompletionKind::Struct,
        SemanticSymbolKind::Enum => CompletionKind::Enum,
        SemanticSymbolKind::Field => CompletionKind::Field,
        SemanticSymbolKind::Variant => CompletionKind::EnumMember,
        SemanticSymbolKind::Interface => CompletionKind::Interface,
        SemanticSymbolKind::InterfaceMethod => CompletionKind::Method,
        SemanticSymbolKind::Const => CompletionKind::Constant,
        SemanticSymbolKind::Function => CompletionKind::Function,
        SemanticSymbolKind::ExternFunction => CompletionKind::Function,
        SemanticSymbolKind::Method => CompletionKind::Method,
    }
}

/// The item a declared symbol is offered as: its name, kind, signature, and its
/// documentation when it has any.
pub open spec fn symbol_item(s: SemanticSymbol) -> (Seq<char>, CompletionKind, Option<Seq<char>>, Option<
    Seq<char>,
>) {
    (
        s.name@,
        symbol_completion_kind(s.kind),
        Some(s.signature@),
        if s.docs@.len() > 0 {
            Some(s.docs@)
        } else {
            None
        },
    )
}

/// The completion item of a declared symbol (see [`symbol_item`]).
pub fn completion_item_for_symbol(symbol: SemanticSymbol) -> (item: CompletionItem)
    ensures
        item_view(item) == symbol_item(symbol),
{
    let has_docs = !symbol.docs.as_str().is_empty();
    CompletionItem {
        label: symbol.name,
        kind: completion_kind(symbol.kind),
        detail: Some(symbol.signature),
        documentation: if has_docs {
            Some(symbol.docs)
        } else {
            None
        },
    }
}

/// Strict lexicographic order of texts by character code (the order of `String`).
pub open spec fn text_lt(a: Seq<char>, b: Seq<char>) -> bool
    decreases a.len(),
{
    if a.len() == 0 {
        b.len() > 0
    } else if b.len() == 0 {
        false
    } else if a[0] != b[0] {
        (a[0] as u32) < (b[0] as u32)
    } else {
        text_lt(a.drop_first(), b.drop_first())
    }
}

/// Whether `a` sorts strictly before `b` (see [`text_lt`]).
pub fn text_precedes(a: &String, b: &String) -> (r: bool)
    ensures
        r == text_lt(a@, b@),
{
    let x = crate::text::text_chars(a.as_str());
    let y = crate::text::text_chars(b.as_str());
    let mut i: usize = 0;
    while i < x.len() && i < y.len() && x[i] == y[i]
        invariant
            x@ == a@,
            y@ == b@,
            i <= x.len(),
            i <= y.len(),
            text_lt(x@.skip(i as int), y@.skip(i as int)) == text_lt(a@, b@),
        decreases x.len() - i,
    {
        assert(x@.skip(i as int).drop_first() =~= x@.skip(i + 1));
        assert(y@.skip(i as int).drop_first() =~= y@.skip(i + 1));
        i = i + 1;
    }
    if i == x.len() {
        assert(x@.skip(i as int).len() == 0);
        return i < y.len();
    }
    if i == y.len() {
        assert(y@.skip(i as int).len() == 0);
        return false;
    }
    assert(x@.skip(i as int)[0] == x@[i as int] && y@.skip(i as int)[0] == y@[i as int]);
    (x[i] as u32) < (y[i] as u32)
}

/// Import candidates held as labels and kinds.
pub open spec fn entries_view(v: Seq<(String, CompletionKind)>) -> Seq<(Seq<char>, CompletionKind)> {
    v.map_values(|e: (String, CompletionKind)| (e.0@, e.1))
}

/// The labels of entries.
pub open spec fn entry_labels(v: Seq<(Seq<char>, CompletionKind)>) -> Seq<Seq<char>> {
    v.map_values(|e: (Seq<char>, CompletionKind)| e.0)
}

/// Where `e` goes among the label-sorted `sorted`: after every entry whose label does
/// not sort after its own.
pub open spec fn entry_insertion_index(
    sorted: Seq<(Seq<char>, CompletionKind)>,
    e: (Seq<char>, CompletionKind),
    from: nat,
) -> nat
    decreases sorted.len() - from,
{
    if from < sorted.len() && !text_lt(e.0, sorted[from as int].0) {
        entry_insertion_index(sorted, e, from + 1)
    } else {
        from
    }
}

/// Entries stably sorted by label.
pub open spec fn sort_entries(v: Seq<(Seq<char>, CompletionKind)>) -> Seq<(Seq<char>, CompletionKind)>
    decreases v.len(),
{
    if v.len() == 0 {
        v
    } else {
        let sorted = sort_entries(v.drop_last());
        sorted.insert(entry_insertion_index(sorted, v.last(), 0) as int, v.last())
    }
}

/// Entries without those whose label equals the label of the entry before them.
pub open spec fn dedup_entries(v: Seq<(Seq<char>, CompletionKind)>) -> Seq<(Seq<char>, CompletionKind)>
    decreases v.len(),
{
    if v.len() == 0 {
        v
    } else if v.len() >= 2 && v[v.len() - 2].0 == v.last().0 {
        dedup_entries(v.drop_last())
    } else {
        dedup_entries(v.drop_last()).push(v.last())
    }
}

/// The entries whose labels were not offered before (by `seen` or an earlier entry).
pub open spec fn fresh_entries(v: Seq<(Seq<char>, CompletionKind)>, seen: Seq<Seq<char>>) -> Seq<
    (Seq<char>, CompletionKind),
>
    decreases v.len(),
{
    if v.len() == 0 {
        v
    } else if seen.contains(v.last().0) || entry_labels(v.drop_last()).contains(v.last().0) {
        fresh_entries(v.drop_last(), seen)
    } else {
        fresh_entries(v.drop_last(), seen).push(v.last())
    }
}

/// The import items offered: the candidates sorted by label, repeated labels dropped,
/// and labels offered before left out.
pub open spec fn import_items(imports: Seq<(Seq<char>, CompletionKind)>, seen: Seq<Seq<char>>) -> Seq<
    (Seq<char>, CompletionKind, Option<Seq<char>>, Option<Seq<char>>),
> {
    fresh_entries(dedup_entries(sort_entries(imports)), seen).map_values(
        |e: (Seq<char>, CompletionKind)| (e.0, e.1, None::<Seq<char>>, None::<Seq<char>>),
    )
}

proof fn lemma_entry_insertion_index_bound(
    sorted: Seq<(Seq<char>, CompletionKind)>,
    e: (Seq<char>, CompletionKind),
    from: nat,
)
    requires
        from <= sorted.len(),
    ensures
        from <= entry_insertion_index(sorted, e, from) <= sorted.len(),
    decreases sorted.len() - from,
{
    if from < sorted.len() && !text_lt(e.0, sorted[from as int].0) {
        lemma_entry_insertion_index_bound(sorted, e, from + 1);
    }
}

pub proof fn lemma_push_contains(v: Seq<Seq<char>>, y: Seq<char>)
    ensures
        forall|x: Seq<char>| #[trigger] v.push(y).contains(x) == (v.contains(x) || x == y),
{
    assert forall|x: Seq<char>| #[trigger] v.push(y).contains(x) == (v.contains(x) || x == y) by {
        if v.push(y).contains(x) && x != y {
            let w = choose|w: int| 0 <= w < v.push(y).len() && v.push(y)[w] == x;
            assert(v[w] == x);
        }
        if v.contains(x) {
            let w = choose|w: int| 0 <= w < v.len() && v[w] == x;
            assert(v.push(y)[w] == x);
        }
        if x == y {
            assert(v.push(y)[v.len() as int] == x);
        }
    }
}

/// Entries sorted by label, entries with equal labels keeping their order.
fn sorted_entries(entries: Vec<(String, CompletionKind)>) -> (sorted: Vec<(String, CompletionKind)>)
    ensures
        entries_view(sorted@) == sort_entries(entries_view(entries@)),
{
    let ghost all = entries_view(entries@);
    let mut rest = entries;
    let mut sorted: Vec<(String, CompletionKind)> = Vec::new();
    let mut k: usize = 0;
    assert(all.take(0) =~= Seq::<(Seq<char>, CompletionKind)>::empty());
    assert(all.skip(0) =~= all);
    assert(all.len() == rest.len());
    while rest.len() > 0
        invariant
            k <= all.len(),
            all.len() <= usize::MAX,
            entries_view(rest@) == all.skip(k as int),
            entries_view(sorted@) == sort_entries(all.take(k as int)),
        decreases rest.len(),
    {
        let ghost old_rest = rest@;
        let e = rest.remove(0);
        proof {
            assert(rest@ =~= old_rest.skip(1));
            assert(e == old_rest[0]);
            assert(entries_view(old_rest) == all.skip(k as int));
            assert(entries_view(old_rest).len() == old_rest.len());
            assert(k < all.len());
            assert(entries_view(old_rest)[0] == (e.0@, e.1));
            assert(all.skip(k as int)[0] == all[k as int]);
            assert(all[k as int] == (e.0@, e.1));
            assert forall|i: int| 0 <= i < rest@.len() implies #[trigger] entries_view(rest@)[i]
                == all.skip(k + 1)[i] by {
                assert(rest@[i] == old_rest[i + 1]);
                assert(entries_view(rest@)[i] == (rest@[i].0@, rest@[i].1));
                assert(entries_view(old_rest)[i + 1] == (old_rest[i + 1].0@, old_rest[i + 1].1));
                assert(entries_view(old_rest)[i + 1] == all.skip(k as int)[i + 1]);
            }
            assert(entries_view(rest@) =~= all.skip(k + 1));
        }
        let ghost sv = entries_view(sorted@);
        let ghost ev = (e.0@, e.1);
        proof {
            lemma_entry_insertion_index_bound(sv, ev, 0);
        }
        let mut j: usize = 0;
        while j < sorted.len() && !text_precedes(&e.0, &sorted[j].0)
            invariant
                j <= sorted.len(),
                sv == entries_view(sorted@),
                ev == (e.0@, e.1),
                entry_insertion_index(sv, ev, j as nat) == entry_insertion_index(sv, ev, 0),
            decreases sorted.len() - j,
        {
            assert(sv[j as int].0 == sorted@[j as int].0@);
            j = j + 1;
        }
        proof {
            if j < sorted.len() {
                assert(sv[j as int].0 == sorted@[j as int].0@);
            }
        }
        sorted.insert(j, e);
        proof {
            assert(all.take(k + 1).drop_last() =~= all.take(k as int));
            assert(all.take(k + 1).last() == all[k as int]);
            assert(entries_view(sorted@) =~= sv.insert(j as int, ev));
        }
        k = k + 1;
    }
    proof {
        assert(all.take(k as int) =~= all);
    }
    sorted
}

/// The entries without repeats of the label just before (see [`dedup_entries`]).
fn deduplicated_entries(entries: &Vec<(String, CompletionKind)>) -> (d: Vec<(String, CompletionKind)>)
    ensures
        entries_view(d@) == dedup_entries(entries_view(entries@)),
{
    let ghost ev = entries_view(entries@);
    let mut d: Vec<(String, CompletionKind)> = Vec::new();
    let mut i: usize = 0;
    assert(ev.take(0) =~= Seq::<(Seq<char>, CompletionKind)>::empty());
    while i < entries.len()
        invariant
            i <= entries.len(),
            ev == entries_view(entries@),
            entries_view(d@) == dedup_entries(ev.take(i as int)),
        decreases entries.len() - i,
    {
        let ghost t = ev.take(i + 1);
        assert(t.drop_last() =~= ev.take(i as int));
        assert(t.last() == (entries@[i as int].0@, entries@[i as int].1));
        let repeated = i > 0 && entries[i - 1].0 == entries[i].0;
        if i > 0 {
            assert(t[i - 1] == (entries@[i - 1].0@, entries@[i - 1].1));
        }
        if !repeated {
            let ghost before = entries_view(d@);
            d.push((entries[i].0.clone(), entries[i].1));
            assert(entries_view(d@) =~= before.push(t.last()));
        }
        i = i + 1;
    }
    assert(ev.take(entries.len() as int) =~= ev);
    d
}

/// The import completion items for `imports` (see [`import_items`]); their labels
/// become offered.
pub fn import_completion_items(imports: Vec<(String, CompletionKind)>, seen: &mut Vec<String>) -> (items:
    Vec<CompletionItem>)
    ensures
        items_view(items@) == import_items(entries_view(imports@), views(old(seen)@)),
{
    let sorted = sorted_entries(imports);
    let deduped = deduplicated_entries(&sorted);
    let ghost dv = entries_view(deduped@);
    let ghost start = views(seen@);
    let mut items: Vec<CompletionItem> = Vec::new();
    let mut i: usize = 0;
    assert(dv.take(0) =~= Seq::<(Seq<char>, CompletionKind)>::empty());
    while i < deduped.len()
        invariant
            i <= deduped.len(),
            dv == entries_view(deduped@),
            items_view(items@) == fresh_entries(dv.take(i as int), start).map_values(
                |e: (Seq<char>, CompletionKind)| (e.0, e.1, None::<Seq<char>>, None::<Seq<char>>),
            ),
            forall|x: Seq<char>| #[trigger]
                views(seen@).contains(x) == (start.contains(x) || entry_labels(
                    dv.take(i as int),
                ).contains(x)),
        decreases deduped.len() - i,
    {
        let label = &deduped[i].0;
        let kind = deduped[i].1;
        let ghost t = dv.take(i + 1);
        assert(t.drop_last() =~= dv.take(i as int));
        assert(t.last() == (label@, kind));
        assert(entry_labels(t) =~= entry_labels(dv.take(i as int)).push(label@));
        proof {
            lemma_push_contains(entry_labels(dv.take(i as int)), label@);
        }
        let ghost before_items = items_view(items@);
        if offer(seen, label) {
            items.push(CompletionItem { label: label.clone(), kind, detail: None, documentation: None });
            assert(items_view(items@) =~= before_items.push(
                (label@, kind, None::<Seq<char>>, None::<Seq<char>>),
            ));
        }
        i = i + 1;
    }
    assert(dv.take(deduped.len() as int) =~= dv);
    items
}
/// The order symbols are offered in: by name, then file, then line.
pub open spec fn symbol_lt(a: SemanticSymbol, b: SemanticSymbol) -> bool {
    text_lt(a.name@, b.name@) || (a.name@ == b.name@ && (path_lt(a.source_path@, b.source_path@) || (
    a.source_path@ == b.source_path@ && a.line < b.line)))
}

/// Whether `a` is offered before `b` (see [`symbol_lt`]).
fn symbol_precedes(a: &SemanticSymbol, b: &SemanticSymbol) -> (r: bool)
    ensures
        r == symbol_lt(*a, *b),
{
    if text_precedes(&a.name, &b.name) {
        return true;
    }
    if a.name != b.name {
        return false;
    }
    if crate::incremental::path_precedes(&a.source_path, &b.source_path) {
        return true;
    }
    a.source_path == b.source_path && a.line < b.line
}

/// Where symbol `x` goes among the sorted `sorted`.
pub open spec fn symbol_insertion_index(sorted: Seq<SemanticSymbol>, x: SemanticSymbol, from: nat) -> nat
    decreases sorted.len() - from,
{
    if from < sorted.len() && !symbol_lt(x, sorted[from as int]) {
        symbol_insertion_index(sorted, x, from + 1)
    } else {
        from
    }
}

/// Symbols stably sorted by [`symbol_lt`].
pub open spec fn sort_symbols(v: Seq<SemanticSymbol>) -> Seq<SemanticSymbol>
    decreases v.len(),
{
    if v.len() == 0 {
        v
    } else {
        let sorted = sort_symbols(v.drop_last());
        sorted.insert(symbol_insertion_index(sorted, v.last(), 0) as int, v.last())
    }
}

/// The names of symbols.
pub open spec fn symbol_names(v: Seq<SemanticSymbol>) -> Seq<Seq<char>> {
    v.map_values(|s: SemanticSymbol| s.name@)
}

/// The symbols whose names were not offered before (by `seen` or an earlier symbol).
pub open spec fn fresh_symbols(v: Seq<SemanticSymbol>, seen: Seq<Seq<char>>) -> Seq<SemanticSymbol>
    decreases v.len(),
{
    if v.len() == 0 {
        v
    } else if seen.contains(v.last().name@) || symbol_names(v.drop_last()).contains(v.last().name@) {
        fresh_symbols(v.drop_last(), seen)
    } else {
        fresh_symbols(v.drop_last(), seen).push(v.last())
    }
}

/// The symbol items offered: the symbols in order, one per name not offered before.
pub open spec fn symbol_items(symbols: Seq<SemanticSymbol>, seen: Seq<Seq<char>>) -> Seq<
    (Seq<char>, CompletionKind, Option<Seq<char>>, Option<Seq<char>>),
> {
    fresh_symbols(sort_symbols(symbols), seen).map_values(|s: SemanticSymbol| symbol_item(s))
}

proof fn lemma_symbol_insertion_index_bound(sorted: Seq<SemanticSymbol>, x: SemanticSymbol, from: nat)
    requires
        from <= sorted.len(),
    ensures
        from <= symbol_insertion_index(sorted, x, from) <= sorted.len(),
    decreases sorted.len() - from,
{
    if from < sorted.len() && !symbol_lt(x, sorted[from as int]) {
        lemma_symbol_insertion_index_bound(sorted, x, from + 1);
    }
}

/// Symbols sorted by [`symbol_lt`], equal ones keeping their order.
fn sorted_symbols(symbols: Vec<SemanticSymbol>) -> (sorted: Vec<SemanticSymbol>)
    ensures
        sorted@ == sort_symbols(symbols@),
{
    let ghost all = symbols@;
    let mut rest = symbols;
    let mut sorted: Vec<SemanticSymbol> = Vec::new();
    let mut k: usize = 0;
    assert(all.take(0) =~= Seq::<SemanticSymbol>::empty());
    assert(all.skip(0) =~= all);
    assert(all.len() == rest.len());
    while rest.len() > 0
        invariant
            k <= all.len(),
            all.len() <= usize::MAX,
            rest@ == all.skip(k as int),
            sorted@ == sort_symbols(all.take(k as int)),
        decreases rest.len(),
    {
        let ghost old_rest = rest@;
        let x = rest.remove(0);
        proof {
            assert(rest@ =~= all.skip(k + 1));
            assert(x == all[k as int]);
        }
        let ghost sv = sorted@;
        proof {
            lemma_symbol_insertion_index_bound(sv, x, 0);
        }
        let mut j: usize = 0;
        while j < sorted.len() && !symbol_precedes(&x, &sorted[j])
            invariant
                j <= sorted.len(),
                sv == sorted@,
                symbol_insertion_index(sv, x, j as nat) == symbol_insertion_index(sv, x, 0),
            decreases sorted.len() - j,
        {
            j = j + 1;
        }
        sorted.insert(j, x);
        proof {
            assert(all.take(k + 1).drop_last() =~= all.take(k as int));
            assert(all.take(k + 1).last() == all[k as int]);
        }
        k = k + 1;
    }
    proof {
        assert(all.take(k as int) =~= all);
    }
    sorted
}

/// The symbol completion items for `symbols` (see [`symbol_items`]); their names
/// become offered.
pub fn symbol_completion_items(symbols: Vec<SemanticSymbol>, seen: &mut Vec<String>) -> (items: Vec<
    CompletionItem,
>)
    ensures
        items_view(items@) == symbol_items(symbols@, views(old(seen)@)),
{
    let sorted = sorted_symbols(symbols);
    let ghost sv = sorted@;
    let ghost start = views(seen@);
    let mut rest = sorted;
    let mut items: Vec<CompletionItem> = Vec::new();
    let mut i: usize = 0;
    assert(sv.take(0) =~= Seq::<SemanticSymbol>::empty());
    assert(sv.skip(0) =~= sv);
    assert(sv.len() == rest.len());
    while rest.len() > 0
        invariant
            i <= sv.len(),
            sv.len() <= usize::MAX,
            rest@ == sv.skip(i as int),
            items_view(items@) == fresh_symbols(sv.take(i as int), start).map_values(
                |s: SemanticSymbol| symbol_item(s),
            ),
            forall|x: Seq<char>| #[trigger]
                views(seen@).contains(x) == (start.contains(x) || symbol_names(
                    sv.take(i as int),
                ).contains(x)),
        decreases rest.len(),
    {
        let symbol = rest.remove(0);
        let ghost t = sv.take(i + 1);
        proof {
            assert(rest@ =~= sv.skip(i + 1));
            assert(symbol == sv[i as int]);
            assert(t.drop_last() =~= sv.take(i as int));
            assert(t.last() == symbol);
            assert(symbol_names(t) =~= symbol_names(sv.take(i as int)).push(symbol.name@));
            lemma_push_contains(symbol_names(sv.take(i as int)), symbol.name@);
        }
        let ghost before_items = items_view(items@);
        if offer(seen, &symbol.name) {
            let ghost sym = symbol;
            items.push(completion_item_for_symbol(symbol));
            assert(items_view(items@) =~= before_items.push(symbol_item(sym)));
        }
        i = i + 1;
    }
    assert(sv.take(i as int) =~= sv);
    items
}

proof fn lemma_fresh_entries_seen(v: Seq<(Seq<char>, CompletionKind)>, a: Seq<Seq<char>>, b: Seq<Seq<char>>)
    requires
        forall|x: Seq<char>| #[trigger] a.contains(x) == b.contains(x),
    ensures
        fresh_entries(v, a) == fresh_entries(v, b),
    decreases v.len(),
{
    if v.len() > 0 {
        lemma_fresh_entries_seen(v.drop_last(), a, b);
        assert(a.contains(v.last().0) == b.contains(v.last().0));
    }
}

proof fn lemma_fresh_symbols_seen(v: Seq<SemanticSymbol>, a: Seq<Seq<char>>, b: Seq<Seq<char>>)
    requires
        forall|x: Seq<char>| #[trigger] a.contains(x) == b.contains(x),
    ensures
        fresh_symbols(v, a) == fresh_symbols(v, b),
    decreases v.len(),
{
    if v.len() > 0 {
        lemma_fresh_symbols_seen(v.drop_last(), a, b);
        assert(a.contains(v.last().name@) == b.contains(v.last().name@));
    }
}

/// The keyword items every completion starts with.
pub open spec fn keyword_items() -> Seq<(Seq<char>, CompletionKind, Option<Seq<char>>, Option<Seq<char>>)> {
    fresh_labels(keyword_list(), Seq::empty()).map_values(
        |l: Seq<char>| (l, CompletionKind::Keyword, None::<Seq<char>>, None::<Seq<char>>),
    )
}

/// The completions of a document: the keywords, then what the mode asks for (the
/// `test` attribute, import paths, or declared symbols), no label twice.
pub open spec fn document_completions(
    mode: CompletionMode,
    imports: Seq<(Seq<char>, CompletionKind)>,
    symbols: Seq<SemanticSymbol>,
) -> Seq<(Seq<char>, CompletionKind, Option<Seq<char>>, Option<Seq<char>>)> {
    keyword_items() + match mode {
        CompletionMode::KeywordsOnly => Seq::empty(),
        CompletionMode::Attribute => if keyword_list().contains("test"@) {
            Seq::empty()
        } else {
            seq![("test"@, CompletionKind::Keyword, Some("attribute"@), Some(test_attribute_docs()))]
        },
        CompletionMode::Import => import_items(imports, keyword_list()),
        CompletionMode::Symbols => symbol_items(symbols, keyword_list()),
    }
}

/// The completion items for a document in `mode`, given the import candidates (used
/// in import mode) and the declared symbols (used in symbol mode).
pub fn completion_for_document(
    mode: CompletionMode,
    imports: Vec<(String, CompletionKind)>,
    symbols: Vec<SemanticSymbol>,
) -> (items: Vec<CompletionItem>)
    ensures
        items_view(items@) == document_completions(mode, entries_view(imports@), symbols@),
{
    let mut seen: Vec<String> = Vec::new();
    assert(views(seen@) =~= Seq::<Seq<char>>::empty());
    let mut items = keyword_completion_items(&mut seen);
    let ghost kw_items = items_view(items@);
    let ghost after = views(seen@);
    assert forall|x: Seq<char>| #[trigger] after.contains(x) == keyword_list().contains(x) by {}
    let extra = match mode {
        CompletionMode::KeywordsOnly => Vec::new(),
        CompletionMode::Attribute => attribute_completion_items(&mut seen),
        CompletionMode::Import => {
            let r = import_completion_items(imports, &mut seen);
            proof {
                lemma_fresh_entries_seen(
                    dedup_entries(sort_entries(entries_view(imports@))),
                    after,
                    keyword_list(),
                );
            }
            r
        },
        CompletionMode::Symbols => {
            let r = symbol_completion_items(symbols, &mut seen);
            proof {
                lemma_fresh_symbols_seen(sort_symbols(symbols@), after, keyword_list());
            }
            r
        },
    };
    let ghost extra_view = items_view(extra@);
    let mut all = items;
    let mut extra = extra;
    all.append(&mut extra);
    assert(items_view(all@) =~= kw_items + extra_view);
    all
}

/// The labels of `items` are pairwise distinct.
pub open spec fn labels_distinct(items: Seq<(Seq<char>, CompletionKind, Option<Seq<char>>, Option<Seq<char>>)>) -> bool {
    forall|i: int, j: int| 0 <= i < j < items.len() ==> #[trigger] items[i].0 != #[trigger] items[j].0
}

proof fn lemma_fresh_labels(labels: Seq<Seq<char>>, seen: Seq<Seq<char>>)
    ensures
        forall|i: int, j: int|
            0 <= i < j < fresh_labels(labels, seen).len() ==> #[trigger] fresh_labels(labels, seen)[i]
                != #[trigger] fresh_labels(labels, seen)[j],
        forall|i: int|
            0 <= i < fresh_labels(labels, seen).len() ==> !seen.contains(#[trigger] fresh_labels(labels, seen)[i])
                && labels.contains(fresh_labels(labels, seen)[i]),
    decreases labels.len(),
{
    if labels.len() > 0 {
        let rest = labels.drop_last();
        lemma_fresh_labels(rest, seen);
        let before = fresh_labels(rest, seen);
        let l = labels.last();
        assert forall|i: int| 0 <= i < before.len() implies labels.contains(#[trigger] before[i]) by {
            let w = choose|w: int| 0 <= w < rest.len() && rest[w] == before[i];
            assert(labels[w] == rest[w]);
        }
        if !(seen.contains(l) || rest.contains(l)) {
            let after = before.push(l);
            assert forall|i: int| 0 <= i < before.len() implies #[trigger] after[i] != l by {
                assert(after[i] == before[i]);
                assert(rest.contains(before[i]));
            }
            assert(labels[labels.len() - 1] == l);
        }
    }
}

proof fn lemma_fresh_entries(v: Seq<(Seq<char>, CompletionKind)>, seen: Seq<Seq<char>>)
    ensures
        forall|i: int, j: int|
            0 <= i < j < fresh_entries(v, seen).len() ==> (#[trigger] fresh_entries(v, seen)[i]).0
                != (#[trigger] fresh_entries(v, seen)[j]).0,
        forall|i: int|
            0 <= i < fresh_entries(v, seen).len() ==> !seen.contains((#[trigger] fresh_entries(v, seen)[i]).0)
                && entry_labels(v).contains(fresh_entries(v, seen)[i].0),
    decreases v.len(),
{
    if v.len() > 0 {
        let rest = v.drop_last();
        lemma_fresh_entries(rest, seen);
        let before = fresh_entries(rest, seen);
        let e = v.last();
        assert forall|i: int| 0 <= i < before.len() implies entry_labels(v).contains((#[trigger] before[i]).0) by {
            let w = choose|w: int| 0 <= w < entry_labels(rest).len() && entry_labels(rest)[w] == before[i].0;
            assert(entry_labels(v)[w] == v[w].0);
        }
        assert(entry_labels(v)[v.len() - 1] == e.0);
        if !(seen.contains(e.0) || entry_labels(rest).contains(e.0)) {
            let after = before.push(e);
            assert forall|i: int| 0 <= i < before.len() implies (#[trigger] after[i]).0 != e.0 by {
                assert(after[i] == before[i]);
                assert(entry_labels(rest).contains(before[i].0));
            }
        }
    }
}

proof fn lemma_fresh_symbols(v: Seq<SemanticSymbol>, seen: Seq<Seq<char>>)
    ensures
        forall|i: int, j: int|
            0 <= i < j < fresh_symbols(v, seen).len() ==> (#[trigger] fresh_symbols(v, seen)[i]).name@
                != (#[trigger] fresh_symbols(v, seen)[j]).name@,
        forall|i: int|
            0 <= i < fresh_symbols(v, seen).len() ==> !seen.contains((#[trigger] fresh_symbols(v, seen)[i]).name@)
                && symbol_names(v).contains(fresh_symbols(v, seen)[i].name@),
    decreases v.len(),
{
    if v.len() > 0 {
        let rest = v.drop_last();
        lemma_fresh_symbols(rest, seen);
        let before = fresh_symbols(rest, seen);
        let x = v.last();
        assert forall|i: int| 0 <= i < before.len() implies symbol_names(v).contains((#[trigger] before[i]).name@) by {
            let w = choose|w: int| 0 <= w < symbol_names(rest).len() && symbol_names(rest)[w] == before[i].name@;
            assert(symbol_names(v)[w] == v[w].name@);
        }
        assert(symbol_names(v)[v.len() - 1] == x.name@);
        if !(seen.contains(x.name@) || symbol_names(rest).contains(x.name@)) {
            let after = before.push(x);
            assert forall|i: int| 0 <= i < before.len() implies (#[trigger] after[i]).name@ != x.name@ by {
                assert(after[i] == before[i]);
                assert(symbol_names(rest).contains(before[i].name@));
            }
        }
    }
}

/// No label is offered twice: the completion items of a document, whatever the
/// mode, have pairwise distinct labels (keywords first, then the mode's items).
pub proof fn lemma_completion_labels_distinct(
    mode: CompletionMode,
    imports: Seq<(Seq<char>, CompletionKind)>,
    symbols: Seq<SemanticSymbol>,
)
    ensures
        labels_distinct(document_completions(mode, imports, symbols)),
{
    let kw = keyword_items();
    let labels = fresh_labels(keyword_list(), Seq::empty());
    lemma_fresh_labels(keyword_list(), Seq::empty());
    assert forall|i: int| 0 <= i < kw.len() implies #[trigger] kw[i].0 == labels[i]
        && keyword_list().contains(kw[i].0) by {}
    let extra: Seq<(Seq<char>, CompletionKind, Option<Seq<char>>, Option<Seq<char>>)> = match mode {
        CompletionMode::KeywordsOnly => Seq::empty(),
        CompletionMode::Attribute => if keyword_list().contains("test"@) {
            Seq::empty()
        } else {
            seq![("test"@, CompletionKind::Keyword, Some("attribute"@), Some(test_attribute_docs()))]
        },
        CompletionMode::Import => import_items(imports, keyword_list()),
        CompletionMode::Symbols => symbol_items(symbols, keyword_list()),
    };
    assert(document_completions(mode, imports, symbols) == kw + extra);
    match mode {
        CompletionMode::Import => {
            lemma_fresh_entries(dedup_entries(sort_entries(imports)), keyword_list());
        },
        CompletionMode::Symbols => {
            lemma_fresh_symbols(sort_symbols(symbols), keyword_list());
        },
        _ => {},
    }
    assert(labels_distinct(extra));
    assert forall|i: int| 0 <= i < extra.len() implies !keyword_list().contains(#[trigger] extra[i].0) by {}
    let all = kw + extra;
    assert forall|i: int, j: int| 0 <= i < j < all.len() implies #[trigger] all[i].0 != #[trigger] all[j].0 by {
        if j < kw.len() {
            assert(all[i] == kw[i] && all[j] == kw[j]);
        } else if i < kw.len() {
            assert(all[i] == kw[i] && all[j] == extra[j - kw.len()]);
        } else {
            assert(all[i] == extra[i - kw.len()] && all[j] == extra[j - kw.len()]);
        }
    }
}

/// A declared symbol is offered under the completion kind of its declaration kind:
/// enum variants as enum members, fields as fields, and so on; only plain and
/// extern functions share a kind, as do methods and interface methods, and no
/// symbol is offered as a keyword or a module.
pub proof fn lemma_completion_kinds_follow_declarations(s: SemanticSymbol, t: SemanticSymbol)
    ensures
        (symbol_item(s).1 is EnumMember) <==> (s.kind is Variant),
        (symbol_item(s).1 is Field) <==> (s.kind is Field),
        (symbol_item(s).1 is Struct) <==> (s.kind is Struct),
        (symbol_item(s).1 is Enum) <==> (s.kind is Enum),
        (symbol_item(s).1 is Interface) <==> (s.kind is Interface),
        (symbol_item(s).1 is Constant) <==> (s.kind is Const),
        (symbol_item(s).1 is Function) <==> (s.kind is Function || s.kind is ExternFunction),
        (symbol_item(s).1 is Method) <==> (s.kind is Method || s.kind is InterfaceMethod),
        !(symbol_item(s).1 is Keyword) && !(symbol_item(s).1 is Module),
        symbol_item(s).1 == symbol_item(t).1 ==> s.kind == t.kind || ((s.kind is Function
            || s.kind is ExternFunction) && (t.kind is Function || t.kind is ExternFunction)) || ((
        s.kind is Method || s.kind is InterfaceMethod) && (t.kind is Method
            || t.kind is InterfaceMethod)),
{
}

} // verus!
