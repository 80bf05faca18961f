//! Document and workspace symbols: declarations of one document nested under the
//! types that contain them, and the declarations of the workspace's projects and
//! the standard library that match a search query.
use vstd::prelude::*;
use crate::ast::views;
use crate::completion::{text_lt, text_precedes};
use crate::incremental::{has_path, path_key, same_path};
use crate::navigation::{file_url, split_nonempty, string_of, same_text};
use crate::symbol::{SemanticSymbol, SemanticSymbolKind};
use crate::text::{Range, text_chars};

verus! {

broadcast use vstd::seq_lib::group_seq_properties;

/// The kind an editor shows a symbol as.
#[derive(Clone, Copy, Debug, PartialEq, Eq, Structural)]
pub enum SymbolKind {
    Struct,
    Enum,
    Field,
    EnumMember,
    Interface,
    Method,
    Constant,
    Function,
}

/// The editor kind of a declared symbol.
pub open spec fn symbol_kind_of(kind: SemanticSymbolKind) -> SymbolKind {
    match kind {
        SemanticSymbolKind::Struct => SymbolKind::Struct,
        SemanticSymbolKind::Enum => SymbolKind::Enum,
        SemanticSymbolKind::Field => SymbolKind::Field,
        SemanticSymbolKind::Variant => SymbolKind::EnumMember,
        SemanticSymbolKind::Interface => SymbolKind::Interface,
        SemanticSymbolKind::InterfaceMethod => SymbolKind::Method,
        SemanticSymbolKind::Const => SymbolKind::Constant,
        SemanticSymbolKind::Function => SymbolKind::Function,
        SemanticSymbolKind::ExternFunction => SymbolKind::Function,
        SemanticSymbolKind::Method => SymbolKind::Method,
    }
}

/// The editor kind of a declared symbol (see [`symbol_kind_of`]).
pub fn lsp_symbol_kind(kind: SemanticSymbolKind) -> (k: SymbolKind)
    ensures
        k == symbol_kind_of(kind),
{
    match kind {
        SemanticSymbolKind::Struct => SymbolKind::Struct,
        SemanticSymbolKind::Enum => SymbolKind::Enum,
        SemanticSymbolKind::Field => SymbolKind::Field,
        SemanticSymbolKind::Variant => SymbolKind::EnumMember,
        SemanticSymbolKind::Interface => SymbolKind::Interface,
        SemanticSymbolKind::InterfaceMethod => SymbolKind::Method,
        SemanticSymbolKind::Const => SymbolKind::Constant,
        SemanticSymbolKind::Function => SymbolKind::Function,
        SemanticSymbolKind::ExternFunction => SymbolKind::Function,
        SemanticSymbolKind::Method => SymbolKind::Method,
    }
}

/// A symbol nested under another in a document's outline.
#[derive(Clone, Debug)]
pub struct ChildSymbol {
    pub name: String,
    pub detail: String,
    pub kind: SymbolKind,
    pub range: Range,
    pub selection_range: Range,
}

/// A top-level symbol of a document's outline, with the symbols nested under it.
#[derive(Clone, Debug)]
pub struct DocumentSymbol {
    pub name: String,
    pub detail: String,
    pub kind: SymbolKind,
    pub range: Range,
    pub selection_range: Range,
    pub children: Option<Vec<ChildSymbol>>,
}

/// What an outline entry shows: name, detail (the signature), kind and ranges.
pub open spec fn entry_of(s: SemanticSymbol) -> (Seq<char>, Seq<char>, SymbolKind, Range, Range) {
    (s.name@, s.signature@, symbol_kind_of(s.kind), s.range, s.selection_range)
}

/// The plain values of a nested symbol.
pub open spec fn child_view(c: ChildSymbol) -> (Seq<char>, Seq<char>, SymbolKind, Range, Range) {
    (c.name@, c.detail@, c.kind, c.range, c.selection_range)
}

/// The plain values of a top-level symbol and of its children.
pub open spec fn node_view(d: DocumentSymbol) -> (
    (Seq<char>, Seq<char>, SymbolKind, Range, Range),
    Option<Seq<(Seq<char>, Seq<char>, SymbolKind, Range, Range)>>,
) {
    (
        (d.name@, d.detail@, d.kind, d.range, d.selection_range),
        match d.children {
            Some(c) => Some(c@.map_values(|x: ChildSymbol| child_view(x))),
            None => None,
        },
    )
}

/// The views of an outline.
pub open spec fn outline_view(v: Seq<DocumentSymbol>) -> Seq<
    (
        (Seq<char>, Seq<char>, SymbolKind, Range, Range),
        Option<Seq<(Seq<char>, Seq<char>, SymbolKind, Range, Range)>>,
    ),
> {
    v.map_values(|d: DocumentSymbol| node_view(d))
}

/// The kind of the type a member nests under: fields under structs, variants under
/// enums, interface methods under interfaces.
pub open spec fn owner_kind(kind: SemanticSymbolKind) -> Option<SymbolKind> {
    match kind {
        SemanticSymbolKind::Field => Some(SymbolKind::Struct),
        SemanticSymbolKind::Variant => Some(SymbolKind::Enum),
        SemanticSymbolKind::InterfaceMethod => Some(SymbolKind::Interface),
        _ => None,
    }
}

/// Index of the first top-level entry named `owner` of kind `kind`.
pub open spec fn parent_index(
    items: Seq<
        (
            (Seq<char>, Seq<char>, SymbolKind, Range, Range),
            Option<Seq<(Seq<char>, Seq<char>, SymbolKind, Range, Range)>>,
        ),
    >,
    owner: Seq<char>,
    kind: SymbolKind,
) -> Option<int>
    decreases items.len(),
{
    if items.len() == 0 {
        None
    } else if items[0].0.0 == owner && items[0].0.2 == kind {
        Some(0)
    } else {
        match parent_index(items.drop_first(), owner, kind) {
            Some(i) => Some(i + 1),
            None => None,
        }
    }
}

/// The outline after `symbols`: each member goes under the first entry of its
/// owner's name and kind, when there is one; everything else becomes a top-level
/// entry, in order.
pub open spec fn outline(symbols: Seq<SemanticSymbol>) -> Seq<
    (
        (Seq<char>, Seq<char>, SymbolKind, Range, Range),
        Option<Seq<(Seq<char>, Seq<char>, SymbolKind, Range, Range)>>,
    ),
>
    decreases symbols.len(),
{
    if symbols.len() == 0 {
        Seq::empty()
    } else {
        let items = outline(symbols.drop_last());
        let s = symbols.last();
        match (owner_kind(s.kind), s.container_name) {
            (Some(k), Some(owner)) => match parent_index(items, owner@, k) {
                Some(i) => items.update(
                    i,
                    (
                        items[i].0,
                        Some(
                            match items[i].1 {
                                Some(c) => c,
                                None => Seq::empty(),
                            }.push(entry_of(s)),
                        ),
                    ),
                ),
                None => items.push((entry_of(s), None)),
            },
            _ => items.push((entry_of(s), None)),
        }
    }
}

proof fn lemma_parent_index(
    items: Seq<
        (
            (Seq<char>, Seq<char>, SymbolKind, Range, Range),
            Option<Seq<(Seq<char>, Seq<char>, SymbolKind, Range, Range)>>,
        ),
    >,
    owner: Seq<char>,
    kind: SymbolKind,
    i: int,
)
    requires
        0 <= i <= items.len(),
        forall|j: int| 0 <= j < i ==> !(items[j].0.0 == owner && items[j].0.2 == kind),
    ensures
        i < items.len() && items[i].0.0 == owner && items[i].0.2 == kind ==> parent_index(
            items,
            owner,
            kind,
        ) == Some(i),
        i == items.len() ==> parent_index(items, owner, kind) is None,
    decreases i,
{
    if i > 0 {
        assert forall|j: int| 0 <= j < i - 1 implies !(items.drop_first()[j].0.0 == owner
            && items.drop_first()[j].0.2 == kind) by {
            assert(items.drop_first()[j] == items[j + 1]);
        }
        lemma_parent_index(items.drop_first(), owner, kind, i - 1);
    } else if items.len() > 0 {
    }
}

/// The outline entry of a declared symbol.
pub fn document_symbol(item: SemanticSymbol) -> (d: DocumentSymbol)
    ensures
        node_view(d) == (entry_of(item), None::<Seq<(Seq<char>, Seq<char>, SymbolKind, Range, Range)>>),
{
    DocumentSymbol {
        name: item.name,
        detail: item.signature,
        kind: lsp_symbol_kind(item.kind),
        range: item.range,
        selection_range: item.selection_range,
        children: None,
    }
}

/// Nests `child` under the first entry named `owner` of kind `owner_kind`; gives
/// the child back when there is no such entry.
pub fn push_child_symbol(
    items: &mut Vec<DocumentSymbol>,
    owner: &String,
    owner_kind: SymbolKind,
    child: SemanticSymbol,
) -> (r: Result<(), SemanticSymbol>)
    ensures
        match parent_index(outline_view(old(items)@), owner@, owner_kind) {
            Some(i) => r is Ok && outline_view(final(items)@) == outline_view(old(items)@).update(
                i,
                (
                    outline_view(old(items)@)[i].0,
                    Some(
                        match outline_view(old(items)@)[i].1 {
                            Some(c) => c,
                            None => Seq::empty(),
                        }.push(entry_of(child)),
                    ),
                ),
            ),
            None => r == Err::<(), SemanticSymbol>(child) && final(items)@ == old(items)@,
        },
{
    let ghost ov = outline_view(items@);
    let mut i: usize = 0;
    while i < items.len()
        invariant
            i <= items.len(),
            items@ == old(items)@,
            ov == outline_view(items@),
            ov.len() == items.len(),
            forall|j: int| 0 <= j < i ==> !(ov[j].0.0 == owner@ && ov[j].0.2 == owner_kind),
        decreases items.len() - i,
    {
        assert(ov[i as int] == node_view(items@[i as int]));
        if items[i].name == *owner && items[i].kind == owner_kind {
            proof {
                lemma_parent_index(ov, owner@, owner_kind, i as int);
            }
            let mut parent = items.remove(i);
            let ghost old_children = node_view(parent).1;
            let entry = ChildSymbol {
                name: child.name,
                detail: child.signature,
                kind: lsp_symbol_kind(child.kind),
                range: child.range,
                selection_range: child.selection_range,
            };
            let children = match parent.children {
                Some(mut c) => {
                    c.push(entry);
                    c
                },
                None => {
                    let mut c: Vec<ChildSymbol> = Vec::new();
                    c.push(entry);
                    c
                },
            };
            parent.children = Some(children);
            proof {
                let want = match old_children {
                    Some(c) => c,
                    None => Seq::empty(),
                }.push(entry_of(child));
                assert(node_view(parent).1->0 =~= want);
            }
            items.insert(i, parent);
            assert(outline_view(items@) =~= ov.update(
                i as int,
                (
                    ov[i as int].0,
                    Some(
                        match ov[i as int].1 {
                            Some(c) => c,
                            None => Seq::empty(),
                        }.push(entry_of(child)),
                    ),
                ),
            ));
            return Ok(());
        }
        i = i + 1;
    }
    proof {
        lemma_parent_index(ov, owner@, owner_kind, i as int);
    }
    Err(child)
}

/// The outline of a document from its declared symbols (see [`outline`]); `None`
/// when the document could not be analysed.
pub fn document_symbols_for_text(symbols: Option<Vec<SemanticSymbol>>) -> (r: Option<
    Vec<DocumentSymbol>,
>)
    ensures
        match symbols {
            Some(s) => r matches Some(items) && outline_view(items@) == outline(s@),
            None => r is None,
        },
{
    let symbols = match symbols {
        Some(s) => s,
        None => return None,
    };
    let ghost all = symbols@;
    let mut rest = symbols;
    let mut items: Vec<DocumentSymbol> = Vec::new();
    let mut k: usize = 0;
    assert(all.take(0) =~= Seq::<SemanticSymbol>::empty());
    assert(all.skip(0) =~= all);
    assert(all.len() == rest.len());
    while rest.len() > 0
        invariant
            k <= all.len(),
            all.len() <= usize::MAX,
            rest@ == all.skip(k as int),
            outline_view(items@) == outline(all.take(k as int)),
        decreases rest.len(),
    {
        let symbol = rest.remove(0);
        proof {
            assert(rest@ =~= all.skip(k + 1));
            assert(symbol == all[k as int]);
            assert(all.take(k + 1).drop_last() =~= all.take(k as int));
            assert(all.take(k + 1).last() == symbol);
        }
        let ghost before = outline_view(items@);
        let owner_kind = match symbol.kind {
            SemanticSymbolKind::Field => Some(SymbolKind::Struct),
            SemanticSymbolKind::Variant => Some(SymbolKind::Enum),
            SemanticSymbolKind::InterfaceMethod => Some(SymbolKind::Interface),
            _ => None,
        };
        match owner_kind {
            Some(kind) => {
                match symbol.container_name.clone() {
                    Some(owner) => {
                        let ghost sym = symbol;
                        match push_child_symbol(&mut items, &owner, kind, symbol) {
                            Ok(()) => {},
                            Err(symbol) => {
                                items.push(document_symbol(symbol));
                                assert(outline_view(items@) =~= before.push((entry_of(sym), None)));
                            },
                        }
                    },
                    None => {
                        let ghost sym = symbol;
                        items.push(document_symbol(symbol));
                        assert(outline_view(items@) =~= before.push((entry_of(sym), None)));
                    },
                }
            },
            None => {
                let ghost sym = symbol;
                items.push(document_symbol(symbol));
                assert(outline_view(items@) =~= before.push((entry_of(sym), None)));
            },
        }
        k = k + 1;
    }
    proof {
        assert(all.take(k as int) =~= all);
    }
    Some(items)
}

/// An entry of a workspace symbol search: the symbol's name and kind, the URI of its
/// file, the range of its name, and the file's name.
#[derive(Clone, Debug)]
pub struct SymbolInformation {
    pub name: String,
    pub kind: SymbolKind,
    pub uri: String,
    pub range: Range,
    pub container_name: Option<String>,
}

/// The plain values of a search entry.
pub open spec fn info_view(i: SymbolInformation) -> (Seq<char>, SymbolKind, Seq<char>, Range, Option<Seq<char>>) {
    (
        i.name@,
        i.kind,
        i.uri@,
        i.range,
        match i.container_name {
            Some(c) => Some(c@),
            None => None,
        },
    )
}

/// The views of search entries.
pub open spec fn infos_view(v: Seq<SymbolInformation>) -> Seq<
    (Seq<char>, SymbolKind, Seq<char>, Range, Option<Seq<char>>),
> {
    v.map_values(|i: SymbolInformation| info_view(i))
}

/// `c` with ASCII capitals made small.
pub open spec fn ascii_lower_char(c: char) -> char {
    if 'A' <= c && c <= 'Z' {
        ((c as u32) + 32) as char
    } else {
        c
    }
}

/// `s` with ASCII capitals made small.
pub open spec fn ascii_lower(s: Seq<char>) -> Seq<char> {
    s.map_values(|c: char| ascii_lower_char(c))
}

/// Whether `needle` occurs in `hay`.
pub open spec fn contains_text(hay: Seq<char>, needle: Seq<char>) -> bool {
    exists|i: int| 0 <= i && i + needle.len() <= hay.len() && #[trigger] hay.subrange(i, i + needle.len()) == needle
}

/// Whether a symbol name matches a search query: the query is empty, or occurs in
/// the name, ASCII case ignored.
pub open spec fn matches_query(name: Seq<char>, query: Seq<char>) -> bool {
    query.len() == 0 || contains_text(ascii_lower(name), ascii_lower(query))
}

/// `s` with ASCII capitals made small.
fn lowercase(s: &String) -> (r: Vec<char>)
    ensures
        r@ == ascii_lower(s@),
{
    let chars = text_chars(s.as_str());
    let mut r: Vec<char> = Vec::new();
    let mut i: usize = 0;
    while i < chars.len()
        invariant
            i <= chars.len(),
            chars@ == s@,
            r@ == ascii_lower(chars@.take(i as int)),
        decreases chars.len() - i,
    {
        let c = chars[i];
        let l = if 'A' <= c && c <= 'Z' {
            proof {
                vstd::utf8::char_u32_cast(c, c as u32);
            }
            let v = (c as u32) + 32;
            assert(v <= 0x7A);
            assert(v == ((c as u32) + 32) as u32);
            char_from_ascii(v)
        } else {
            c
        };
        r.push(l);
        assert(r@ =~= ascii_lower(chars@.take(i + 1)));
        i = i + 1;
    }
    assert(chars@.take(chars.len() as int) =~= chars@);
    r
}

/// The character of an ASCII code.
fn char_from_ascii(v: u32) -> (c: char)
    requires
        v < 0x80,
    ensures
        c == v as char,
{
    let b = v as u8;
    b as char
}

/// Whether `needle` occurs in `hay`.
fn contains_chars(hay: &Vec<char>, needle: &Vec<char>) -> (b: bool)
    ensures
        b == contains_text(hay@, needle@),
{
    if needle.len() > hay.len() {
        return false;
    }
    let mut i: usize = 0;
    let last = hay.len() - needle.len();
    while i <= last
        invariant
            needle.len() <= hay.len(),
            last == hay.len() - needle.len(),
            i <= last + 1,
            forall|k: int| 0 <= k < i ==> #[trigger] hay@.subrange(k, k + needle.len()) != needle@,
        decreases hay.len() - i,
    {
        let mut j: usize = 0;
        while j < needle.len() && hay[i + j] == needle[j]
            invariant
                i + needle.len() <= hay.len(),
                j <= needle.len(),
                forall|m: int| 0 <= m < j ==> hay@[i + m] == needle@[m],
            decreases needle.len() - j,
        {
            j = j + 1;
        }
        if j == needle.len() {
            assert(hay@.subrange(i as int, i + needle.len()) =~= needle@);
            return true;
        }
        assert(hay@.subrange(i as int, i + needle.len())[j as int] != needle@[j as int]);
        if i == last {
            assert forall|k: int| 0 <= k && k + needle.len() <= hay.len() implies #[trigger] hay@.subrange(
                k,
                k + needle.len(),
            ) != needle@ by {
                if k == i {
                    assert(hay@.subrange(i as int, i + needle.len())[j as int] != needle@[j as int]);
                }
            }
            return false;
        }
        i = i + 1;
    }
    false
}

/// Whether a symbol name matches the lower-cased query.
fn name_matches(name: &String, query: &Vec<char>, query_view: Ghost<Seq<char>>) -> (b: bool)
    requires
        query@ == ascii_lower(query_view@),
    ensures
        b == matches_query(name@, query_view@),
{
    if query.len() == 0 {
        return true;
    }
    let lower = lowercase(name);
    contains_chars(&lower, query)
}

/// What tells two found symbols apart: the file (by its path's components, see
/// [`path_key`]), the name, and where the name starts.
pub open spec fn symbol_key(s: SemanticSymbol) -> (Seq<(int, Seq<char>)>, Seq<char>, u32, u32) {
    (path_key(s.source_path@), s.name@, s.selection_range.start.line, s.selection_range.start.character)
}

/// The symbol lists of the projects searched: a project whose root (by its path's
/// components) came before is searched once; one whose symbols could not be read
/// contributes none.
pub open spec fn project_groups(projects: Seq<(Seq<char>, Option<Seq<SemanticSymbol>>)>) -> Seq<
    Seq<SemanticSymbol>,
>
    decreases projects.len(),
{
    if projects.len() == 0 {
        Seq::empty()
    } else {
        let groups = project_groups(projects.drop_last());
        let (root, symbols) = projects.last();
        if has_path(
            projects.drop_last().map_values(|p: (Seq<char>, Option<Seq<SemanticSymbol>>)| p.0),
            root,
        ) {
            groups
        } else {
            match symbols {
                Some(s) => groups.push(s),
                None => groups,
            }
        }
    }
}

/// The lists, one after another.
pub open spec fn concat_groups(groups: Seq<Seq<SemanticSymbol>>) -> Seq<SemanticSymbol>
    decreases groups.len(),
{
    if groups.len() == 0 {
        Seq::empty()
    } else {
        concat_groups(groups.drop_last()) + groups.last()
    }
}

/// The symbols that match `query`, each key once (the first kept).
pub open spec fn kept_symbols(candidates: Seq<SemanticSymbol>, query: Seq<char>) -> Seq<SemanticSymbol>
    decreases candidates.len(),
{
    if candidates.len() == 0 {
        Seq::empty()
    } else {
        let kept = kept_symbols(candidates.drop_last(), query);
        let s = candidates.last();
        if !matches_query(s.name@, query) || kept.map_values(|k: SemanticSymbol| symbol_key(k)).contains(
            symbol_key(s),
        ) {
            kept
        } else {
            kept.push(s)
        }
    }
}

/// The symbols a workspace search selects: those of each project (dependencies
/// included), then those of the standard library, that match `query`, each once.
pub open spec fn selected_symbols(
    projects: Seq<(Seq<char>, Option<Seq<SemanticSymbol>>)>,
    standard: Option<Seq<SemanticSymbol>>,
    query: Seq<char>,
) -> Seq<SemanticSymbol> {
    kept_symbols(
        concat_groups(project_groups(projects)) + match standard {
            Some(s) => s,
            None => Seq::empty(),
        },
        query,
    )
}

/// The path components of `path` (`.` components left out).
pub open spec fn path_components(path: Seq<char>) -> Seq<Seq<char>> {
    split_nonempty(path, '/').filter(|c: Seq<char>| c != "."@)
}

/// `Path::file_name`: the last component, unless it is `..` or there is none.
pub open spec fn file_name(path: Seq<char>) -> Option<Seq<char>> {
    let c = path_components(path);
    if c.len() == 0 || c.last() == ".."@ {
        None
    } else {
        Some(c.last())
    }
}

/// The name of the file at `path` (see [`file_name`]).
pub fn path_file_name(path: &String) -> (r: Option<String>)
    ensures
        r matches Some(n) ==> file_name(path@) == Some(n@),
        r is None ==> file_name(path@) is None,
{
    let chars = text_chars(path.as_str());
    let segments = crate::navigation::split_segments(&chars, 0, chars.len(), '/');
    let ghost sv = views(segments@);
    let ghost pred = |c: Seq<char>| c != "."@;
    let mut components: Vec<String> = Vec::new();
    let mut i: usize = 0;
    proof {
        reveal(Seq::filter);
    }
    assert(sv.take(0).filter(pred) =~= Seq::<Seq<char>>::empty());
    while i < segments.len()
        invariant
            i <= segments.len(),
            sv == views(segments@),
            pred == (|c: Seq<char>| c != "."@),
            views(components@) == sv.take(i as int).filter(pred),
        decreases segments.len() - i,
    {
        let segment = &segments[i];
        assert(sv.take(i + 1) =~= sv.take(i as int).push(segment@));
        proof {
            sv.take(i as int).lemma_filter_push(segment@, pred);
        }
        let ghost before = views(components@);
        if !same_text(segment.as_str(), ".") {
            components.push(segment.clone());
            assert(views(components@) =~= before.push(segment@));
        }
        i = i + 1;
    }
    assert(sv.take(segments.len() as int) =~= sv);
    assert(chars@.subrange(0, chars.len() as int) =~= path@);
    if components.len() == 0 {
        return None;
    }
    let last = components.len() - 1;
    if same_text(components[last].as_str(), "..") {
        return None;
    }
    Some(components[last].clone())
}

/// The search entries of the selected symbols whose files have URIs, in order.
pub open spec fn symbol_infos(selected: Seq<SemanticSymbol>, uris: Seq<Option<Seq<char>>>) -> Seq<
    (Seq<char>, SymbolKind, Seq<char>, Range, Option<Seq<char>>),
>
    decreases selected.len(),
{
    if selected.len() == 0 || uris.len() < selected.len() {
        Seq::empty()
    } else {
        let before = symbol_infos(selected.drop_last(), uris.take(selected.len() - 1));
        let s = selected.last();
        match uris[selected.len() - 1] {
            Some(u) => before.push(
                (s.name@, symbol_kind_of(s.kind), u, s.selection_range, file_name(s.source_path@)),
            ),
            None => before,
        }
    }
}

/// The order of search entries: by name, then URI, then where the name starts.
pub open spec fn info_lt(
    a: (Seq<char>, SymbolKind, Seq<char>, Range, Option<Seq<char>>),
    b: (Seq<char>, SymbolKind, Seq<char>, Range, Option<Seq<char>>),
) -> bool {
    text_lt(a.0, b.0) || (a.0 == b.0 && (text_lt(a.2, b.2) || (a.2 == b.2 && (a.3.start.line
        < b.3.start.line || (a.3.start.line == b.3.start.line && a.3.start.character
        < b.3.start.character)))))
}

/// Where entry `x` goes among the sorted `sorted`.
pub open spec fn info_insertion_index(
    sorted: Seq<(Seq<char>, SymbolKind, Seq<char>, Range, Option<Seq<char>>)>,
    x: (Seq<char>, SymbolKind, Seq<char>, Range, Option<Seq<char>>),
    from: nat,
) -> nat
    decreases sorted.len() - from,
{
    if from < sorted.len() && !info_lt(x, sorted[from as int]) {
        info_insertion_index(sorted, x, from + 1)
    } else {
        from
    }
}

/// Entries stably sorted by [`info_lt`].
pub open spec fn sort_infos(v: Seq<(Seq<char>, SymbolKind, Seq<char>, Range, Option<Seq<char>>)>) -> Seq<
    (Seq<char>, SymbolKind, Seq<char>, Range, Option<Seq<char>>),
>
    decreases v.len(),
{
    if v.len() == 0 {
        v
    } else {
        let sorted = sort_infos(v.drop_last());
        sorted.insert(info_insertion_index(sorted, v.last(), 0) as int, v.last())
    }
}

/// Projects held as roots with their symbols, as plain values.
pub open spec fn projects_view(v: Seq<(String, Option<Vec<SemanticSymbol>>)>) -> Seq<
    (Seq<char>, Option<Seq<SemanticSymbol>>),
> {
    v.map_values(|p: (String, Option<Vec<SemanticSymbol>>)| project_view(p))
}

/// One project's root with its symbols, as plain values.
pub open spec fn project_view(p: (String, Option<Vec<SemanticSymbol>>)) -> (
    Seq<char>,
    Option<Seq<SemanticSymbol>>,
) {
    (p.0@, symbols_view(p.1))
}

/// Symbols that may be missing, as a sequence.
pub open spec fn symbols_view(s: Option<Vec<SemanticSymbol>>) -> Option<Seq<SemanticSymbol>> {
    match s {
        Some(s) => Some(s@),
        None => None,
    }
}

/// Whether `selected` already holds a symbol with the key of `s`.
fn has_key(selected: &Vec<SemanticSymbol>, s: &SemanticSymbol) -> (b: bool)
    ensures
        b == selected@.map_values(|k: SemanticSymbol| symbol_key(k)).contains(symbol_key(*s)),
{
    let ghost keys = selected@.map_values(|k: SemanticSymbol| symbol_key(k));
    let mut i: usize = 0;
    while i < selected.len()
        invariant
            i <= selected.len(),
            keys == selected@.map_values(|k: SemanticSymbol| symbol_key(k)),
            forall|j: int| 0 <= j < i ==> keys[j] != symbol_key(*s),
        decreases selected.len() - i,
    {
        let t = &selected[i];
        assert(keys[i as int] == symbol_key(*t));
        if same_path(&t.source_path, &s.source_path) && t.name == s.name && t.selection_range.start.line
            == s.selection_range.start.line && t.selection_range.start.character
            == s.selection_range.start.character {
            return true;
        }
        i = i + 1;
    }
    false
}

/// Adds the symbols of `group` that match and are new to `selected`.
fn keep_matching(
    selected: &mut Vec<SemanticSymbol>,
    group: Vec<SemanticSymbol>,
    query: &Vec<char>,
    query_view: Ghost<Seq<char>>,
    before: Ghost<Seq<SemanticSymbol>>,
)
    requires
        query@ == ascii_lower(query_view@),
        old(selected)@ == kept_symbols(before@, query_view@),
    ensures
        final(selected)@ == kept_symbols(before@ + group@, query_view@),
{
    let ghost g = group@;
    let mut rest = group;
    let mut j: usize = 0;
    assert(before@ + g.take(0) =~= before@);
    assert(g.skip(0) =~= g);
    assert(g.len() == rest.len());
    while rest.len() > 0
        invariant
            j <= g.len(),
            g.len() <= usize::MAX,
            rest@ == g.skip(j as int),
            query@ == ascii_lower(query_view@),
            selected@ == kept_symbols(before@ + g.take(j as int), query_view@),
        decreases rest.len(),
    {
        let symbol = rest.remove(0);
        proof {
            assert(rest@ =~= g.skip(j + 1));
            assert(symbol == g[j as int]);
            assert(before@ + g.take(j + 1) =~= (before@ + g.take(j as int)).push(symbol));
            assert((before@ + g.take(j as int)).push(symbol).drop_last() =~= before@ + g.take(
                j as int,
            ));
        }
        if name_matches(&symbol.name, query, query_view) && !has_key(selected, &symbol) {
            selected.push(symbol);
        }
        j = j + 1;
    }
    assert(g.take(j as int) =~= g);
}

/// Whether a root with the components of `root` is among `roots`.
fn seen_root(roots: &Vec<String>, root: &String) -> (b: bool)
    ensures
        b == has_path(views(roots@), root@),
{
    let ghost rv = views(roots@);
    let mut i: usize = 0;
    while i < roots.len()
        invariant
            i <= roots.len(),
            rv == views(roots@),
            rv.len() == roots.len(),
            forall|j: int| 0 <= j < i ==> path_key(#[trigger] rv[j]) != path_key(root@),
        decreases roots.len() - i,
    {
        assert(rv[i as int] == roots@[i as int]@);
        if same_path(&roots[i], root) {
            return true;
        }
        i = i + 1;
    }
    false
}

/// The symbols a workspace search selects (see [`selected_symbols`]): `projects`
/// holds each project's root with its symbols and its dependencies' symbols (`None`
/// when they could not be read), `standard` the standard library's symbols.
pub fn select_workspace_symbols(
    projects: Vec<(String, Option<Vec<SemanticSymbol>>)>,
    standard: Option<Vec<SemanticSymbol>>,
    query: &str,
) -> (selected: Vec<SemanticSymbol>)
    ensures
        selected@ == selected_symbols(
            projects_view(projects@),
            symbols_view(standard),
            query@,
        ),
{
    let query_string = query.to_owned();
    let lower = lowercase(&query_string);
    let ghost qv = query@;
    let ghost pv = projects_view(projects@);
    let mut rest = projects;
    let mut roots: Vec<String> = Vec::new();
    let mut selected: Vec<SemanticSymbol> = Vec::new();
    let mut k: usize = 0;
    assert(pv.take(0) =~= Seq::<(Seq<char>, Option<Seq<SemanticSymbol>>)>::empty());
    assert(concat_groups(project_groups(pv.take(0))) =~= Seq::<SemanticSymbol>::empty());
    assert(pv.skip(0) =~= pv);
    assert(pv.len() == rest.len());
    while rest.len() > 0
        invariant
            k <= pv.len(),
            pv.len() <= usize::MAX,
            projects_view(rest@) == pv.skip(k as int),
            lower@ == ascii_lower(qv),
            views(roots@) == pv.take(k as int).map_values(
                |p: (Seq<char>, Option<Seq<SemanticSymbol>>)| p.0,
            ),
            selected@ == kept_symbols(concat_groups(project_groups(pv.take(k as int))), qv),
        decreases rest.len(),
    {
        let ghost old_rest = rest@;
        assert(projects_view(old_rest).len() == old_rest.len());
        assert(k < pv.len());
        let project = rest.remove(0);
        let ghost pj = project_view(project);
        proof {
            assert(rest@ =~= old_rest.skip(1));
            assert(projects_view(old_rest)[0] == pj);
            assert(pv.skip(k as int)[0] == pv[k as int]);
            assert(pv[k as int] == pj);
            assert(projects_view(rest@).len() == rest@.len());
            assert forall|i: int| 0 <= i < rest@.len() implies #[trigger] projects_view(rest@)[i]
                == pv.skip(k + 1)[i] by {
                assert(rest@[i] == old_rest[i + 1]);
                assert(projects_view(old_rest)[i + 1] == pv.skip(k as int)[i + 1]);
            }
            assert(projects_view(rest@) =~= pv.skip(k + 1));
            assert(pv.take(k + 1).drop_last() =~= pv.take(k as int));
            assert(pv.take(k + 1).last() == pj);
        }
        let ghost roots_before = pv.take(k as int).map_values(
            |p: (Seq<char>, Option<Seq<SemanticSymbol>>)| p.0,
        );
        assert(pv.take(k + 1).map_values(|p: (Seq<char>, Option<Seq<SemanticSymbol>>)| p.0)
            =~= roots_before.push(project.0@));
        let (root, symbols) = project;
        let seen = seen_root(&roots, &root);
        let ghost vb = views(roots@);
        roots.push(root);
        assert(views(roots@) =~= vb.push(pj.0));
        if !seen {
            match symbols {
                Some(group) => {
                    let ghost groups = project_groups(pv.take(k as int));
                    assert(concat_groups(groups.push(group@)) == concat_groups(groups) + group@) by {
                        assert(groups.push(group@).drop_last() =~= groups);
                    }
                    keep_matching(
                        &mut selected,
                        group,
                        &lower,
                        Ghost(qv),
                        Ghost(concat_groups(groups)),
                    );
                },
                None => {},
            }
        }
        k = k + 1;
    }
    proof {
        assert(pv.take(k as int) =~= pv);
    }
    let ghost groups_all = concat_groups(project_groups(pv));
    match standard {
        Some(group) => {
            keep_matching(&mut selected, group, &lower, Ghost(qv), Ghost(groups_all));
        },
        None => {
            assert(groups_all + Seq::<SemanticSymbol>::empty() =~= groups_all);
        },
    }
    selected
}

/// URIs held as strings, viewed as characters.
pub open spec fn uris_view(v: Seq<Option<String>>) -> Seq<Option<Seq<char>>> {
    v.map_values(
        |u: Option<String>|
            match u {
                Some(s) => Some(s@),
                None => None,
            },
    )
}

/// Whether entry `a` sorts strictly before entry `b` (see [`info_lt`]).
fn info_precedes(a: &SymbolInformation, b: &SymbolInformation) -> (r: bool)
    ensures
        r == info_lt(info_view(*a), info_view(*b)),
{
    if text_precedes(&a.name, &b.name) {
        return true;
    }
    if a.name != b.name {
        return false;
    }
    if text_precedes(&a.uri, &b.uri) {
        return true;
    }
    if a.uri != b.uri {
        return false;
    }
    a.range.start.line < b.range.start.line || (a.range.start.line == b.range.start.line
        && a.range.start.character < b.range.start.character)
}

proof fn lemma_info_insertion_index_bound(
    sorted: Seq<(Seq<char>, SymbolKind, Seq<char>, Range, Option<Seq<char>>)>,
    x: (Seq<char>, SymbolKind, Seq<char>, Range, Option<Seq<char>>),
    from: nat,
)
    requires
        from <= sorted.len(),
    ensures
        from <= info_insertion_index(sorted, x, from) <= sorted.len(),
    decreases sorted.len() - from,
{
    if from < sorted.len() && !info_lt(x, sorted[from as int]) {
        lemma_info_insertion_index_bound(sorted, x, from + 1);
    }
}

/// The search listing of selected symbols given their files' URIs (`None` where a
/// file has none): one entry per symbol with a URI, sorted by [`info_lt`].
pub fn workspace_symbol_listing(selected: Vec<SemanticSymbol>, uris: Vec<Option<String>>) -> (r: Vec<
    SymbolInformation,
>)
    requires
        uris.len() == selected.len(),
    ensures
        infos_view(r@) == sort_infos(symbol_infos(selected@, uris_view(uris@))),
{
    let ghost sel = selected@;
    let ghost uv = uris_view(uris@);
    let mut rest = selected;
    let mut infos: Vec<SymbolInformation> = Vec::new();
    let mut k: usize = 0;
    assert(sel.skip(0) =~= sel);
    assert(sel.len() == rest.len());
    while rest.len() > 0
        invariant
            k <= sel.len(),
            sel.len() == uris.len(),
            sel.len() <= usize::MAX,
            uv == uris_view(uris@),
            rest@ == sel.skip(k as int),
            infos_view(infos@) == symbol_infos(sel.take(k as int), uv.take(k as int)),
        decreases rest.len(),
    {
        let symbol = rest.remove(0);
        proof {
            assert(rest@ =~= sel.skip(k + 1));
            assert(symbol == sel[k as int]);
            assert(sel.take(k + 1).drop_last() =~= sel.take(k as int));
            assert(sel.take(k + 1).last() == symbol);
            assert(uv.take(k + 1).take(k as int) =~= uv.take(k as int));
            assert(uv.take(k + 1)[k as int] == uv[k as int]);
        }
        let ghost before = infos_view(infos@);
        match &uris[k] {
            Some(uri) => {
                let container_name = path_file_name(&symbol.source_path);
                let ghost sym = symbol;
                infos.push(
                    SymbolInformation {
                        name: symbol.name,
                        kind: lsp_symbol_kind(symbol.kind),
                        uri: uri.clone(),
                        range: symbol.selection_range,
                        container_name,
                    },
                );
                assert(infos_view(infos@) =~= before.push(
                    (
                        sym.name@,
                        symbol_kind_of(sym.kind),
                        uri@,
                        sym.selection_range,
                        file_name(sym.source_path@),
                    ),
                ));
            },
            None => {},
        }
        k = k + 1;
    }
    proof {
        assert(sel.take(k as int) =~= sel);
        assert(uv.take(k as int) =~= uv);
    }
    let ghost all = infos_view(infos@);
    let mut rest = infos;
    let mut sorted: Vec<SymbolInformation> = Vec::new();
    let mut m: usize = 0;
    assert(all.take(0) =~= Seq::<(Seq<char>, SymbolKind, Seq<char>, Range, Option<Seq<char>>)>::empty());
    assert(all.skip(0) =~= all);
    assert(all.len() == rest.len());
    while rest.len() > 0
        invariant
            m <= all.len(),
            all.len() <= usize::MAX,
            infos_view(rest@) == all.skip(m as int),
            infos_view(sorted@) == sort_infos(all.take(m as int)),
        decreases rest.len(),
    {
        let ghost old_rest = rest@;
        let x = rest.remove(0);
        proof {
            assert(rest@ =~= old_rest.skip(1));
            assert(x == old_rest[0]);
            assert(infos_view(old_rest) == all.skip(m as int));
            assert(infos_view(old_rest).len() == old_rest.len());
            assert(infos_view(old_rest)[0] == info_view(x));
            assert(all.skip(m as int)[0] == all[m as int]);
            assert forall|i: int| 0 <= i < rest@.len() implies #[trigger] infos_view(rest@)[i]
                == all.skip(m + 1)[i] by {
                assert(rest@[i] == old_rest[i + 1]);
                assert(infos_view(old_rest)[i + 1] == all.skip(m as int)[i + 1]);
            }
            assert(infos_view(rest@) =~= all.skip(m + 1));
        }
        let ghost sv = infos_view(sorted@);
        proof {
            lemma_info_insertion_index_bound(sv, info_view(x), 0);
        }
        let mut j: usize = 0;
        while j < sorted.len() && !info_precedes(&x, &sorted[j])
            invariant
                j <= sorted.len(),
                sv == infos_view(sorted@),
                info_insertion_index(sv, info_view(x), j as nat) == info_insertion_index(
                    sv,
                    info_view(x),
                    0,
                ),
            decreases sorted.len() - j,
        {
            j = j + 1;
        }
        let ghost xv = info_view(x);
        sorted.insert(j, x);
        proof {
            assert(all.take(m + 1).drop_last() =~= all.take(m as int));
            assert(all.take(m + 1).last() == all[m as int]);
            assert(infos_view(sorted@) =~= sv.insert(j as int, xv));
        }
        m = m + 1;
    }
    proof {
        assert(all.take(m as int) =~= all);
    }
    sorted
}

/// The URI (see [`file_url`]) of the file of each symbol.
pub open spec fn symbol_file_urls(selected: Seq<SemanticSymbol>) -> Seq<Option<Seq<char>>> {
    selected.map_values(|s: SemanticSymbol| file_url(s.source_path@))
}

/// The workspace symbols matching `query` (see [`selected_symbols`]), with the URIs
/// of their files (see [`file_url`]), sorted by name, URI and position. Symbols whose
/// file has no URI are left out.
pub fn workspace_symbols_for_roots(
    projects: Vec<(String, Option<Vec<SemanticSymbol>>)>,
    standard: Option<Vec<SemanticSymbol>>,
    query: &str,
) -> (r: Vec<SymbolInformation>)
    ensures
        infos_view(r@) == sort_infos(
            symbol_infos(
                selected_symbols(projects_view(projects@), symbols_view(standard), query@),
                symbol_file_urls(
                    selected_symbols(projects_view(projects@), symbols_view(standard), query@),
                ),
            ),
        ),
{
    let selected = select_workspace_symbols(projects, standard, query);
    let ghost sel = selected@;
    let mut uris: Vec<Option<String>> = Vec::new();
    let mut i: usize = 0;
    while i < selected.len()
        invariant
            i <= selected.len(),
            sel == selected@,
            uris.len() == i,
            uris_view(uris@) == symbol_file_urls(sel.take(i as int)),
        decreases selected.len() - i,
    {
        let u = crate::navigation::file_uri(&selected[i].source_path);
        let ghost before = uris_view(uris@);
        let ghost uv = uris_view(seq![u])[0];
        assert(uv == file_url(sel[i as int].source_path@));
        uris.push(u);
        assert(uris_view(uris@) =~= before.push(uv));
        assert(symbol_file_urls(sel.take(i + 1)) =~= symbol_file_urls(sel.take(i as int)).push(
            file_url(sel[i as int].source_path@),
        ));
        i = i + 1;
    }
    assert(sel.take(selected.len() as int) =~= sel);
    let r = workspace_symbol_listing(selected, uris);
    r
}

proof fn lemma_kept_symbols(candidates: Seq<SemanticSymbol>, query: Seq<char>)
    ensures
        forall|i: int|
            0 <= i < kept_symbols(candidates, query).len() ==> matches_query(
                (#[trigger] kept_symbols(candidates, query)[i]).name@,
                query,
            ),
        forall|i: int, j: int|
            0 <= i < j < kept_symbols(candidates, query).len() ==> symbol_key(
                #[trigger] kept_symbols(candidates, query)[i],
            ) != symbol_key(#[trigger] kept_symbols(candidates, query)[j]),
    decreases candidates.len(),
{
    if candidates.len() > 0 {
        let rest = candidates.drop_last();
        lemma_kept_symbols(rest, query);
        let kept = kept_symbols(rest, query);
        let s = candidates.last();
        let keys = kept.map_values(|k: SemanticSymbol| symbol_key(k));
        if matches_query(s.name@, query) && !keys.contains(symbol_key(s)) {
            let after = kept.push(s);
            assert forall|i: int| 0 <= i < kept.len() implies symbol_key(#[trigger] after[i]) != symbol_key(s) by {
                assert(after[i] == kept[i]);
                assert(keys[i] == symbol_key(kept[i]));
            }
        }
    }
}

proof fn lemma_text_lt_transitive(a: Seq<char>, b: Seq<char>, c: Seq<char>)
    ensures
        text_lt(a, b) && text_lt(b, c) ==> text_lt(a, c),
    decreases a.len(),
{
    if a.len() > 0 && b.len() > 0 && c.len() > 0 {
        lemma_text_lt_transitive(a.drop_first(), b.drop_first(), c.drop_first());
    }
}

proof fn lemma_text_lt_irreflexive(a: Seq<char>)
    ensures
        !text_lt(a, a),
    decreases a.len(),
{
    if a.len() > 0 {
        lemma_text_lt_irreflexive(a.drop_first());
    }
}

proof fn lemma_info_lt_transitive(
    a: (Seq<char>, SymbolKind, Seq<char>, Range, Option<Seq<char>>),
    b: (Seq<char>, SymbolKind, Seq<char>, Range, Option<Seq<char>>),
    c: (Seq<char>, SymbolKind, Seq<char>, Range, Option<Seq<char>>),
)
    ensures
        info_lt(a, b) && info_lt(b, c) ==> info_lt(a, c),
{
    lemma_text_lt_transitive(a.0, b.0, c.0);
    lemma_text_lt_transitive(a.2, b.2, c.2);
}

/// Where `info_insertion_index` stops: every entry it passes is not after `x`, and
/// the entry it stops at (if any) is after `x`.
proof fn lemma_info_insertion_index_spot(
    sorted: Seq<(Seq<char>, SymbolKind, Seq<char>, Range, Option<Seq<char>>)>,
    x: (Seq<char>, SymbolKind, Seq<char>, Range, Option<Seq<char>>),
    from: nat,
)
    requires
        from <= sorted.len(),
    ensures
        forall|m: int| from <= m < info_insertion_index(sorted, x, from) ==> !info_lt(x, #[trigger] sorted[m]),
        info_insertion_index(sorted, x, from) < sorted.len() ==> info_lt(
            x,
            sorted[info_insertion_index(sorted, x, from) as int],
        ),
    decreases sorted.len() - from,
{
    if from < sorted.len() && !info_lt(x, sorted[from as int]) {
        lemma_info_insertion_index_spot(sorted, x, from + 1);
    }
}

/// Whether the entries come in the order of [`info_lt`].
pub open spec fn infos_sorted(v: Seq<(Seq<char>, SymbolKind, Seq<char>, Range, Option<Seq<char>>)>) -> bool {
    forall|i: int, j: int| 0 <= i < j < v.len() ==> !info_lt(#[trigger] v[j], #[trigger] v[i])
}

proof fn lemma_sort_infos_sorted(v: Seq<(Seq<char>, SymbolKind, Seq<char>, Range, Option<Seq<char>>)>)
    ensures
        sort_infos(v).len() == v.len(),
        infos_sorted(sort_infos(v)),
    decreases v.len(),
{
    if v.len() > 0 {
        let rest = v.drop_last();
        lemma_sort_infos_sorted(rest);
        let s = sort_infos(rest);
        let x = v.last();
        lemma_info_insertion_index_bound(s, x, 0);
        lemma_info_insertion_index_spot(s, x, 0);
        let k = info_insertion_index(s, x, 0) as int;
        let r = s.insert(k, x);
        assert(r == sort_infos(v));
        assert forall|i: int, j: int| 0 <= i < j < r.len() implies !info_lt(#[trigger] r[j], #[trigger] r[i]) by {
            if j < k {
                assert(r[i] == s[i] && r[j] == s[j]);
            } else if j == k {
                assert(r[i] == s[i]);
            } else if i < k {
                assert(r[i] == s[i] && r[j] == s[j - 1]);
            } else if i == k {
                assert(r[j] == s[j - 1]);
                if j - 1 > k {
                    assert(!info_lt(s[j - 1], s[k]));
                }
                lemma_info_lt_transitive(s[j - 1], x, s[k]);
                if j - 1 == k {
                    lemma_text_lt_irreflexive(s[k].0);
                    lemma_text_lt_irreflexive(s[k].2);
                }
            } else {
                assert(r[i] == s[i - 1] && r[j] == s[j - 1]);
            }
        }
    }
}

/// A workspace search finds each declaration once and only names that match the
/// query: no two selected symbols share a file, name and position, every selected
/// name contains the query (ignoring ASCII case); and the listing, whatever URIs
/// the files have, comes sorted by name, then URI, then position.
pub proof fn lemma_workspace_symbols_unique_and_sorted(
    projects: Seq<(Seq<char>, Option<Seq<SemanticSymbol>>)>,
    standard: Option<Seq<SemanticSymbol>>,
    query: Seq<char>,
    uris: Seq<Option<Seq<char>>>,
)
    ensures
        forall|i: int, j: int|
            0 <= i < j < selected_symbols(projects, standard, query).len() ==> symbol_key(
                #[trigger] selected_symbols(projects, standard, query)[i],
            ) != symbol_key(#[trigger] selected_symbols(projects, standard, query)[j]),
        forall|i: int|
            0 <= i < selected_symbols(projects, standard, query).len() ==> matches_query(
                (#[trigger] selected_symbols(projects, standard, query)[i]).name@,
                query,
            ),
        infos_sorted(sort_infos(symbol_infos(selected_symbols(projects, standard, query), uris))),
{
    let candidates = concat_groups(project_groups(projects)) + match standard {
        Some(s) => s,
        None => Seq::empty(),
    };
    lemma_kept_symbols(candidates, query);
    lemma_sort_infos_sorted(symbol_infos(selected_symbols(projects, standard, query), uris));
}

/// The kind of the members an entry of kind `k` holds: fields in a struct, enum
/// members in an enum, methods in an interface.
pub open spec fn member_kind(k: SymbolKind) -> Option<SymbolKind> {
    match k {
        SymbolKind::Struct => Some(SymbolKind::Field),
        SymbolKind::Enum => Some(SymbolKind::EnumMember),
        SymbolKind::Interface => Some(SymbolKind::Method),
        _ => None,
    }
}

/// How many entries are nested under the top-level entries of `items`.
pub open spec fn nested_count(
    items: Seq<
        (
            (Seq<char>, Seq<char>, SymbolKind, Range, Range),
            Option<Seq<(Seq<char>, Seq<char>, SymbolKind, Range, Range)>>,
        ),
    >,
) -> nat
    decreases items.len(),
{
    if items.len() == 0 {
        0
    } else {
        nested_count(items.drop_last()) + match items.last().1 {
            Some(c) => c.len(),
            None => 0,
        }
    }
}

/// The entries nested under `item` have the member kind of `item`.
pub open spec fn entry_members_fit(
    item: (
        (Seq<char>, Seq<char>, SymbolKind, Range, Range),
        Option<Seq<(Seq<char>, Seq<char>, SymbolKind, Range, Range)>>,
    ),
) -> bool {
    match item.1 {
        Some(c) => forall|j: int| 0 <= j < c.len() ==> member_kind(item.0.2) == Some(#[trigger] c[j].2),
        None => true,
    }
}

/// Every nested entry has the member kind of the entry it sits under.
pub open spec fn members_fit(
    items: Seq<
        (
            (Seq<char>, Seq<char>, SymbolKind, Range, Range),
            Option<Seq<(Seq<char>, Seq<char>, SymbolKind, Range, Range)>>,
        ),
    >,
) -> bool {
    forall|i: int| 0 <= i < items.len() ==> entry_members_fit(#[trigger] items[i])
}

proof fn lemma_parent_index_found(
    items: Seq<
        (
            (Seq<char>, Seq<char>, SymbolKind, Range, Range),
            Option<Seq<(Seq<char>, Seq<char>, SymbolKind, Range, Range)>>,
        ),
    >,
    owner: Seq<char>,
    kind: SymbolKind,
)
    ensures
        parent_index(items, owner, kind) matches Some(i) ==> 0 <= i < items.len() && items[i].0.0 == owner
            && items[i].0.2 == kind,
    decreases items.len(),
{
    if items.len() > 0 && !(items[0].0.0 == owner && items[0].0.2 == kind) {
        lemma_parent_index_found(items.drop_first(), owner, kind);
    }
}

proof fn lemma_nested_count_update(
    items: Seq<
        (
            (Seq<char>, Seq<char>, SymbolKind, Range, Range),
            Option<Seq<(Seq<char>, Seq<char>, SymbolKind, Range, Range)>>,
        ),
    >,
    i: int,
    e: (Seq<char>, Seq<char>, SymbolKind, Range, Range),
)
    requires
        0 <= i < items.len(),
    ensures
        nested_count(
            items.update(
                i,
                (
                    items[i].0,
                    Some(
                        match items[i].1 {
                            Some(c) => c,
                            None => Seq::empty(),
                        }.push(e),
                    ),
                ),
            ),
        ) == nested_count(items) + 1,
    decreases items.len(),
{
    let before = match items[i].1 {
        Some(c) => c,
        None => Seq::empty(),
    };
    let u = items.update(i, (items[i].0, Some(before.push(e))));
    if i == items.len() - 1 {
        assert(u.drop_last() =~= items.drop_last());
    } else {
        lemma_nested_count_update(items.drop_last(), i, e);
        assert(u.drop_last() =~= items.drop_last().update(i, (items[i].0, Some(before.push(e)))));
        assert(u.last() == items.last());
    }
}

proof fn lemma_nested_count_push(
    items: Seq<
        (
            (Seq<char>, Seq<char>, SymbolKind, Range, Range),
            Option<Seq<(Seq<char>, Seq<char>, SymbolKind, Range, Range)>>,
        ),
    >,
    e: (Seq<char>, Seq<char>, SymbolKind, Range, Range),
)
    ensures
        nested_count(items.push((e, None))) == nested_count(items),
{
    assert(items.push((e, None)).drop_last() =~= items);
}

/// A document's outline keeps every symbol: it holds as many entries, top-level and
/// nested, as there are symbols; and each nested entry is a member of the kind its
/// parent holds (a field in a struct, an enum member in an enum, a method in an
/// interface).
pub proof fn lemma_outline_keeps_every_symbol(symbols: Seq<SemanticSymbol>)
    ensures
        outline(symbols).len() + nested_count(outline(symbols)) == symbols.len(),
        members_fit(outline(symbols)),
    decreases symbols.len(),
{
    if symbols.len() > 0 {
        let rest = symbols.drop_last();
        lemma_outline_keeps_every_symbol(rest);
        let items = outline(rest);
        let s = symbols.last();
        match (owner_kind(s.kind), s.container_name) {
            (Some(k), Some(owner)) => {
                lemma_parent_index_found(items, owner@, k);
                match parent_index(items, owner@, k) {
                    Some(i) => {
                        lemma_nested_count_update(items, i, entry_of(s));
                        let before = match items[i].1 {
                            Some(c) => c,
                            None => Seq::<(Seq<char>, Seq<char>, SymbolKind, Range, Range)>::empty(),
                        };
                        let u = items.update(i, (items[i].0, Some(before.push(entry_of(s)))));
                        assert(u == outline(symbols));
                        assert forall|a: int| 0 <= a < u.len() implies entry_members_fit(#[trigger] u[a]) by {
                            if a != i {
                                assert(u[a] == items[a]);
                            } else {
                                assert(entry_members_fit(items[i]));
                                let c = before.push(entry_of(s));
                                assert forall|b: int| 0 <= b < c.len() implies member_kind(u[a].0.2) == Some(
                                    #[trigger] c[b].2,
                                ) by {
                                    if b < before.len() {
                                        assert(c[b] == before[b]);
                                    }
                                }
                            }
                        }
                    },
                    None => {
                        lemma_nested_count_push(items, entry_of(s));
                        let u = items.push((entry_of(s), None));
                        assert forall|a: int| 0 <= a < u.len() implies entry_members_fit(#[trigger] u[a]) by {
                            if a < items.len() {
                                assert(u[a] == items[a]);
                            }
                        }
                    },
                }
            },
            _ => {
                lemma_nested_count_push(items, entry_of(s));
                let u = items.push((entry_of(s), None));
                assert forall|a: int| 0 <= a < u.len() implies entry_members_fit(#[trigger] u[a]) by {
                    if a < items.len() {
                        assert(u[a] == items[a]);
                    }
                }
            },
        }
    }
}

} // verus!
