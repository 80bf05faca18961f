//! Hover text for a declaration: its signature in a code block, its documentation
//! and what kind of declaration it is.
use vstd::prelude::*;

use crate::symbol::{SemanticSymbol, SemanticSymbolKind};

verus! {

/// The word shown for each kind of declaration.
pub open spec fn kind_label(kind: SemanticSymbolKind) -> Seq<char> {
    match kind {
        SemanticSymbolKind::Struct => "struct"@,
        SemanticSymbolKind::Enum => "enum"@,
        SemanticSymbolKind::Field => "field"@,
        SemanticSymbolKind::Variant => "enum variant"@,
        SemanticSymbolKind::Interface => "interface"@,
        SemanticSymbolKind::InterfaceMethod => "interface method"@,
        SemanticSymbolKind::Const => "const"@,
        SemanticSymbolKind::Function => "function"@,
        SemanticSymbolKind::ExternFunction => "extern function"@,
        SemanticSymbolKind::Method => "method"@,
    }
}

/// The word shown for `kind` (see [`kind_label`]).
pub fn semantic_kind_label(kind: SemanticSymbolKind) -> (label: &'static str)
    ensures
        label@ == kind_label(kind),
{
    match kind {
        SemanticSymbolKind::Struct => "struct",
        SemanticSymbolKind::Enum => "enum",
        SemanticSymbolKind::Field => "field",
        SemanticSymbolKind::Variant => "enum variant",
        SemanticSymbolKind::Interface => "interface",
        SemanticSymbolKind::InterfaceMethod => "interface method",
        SemanticSymbolKind::Const => "const",
        SemanticSymbolKind::Function => "function",
        SemanticSymbolKind::ExternFunction => "extern function",
        SemanticSymbolKind::Method => "method",
    }
}

/// The Markdown shown on hover: the signature in a `nomo` code block, then the
/// documentation when there is any, then the kind's word, separated by blank lines.
pub open spec fn markdown_for(item: SemanticSymbol) -> Seq<char> {
    let code = "```nomo\n"@ + item.signature@ + "\n```"@;
    let with_docs = if item.docs@.len() == 0 {
        code
    } else {
        code + "\n\n"@ + item.docs@
    };
    with_docs + "\n\n"@ + kind_label(item.kind)
}

/// The Markdown shown on hover over `item` (see [`markdown_for`]).
pub fn hover_markdown(item: &SemanticSymbol) -> (value: String)
    ensures
        value@ == markdown_for(*item),
{
    let mut value = "```nomo\n".to_owned();
    value.append(item.signature.as_str());
    value.append("\n```");
    if item.docs.as_str().unicode_len() != 0 {
        value.append("\n\n");
        value.append(item.docs.as_str());
    }
    value.append("\n\n");
    value.append(semantic_kind_label(item.kind));
    value
}

/// A hover answer: Markdown content, with no range of its own.
#[derive(Clone, Debug)]
pub struct Hover {
    pub markdown: String,
}

/// The hover answer for `item`.
pub fn hover_for_symbol(item: &SemanticSymbol) -> (h: Hover)
    ensures
        h.markdown@ == markdown_for(*item),
{
    Hover { markdown: hover_markdown(item) }
}

/// The hover answer at a position, given the declaration the compiler found there
/// (`None` when it found none): nothing where there is no declaration.
pub fn hover_for_document(item: Option<SemanticSymbol>) -> (h: Option<Hover>)
    ensures
        item is None <==> h is None,
        item matches Some(s) ==> h matches Some(v) && v.markdown@ == markdown_for(s),
{
    match item {
        Some(s) => Some(hover_for_symbol(&s)),
        None => None,
    }
}

} // verus!
