//! Verified core of a language server for the Nomo programming language.
pub mod text;
pub mod formatting;
pub mod token;
pub mod semantic;
pub mod symbol;
pub mod signature_help;
pub mod ast;
pub mod inlay_hints;
pub mod incremental;
pub mod lines;
pub mod navigation;
pub mod rename;
pub mod completion;
pub mod actions;
pub mod symbols;
pub mod hover;
pub mod paths;
