//! Language services for the Tengo scripting language: the analysis behind an
//! LSP server's answers, as functions on parsed source text.

pub mod backend;
pub mod cli;
pub mod completion;
pub mod completion_laws;
pub mod definition;
pub mod definition_laws;
pub mod document;
pub mod exports;
pub mod exports_laws;
pub mod format;
pub mod format_laws;
pub mod grammar;
pub mod hover;
pub mod hover_laws;
pub mod indentation_laws;
pub mod lsp;
pub mod outline;
pub mod outline_laws;
pub mod places;
pub mod references;
pub mod references_laws;
pub mod rename;
pub mod resolver;
pub mod resolver_laws;
pub mod scope;
pub mod sharing_laws;
pub mod symbols;
pub mod symbols_laws;
pub mod syntax;
pub mod syntax_laws;
pub mod text;
pub mod text_facts;
pub mod usage_laws;
pub mod workspace;
