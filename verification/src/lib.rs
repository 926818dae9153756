//! Sapling: a structural editor that edits syntax trees rather than text.
//!
//! This crate holds the editor's verified core: text sizes, tree paths, the JSON syntax
//! trees and their renderings, the undoable tree history, cursors, character sets, the
//! keystroke command language, language grammars with their compilation from grammar files,
//! the tokenizer and the parser.

pub mod arena;
pub mod ast;
pub mod ast_spec;
pub mod base;
pub mod char_set;
pub mod cursors;
pub mod editable_tree;
pub mod editor;
pub mod grammar;
pub mod grammar_spec;
pub mod parser;
pub mod syntax;
pub mod tokenizer;
