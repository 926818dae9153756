//! The file format which specifies language grammars.  This can be roughly thought of as an
//! 'AST' for the grammar files.
//!
//! When loading a language's grammar, the following happens:
//! 1. The file containing that language's grammar is read into a [`SpecGrammar`]
//! 2. That [`SpecGrammar`] is compiled into a full [`Grammar`], which the editor can use
//!    directly
//!
//! All these stages can generate errors, which are all bubbled up to the caller.

pub mod convert;

use vstd::prelude::*;

use crate::grammar::{EscapeRules, Grammar};

verus! {

/// A simplified version of [`Grammar`], as read from a grammar file.  Its only method,
/// [`into_grammar`](SpecGrammar::into_grammar), checks the data and returns a [`Grammar`]
/// specifying the same language.
#[derive(Debug)]
pub struct SpecGrammar {
    /// The name of the root type
    pub root_type: String,
    /// The chars which are whitespace
    pub whitespace: Whitespace,
    /// The types of nodes, by name.  The names are expected to be unique.
    pub types: Vec<(String, Type)>,
}

impl SpecGrammar {
    /// Checks `self` and compiles it into a full [`Grammar`].
    pub fn into_grammar(self) -> (r: Result<Grammar, convert::ConvertError>)
        requires
            convert::stringy_flags_set(self.types@),
        ensures
            convert::converts(self, r),
    {
        convert::convert(self)
    }
}

/// A type of node, as specified in a grammar file.
#[derive(Debug)]
pub enum Type {
    /// A type given by a pattern of tokens and child nodes, or a container of other types.
    Pattern {
        key: Option<String>,
        keys: Vec<String>,
        /// The names of the types into which this type can be converted
        children: Vec<String>,
        /// The pattern, or `None` for a container
        pattern: Option<Vec<PatternElement>>,
    },
    /// A type of node whose contents are an arbitrary string.
    Stringy {
        key: Option<String>,
        keys: Vec<String>,
        /// Expected to be `true`
        stringy: bool,
        /// String appended before the escaped contents
        delim_start: String,
        /// String appended after the escaped contents
        delim_end: String,
        /// Default node **contents** (i.e. unescaped string).  This must match
        /// `validity_regex`.
        default_content: String,
        /// A regex against which all **content** strings will be matched
        validity_regex: Option<String>,
        /// How the contents are escaped
        escape_rules: Option<EscapeRules>,
    },
}

/// One element of a pattern, as specified in a grammar file.
#[derive(Debug)]
pub enum PatternElement {
    /// A single, unchanging piece of non-whitespace text
    Token(String),
    /// A position where a sub-node will be placed
    Type { name: String },
    /// A sequence of repeating instances of a `pattern`, separated by instances of a
    /// `delimiter`.  This does not allow trailing delimiters.
    Sequence { pattern: Vec<PatternElement>, delimiter: String },
}

/// The whitespace of a grammar, as specified in a grammar file.
#[derive(Debug, Clone)]
pub enum Whitespace {
    /// The chars of a regex char class (what goes between `[` and `]`)
    Chars(String),
}

} // verus!
