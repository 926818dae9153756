//! Language-independent grammar datatypes: token and type identifiers, tokens, patterns and
//! whitespace.

use bimap::BiHashMap;
use regex::Regex;
use vstd::prelude::*;
use vstd::multiset::Multiset;
use vstd::string::*;

use crate::char_set::{CharSet, Sampler};
use crate::tokenizer::str_iter::{byte_len, chars_in_bytes};

verus! {

#[verifier::external_type_specification]
#[verifier::external_body]
pub struct ExRegex(Regex);

#[verifier::external_type_specification]
#[verifier::external_body]
pub struct ExRegexError(regex::Error);

#[verifier::external_type_specification]
#[verifier::external_body]
pub struct ExRegexSyntaxError(regex_syntax::Error);

#[verifier::external_type_specification]
#[verifier::external_body]
#[verifier::reject_recursive_types(L)]
#[verifier::reject_recursive_types(R)]
#[verifier::reject_recursive_types(LS)]
#[verifier::reject_recursive_types(RS)]
pub struct ExBiHashMap<L, R, LS, RS>(BiHashMap<L, R, LS, RS>);

/// The identifier of a type of node in a grammar.
#[derive(Debug, Copy, Clone, PartialEq, Eq, Hash, Structural)]
pub struct TypeId(pub usize);

/// The identifier of a static token in a grammar.
#[derive(Debug, Copy, Clone, PartialEq, Eq, Hash, Structural)]
pub struct TokenId(pub usize);

/// A sequence of pattern elements.
pub type Pattern = Vec<PatternElement>;

/// One element of the pattern of a node type.
#[derive(Debug)]
pub enum PatternElement {
    /// A single, unchanging piece of non-whitespace text
    Token(TokenId),
    /// A position where a sub-node will be placed.  The sub-node's type must be a descendant of
    /// the specified [`TypeId`].
    Type(TypeId),
    /// A sequence of repeating instances of a `pattern`, separated by instances of a
    /// `delimiter`.  This does not allow trailing delimiters.
    Sequence { pattern: Pattern, delimiter: TokenId },
}

/// A static token of a grammar.
#[derive(Debug, Clone)]
pub struct Token {
    text: String,
}

impl Token {
    /// A token with the given text.
    pub fn new(text: String) -> (t: Self)
        ensures
            t.spec_text() == text@,
    {
        Self { text }
    }

    /// The text of this token.
    pub closed spec fn spec_text(&self) -> Seq<char> {
        self.text@
    }

    /// Whether the text of this token is `v`.
    pub(crate) fn text_is(&self, v: &String) -> (b: bool)
        ensures
            b == (self.spec_text() == v@),
    {
        self.text == *v
    }

    /// The text of this token.
    pub fn text(&self) -> (s: &str)
        ensures
            s@ == self.spec_text(),
    {
        self.text.as_str()
    }
}

/// A compiled regex, with the pattern it was compiled from.  Only [`CompiledRegex::new`]
/// makes one, so the regex is always the one compiled from the pattern.
#[derive(Debug)]
pub struct CompiledRegex {
    regex: Regex,
    pattern: String,
}

impl View for CompiledRegex {
    type V = Seq<char>;

    /// The pattern that the regex was compiled from.
    closed spec fn view(&self) -> Seq<char> {
        self.pattern@
    }
}

/// Whether the regex crate compiles `pattern` (with its default size limits).
pub uninterp spec fn regex_compiles(pattern: Seq<char>) -> bool;

/// The first match (leftmost, as the regex crate picks it) of the regex compiled from
/// `pattern` in `haystack`, as the byte offsets of its start and end in the UTF-8 encoding of
/// `haystack`.
pub uninterp spec fn regex_first_match(pattern: Seq<char>, haystack: Seq<char>) -> Option<(int, int)>;

/// `Regex::new`: compiles `pattern`, and keeps the pattern beside the regex.  Whether it
/// succeeds depends on the pattern alone.
#[verifier::external_body]
fn regex_new(pattern: &str) -> (r: Result<CompiledRegex, regex::Error>)
    ensures
        r is Ok <==> regex_compiles(pattern@),
        r matches Ok(re) ==> re@ == pattern@,
{
    match Regex::new(pattern) {
        Ok(regex) => Ok(CompiledRegex { regex, pattern: pattern.to_string() }),
        Err(e) => Err(e),
    }
}

/// `Regex::find`: the first match of `re` in `haystack`, as the byte offsets of its start and
/// end.  The match depends on the pattern and the haystack alone; the regex crate documents
/// that `start <= end` and that both fall on char boundaries.
#[verifier::external_body]
pub(crate) fn regex_find(re: &CompiledRegex, haystack: &str) -> (r: Option<(usize, usize)>)
    ensures
        regex_first_match(re@, haystack@) == match r {
            Some((start, end)) => Some((start as int, end as int)),
            None => None::<(int, int)>,
        },
        r matches Some((start, end)) ==> start <= end && chars_in_bytes(haystack@, start as int) is Some
            && chars_in_bytes(haystack@, end as int) is Some,
{
    re.regex.find(haystack).map(|m| (m.start(), m.end()))
}

impl CompiledRegex {
    /// Compiles `pattern`.
    pub fn new(pattern: &str) -> (r: Result<CompiledRegex, regex::Error>)
        ensures
            r is Ok <==> regex_compiles(pattern@),
            r matches Ok(re) ==> re@ == pattern@,
    {
        regex_new(pattern)
    }

    /// The pattern that this regex was compiled from.
    pub fn as_str(&self) -> (s: &str)
        ensures
            s@ == self@,
    {
        self.pattern.as_str()
    }
}

/// The [`CompiledRegex`]es required to specify the valid strings of a [`Stringy`] node
#[derive(Debug)]
pub struct Regexes {
    /// Matches the contents anywhere
    pub unanchored: CompiledRegex,
    /// Matches the contents from the start of a string
    pub anchored_start: CompiledRegex,
    /// Matches a whole string of contents
    pub anchored_both: CompiledRegex,
}

/// The pairs `(escaped, de-escaped)` held by a bimap of strings.
pub uninterp spec fn bimap_pairs(m: BiHashMap<String, String>) -> Multiset<(Seq<char>, Seq<char>)>;

/// The views of a list of string pairs.
pub open spec fn pair_views(v: Seq<(&String, &String)>) -> Seq<(Seq<char>, Seq<char>)> {
    v.map_values(|p: (&String, &String)| (p.0@, p.1@))
}

/// `BiHashMap::iter`: every left-right pair of the bimap, each once.  The order is that of the
/// hash map inside the bimap, which is seeded per process, so it is left unsaid.
#[verifier::external_body]
pub(crate) fn bimap_pairs_in_some_order(m: &BiHashMap<String, String>) -> (v: Vec<(&String, &String)>)
    ensures
        pair_views(v@).to_multiset() == bimap_pairs(*m),
{
    m.iter().collect()
}

/// How the contents of a [`Stringy`] node are escaped.
#[derive(Debug)]
pub struct EscapeRules {
    /// A non-empty string that all escape sequences must start with.  For example, in JSON
    /// strings this is `\`
    pub start_sequence: String,
    /// Maps escape sequences (to go after `start_sequence`) to the de-escaped [`String`].  For
    /// example, for JSON strings `"` maps to `"` (i.e. `\"` de-escapes to `"`).
    pub rules: BiHashMap<String, String>,
    /// The prefix which takes 4 hex symbols and de-escapes them to that unicode code-point.
    /// For example, in JSON strings this is `u` (i.e. `\uABCD` would turn into the unicode
    /// code point `0xABCD`).
    pub unicode_hex_4: Option<String>,
}

/// A type of node whose contents are an arbitrary string (which can be edited separately).
/// This is used for nodes like identifiers or any type of literal (strings, numbers, etc.).
#[derive(Debug)]
pub struct Stringy {
    /// String appended before the escaped contents
    pub delim_start: String,
    /// String appended after the escaped contents
    pub delim_end: String,
    /// The [`Regex`]es which all node **contents** must match
    pub regexes: Option<Regexes>,
    /// Default **contents** of new nodes
    pub default_content: String,
    /// How the contents are escaped between the delimiters
    pub escape_rules: Option<EscapeRules>,
}

impl Stringy {
    /// Return the [`CompiledRegex`] which the contents of `self` must match, anywhere in them
    pub fn unanchored_content_regex(&self) -> (r: Option<&CompiledRegex>)
        ensures
            self.regexes is None ==> r is None,
            self.regexes matches Some(rs) ==> r == Some(&rs.unanchored),
    {
        match &self.regexes {
            Some(regexes) => Some(&regexes.unanchored),
            None => None,
        }
    }

    /// Creates a canonical display string for some contents: the contents between the
    /// delimiters.
    pub fn create_display_string(&self, contents: &str) -> (s: String)
        ensures
            s@ == self.delim_start@ + contents@ + self.delim_end@,
    {
        let mut display_str = String::new();
        display_str.append(self.delim_start.as_str());
        display_str.append(contents);
        display_str.append(self.delim_end.as_str());
        display_str
    }
}

/// What a type of node is.
#[derive(Debug)]
pub enum TypeInner {
    /// A type which can't be instantiated, but can contain child nodes
    Container,
    /// The pattern describing which token sequences are valid instances of this type.
    Pattern(Pattern),
    /// A node which stores a string value, editable by the user.  These nodes always correspond
    /// to precisely one token.
    Stringy(Stringy),
}

/// A type of node of a grammar.
#[derive(Debug)]
pub struct Type {
    /// The name given to this `Type`.  Must be unique within the [`Grammar`]
    pub name: String,
    /// The different sequences of keystrokes which refer to this `Type`.  This can be empty,
    /// in which case this `Type` can never be created explicitly.
    pub keys: Vec<String>,
    /// The complete set of types to which this type can be implicitly converted, **including**
    /// itself, each once.
    pub all_descendants: Vec<TypeId>,
    /// The descendant types of this type which are either a [`TypeInner::Pattern`] or a
    /// [`TypeInner::Stringy`], listed in parsing precedence, **including** itself.
    pub parseable_descendants: Vec<TypeId>,
    /// What this type is
    pub inner: TypeInner,
}

impl Type {
    /// The descendant types of this type which are either a [`TypeInner::Pattern`] or a
    /// [`TypeInner::Stringy`], listed in parsing precedence, **including** itself.
    pub fn parseable_descendants(&self) -> (d: &Vec<TypeId>)
        ensures
            d@ == self.parseable_descendants@,
    {
        &self.parseable_descendants
    }

    /// What this type is.
    pub fn inner(&self) -> (i: &TypeInner)
        ensures
            *i == self.inner,
    {
        &self.inner
    }

    /// The name of this type.
    pub fn name(&self) -> (n: &str)
        ensures
            n@ == self.name@,
    {
        self.name.as_str()
    }
}

/// The chars which are considered whitespace by a grammar.
#[derive(Debug, Clone)]
pub struct Whitespace {
    /// Which [`char`]s are considered 'whitespace'
    chars: CharSet,
}

impl Whitespace {
    /// The set of whitespace chars.
    pub closed spec fn charset(&self) -> CharSet {
        self.chars
    }

    /// Returns `true` if `c` should be considered whitespace
    pub fn is(&self, c: char) -> (b: bool)
        requires
            self.charset().wf(),
        ensures
            b == self.charset().chars().contains(c),
    {
        self.chars.contains(c)
    }

    /// A sampler of the whitespace chars.
    pub fn sampler(&self) -> (s: Sampler<'_>)
        requires
            self.charset().wf(),
        ensures
            s.wf(),
            s.charset() == self.charset(),
    {
        self.chars.sampler()
    }
}

impl From<CharSet> for Whitespace {
    fn from(chars: CharSet) -> (w: Self)
        ensures
            w.charset() == chars,
    {
        Self { chars }
    }
}

impl vstd::std_specs::convert::FromSpecImpl<CharSet> for Whitespace {
    open spec fn obeys_from_spec() -> bool {
        true
    }

    closed spec fn from_spec(v: CharSet) -> Self {
        Whitespace { chars: v }
    }
}

/// `true` if the static token entries are in decreasing order of text length (in bytes), and
/// in increasing order of id among texts of the same length.
pub open spec fn decreasing_by_len(entries: Seq<(Seq<char>, TokenId)>) -> bool {
    forall|i: int, j: int|
        0 <= i < j < entries.len() ==> (byte_len(#[trigger] entries[i].0) > byte_len(
            #[trigger] entries[j].0,
        ) || (byte_len(entries[i].0) == byte_len(entries[j].0) && entries[i].1.0 < entries[j].1.0))
}

/// The entries list the tokens of `tokens`, each once: there are as many entries as tokens,
/// every entry is the text and id of a token, and no id occurs twice.
pub open spec fn lists_all_tokens(entries: Seq<(Seq<char>, TokenId)>, tokens: Seq<Token>) -> bool {
    &&& entries.len() == tokens.len()
    &&& forall|i: int|
        0 <= i < entries.len() ==> (#[trigger] entries[i]).1.0 < tokens.len() && entries[i].0
            == tokens[entries[i].1.0 as int].spec_text()
    &&& forall|i: int, j: int|
        0 <= i < j < entries.len() ==> (#[trigger] entries[i]).1 != (#[trigger] entries[j]).1
}

/// A complete specification for how to parse files of a particular language: its root type,
/// its whitespace, its types of nodes and its static tokens.
#[derive(Debug)]
pub struct Grammar {
    root_type: TypeId,
    whitespace: Whitespace,
    types: Vec<Type>,
    tokens: Vec<Token>,
    /// Mapping from token texts to IDs, stored **in decreasing order** of the text length.
    /// This makes sure that the tokenizer always consumes the largest possible token (e.g.
    /// `"&&"` should be tokenized into just `&&`, rather than two `&`s).
    static_tokens_decreasing: Vec<(String, TokenId)>,
}

/// The view of the static token list of a grammar.
pub open spec fn entry_views(entries: Seq<(String, TokenId)>) -> Seq<(Seq<char>, TokenId)> {
    entries.map_values(|e: (String, TokenId)| (e.0@, e.1))
}

impl Grammar {
    /// The root type of the grammar.
    pub closed spec fn spec_root_type(&self) -> TypeId {
        self.root_type
    }

    /// The whitespace of the grammar.
    pub closed spec fn spec_whitespace(&self) -> Whitespace {
        self.whitespace
    }

    /// The types of nodes of the grammar, indexed by their ids.
    pub closed spec fn spec_types(&self) -> Seq<Type> {
        self.types@
    }

    /// The static tokens of the grammar, indexed by their ids.
    pub closed spec fn spec_tokens(&self) -> Seq<Token> {
        self.tokens@
    }

    /// The static tokens, with their ids, longest first.
    pub closed spec fn spec_static_tokens_decreasing(&self) -> Seq<(Seq<char>, TokenId)> {
        entry_views(self.static_tokens_decreasing@)
    }

    /// A grammar with the given root type, whitespace, types and tokens.  The static tokens are
    /// listed longest first; tokens of the same length keep the order of their ids.
    pub fn new(root_type: TypeId, whitespace: Whitespace, types: Vec<Type>, tokens: Vec<Token>) -> (g: Self)
        ensures
            g.spec_root_type() == root_type,
            g.spec_whitespace() == whitespace,
            g.spec_types() == types@,
            g.spec_tokens() == tokens@,
            decreasing_by_len(g.spec_static_tokens_decreasing()),
            lists_all_tokens(g.spec_static_tokens_decreasing(), tokens@),
    {
        // Sort the token ids by decreasing length of their text, keeping the order of ids
        // among texts of the same length
        let mut lens: Vec<usize> = Vec::new();
        let mut k: usize = 0;
        while k < tokens.len()
            invariant
                k <= tokens@.len(),
                lens@.len() == k,
                forall|i: int| 0 <= i < k ==> lens@[i] == byte_len(#[trigger] tokens@[i].spec_text()),
            decreases tokens@.len() - k,
        {
            let n = tokens[k].text().as_bytes().len();
            lens.push(n);
            k = k + 1;
        }
        let mut order: Vec<usize> = Vec::new();
        let mut k: usize = 0;
        while k < tokens.len()
            invariant
                k <= tokens@.len(),
                lens@.len() == tokens@.len(),
                order@.len() == k,
                forall|i: int| 0 <= i < order@.len() ==> #[trigger] order@[i] < k,
                forall|i: int, j: int|
                    0 <= i < j < order@.len() ==> lens@[#[trigger] order@[i] as int] > lens@[
                        #[trigger] order@[j] as int] || (lens@[order@[i] as int] == lens@[order@[j] as int]
                        && order@[i] < order@[j]),
            decreases tokens@.len() - k,
        {
            // The first position whose token is shorter than token `k`
            let mut p: usize = 0;
            while p < order.len() && lens[order[p]] >= lens[k]
                invariant
                    p <= order@.len(),
                    k < lens@.len(),
                    forall|i: int| 0 <= i < order@.len() ==> #[trigger] order@[i] < k,
                    forall|i: int| 0 <= i < p ==> lens@[#[trigger] order@[i] as int] >= lens@[k as int],
                decreases order@.len() - p,
            {
                p = p + 1;
            }
            let ghost before = order@;
            order.insert(p, k);
            proof {
                assert forall|i: int, j: int|
                    0 <= i < j < order@.len() implies lens@[#[trigger] order@[i] as int] > lens@[
                        #[trigger] order@[j] as int] || (lens@[order@[i] as int] == lens@[order@[j] as int]
                        && order@[i] < order@[j]) by {
                    if j < p {
                        assert(order@[i] == before[i] && order@[j] == before[j]);
                    } else if j == p {
                        assert(order@[i] == before[i]);
                    } else if i == p {
                        assert(order@[j] == before[j - 1]);
                        // Every later token is shorter than token `k`, as the earlier ones of
                        // `before[p..]` are
                        if p < before.len() {
                            assert(lens@[before[p as int] as int] < lens@[k as int]);
                            if j - 1 > p {
                                assert(lens@[before[p as int] as int] > lens@[before[j - 1] as int] || (
                                lens@[before[p as int] as int] == lens@[before[j - 1] as int]
                                    && before[p as int] < before[j - 1]));
                            }
                        }
                    } else if i < p {
                        assert(order@[i] == before[i] && order@[j] == before[j - 1]);
                    } else {
                        assert(order@[i] == before[i - 1] && order@[j] == before[j - 1]);
                    }
                }
            }
            k = k + 1;
        }
        // List the tokens in that order
        let mut static_tokens_decreasing: Vec<(String, TokenId)> = Vec::new();
        let mut i: usize = 0;
        while i < order.len()
            invariant
                i <= order@.len(),
                order@.len() == tokens@.len(),
                lens@.len() == tokens@.len(),
                forall|j: int| 0 <= j < tokens@.len() ==> lens@[j] == byte_len(#[trigger] tokens@[j].spec_text()),
                forall|j: int| 0 <= j < order@.len() ==> #[trigger] order@[j] < tokens@.len(),
                static_tokens_decreasing@.len() == i,
                forall|j: int|
                    0 <= j < i ==> #[trigger] entry_views(static_tokens_decreasing@)[j] == (
                        tokens@[order@[j] as int].spec_text(),
                        TokenId(order@[j]),
                    ),
            decreases order@.len() - i,
        {
            let id = order[i];
            let text = tokens[id].text().to_owned();
            let ghost prev = static_tokens_decreasing@;
            static_tokens_decreasing.push((text, TokenId(id)));
            proof {
                assert forall|j: int| 0 <= j < i + 1 implies #[trigger] entry_views(
                    static_tokens_decreasing@,
                )[j] == (tokens@[order@[j] as int].spec_text(), TokenId(order@[j])) by {
                    assert(entry_views(static_tokens_decreasing@)[j] == (
                    static_tokens_decreasing@[j].0@, static_tokens_decreasing@[j].1));
                    if j < i {
                        assert(static_tokens_decreasing@[j] == prev[j]);
                        assert(entry_views(prev)[j] == (prev[j].0@, prev[j].1));
                    }
                    if j == i {
                        assert(static_tokens_decreasing@[j].1 == TokenId(id));
                        assert(static_tokens_decreasing@[j].0@ == tokens@[id as int].spec_text());
                    }
                }
            }
            i = i + 1;
        }
        let g = Self { root_type, whitespace, types, tokens, static_tokens_decreasing };
        proof {
            let e = g.spec_static_tokens_decreasing();
            assert(e.len() == tokens@.len());
            assert forall|a: int, b: int| 0 <= a < b < e.len() implies (byte_len(#[trigger] e[a].0) > byte_len(
                #[trigger] e[b].0,
            ) || (byte_len(e[a].0) == byte_len(e[b].0) && e[a].1.0 < e[b].1.0)) by {
                assert(e[a] == (g.tokens@[order@[a] as int].spec_text(), TokenId(order@[a])));
                assert(e[b] == (g.tokens@[order@[b] as int].spec_text(), TokenId(order@[b])));
            }
            assert(g.tokens@ == tokens@);
            assert forall|i: int| 0 <= i < e.len() implies (#[trigger] e[i]).1.0 < tokens@.len()
                && e[i].0 == tokens@[e[i].1.0 as int].spec_text() by {
                assert(e[i] == (tokens@[order@[i] as int].spec_text(), TokenId(order@[i])));
            }
            assert forall|i: int, j: int| 0 <= i < j < e.len() implies (#[trigger] e[i]).1 != (
            #[trigger] e[j]).1 by {
                assert(e[i] == (g.tokens@[order@[i] as int].spec_text(), TokenId(order@[i])));
                assert(e[j] == (g.tokens@[order@[j] as int].spec_text(), TokenId(order@[j])));
            }
            assert(lists_all_tokens(e, tokens@));
        }
        g
    }

    /// The root type of the grammar.
    pub fn root_type(&self) -> (t: TypeId)
        ensures
            t == self.spec_root_type(),
    {
        self.root_type
    }

    /// The type of nodes `id`.
    pub fn get_type(&self, id: TypeId) -> (t: &Type)
        requires
            id.0 < self.spec_types().len(),
        ensures
            *t == self.spec_types()[id.0 as int],
    {
        &self.types[id.0]
    }

    /// The name of the type of nodes `id`.
    pub fn get_type_name(&self, id: TypeId) -> (s: &str)
        requires
            id.0 < self.spec_types().len(),
        ensures
            s@ == self.spec_types()[id.0 as int].name@,
    {
        self.types[id.0].name.as_str()
    }

    /// The types of nodes of the grammar, indexed by their ids.
    pub fn types(&self) -> (t: &Vec<Type>)
        ensures
            t@ == self.spec_types(),
    {
        &self.types
    }

    /// The static tokens of the grammar.
    pub fn tokens(&self) -> (t: &Vec<Token>)
        ensures
            t@ == self.spec_tokens(),
    {
        &self.tokens
    }

    /// The number of static tokens of the grammar.
    pub fn num_tokens(&self) -> (n: usize)
        ensures
            n == self.spec_tokens().len(),
    {
        self.tokens.len()
    }

    /// The text of the token `id`.
    pub fn token_text(&self, id: TokenId) -> (s: &str)
        requires
            id.0 < self.spec_tokens().len(),
        ensures
            s@ == self.spec_tokens()[id.0 as int].spec_text(),
    {
        self.tokens[id.0].text()
    }

    /// The whitespace of the grammar.
    pub fn whitespace(&self) -> (w: &Whitespace)
        ensures
            *w == self.spec_whitespace(),
    {
        &self.whitespace
    }

    /// Returns the static tokens in `self`, in decreasing order of length
    pub fn static_tokens_decreasing(&self) -> (s: &Vec<(String, TokenId)>)
        ensures
            entry_views(s@) == self.spec_static_tokens_decreasing(),
    {
        &self.static_tokens_decreasing
    }
}

} // verus!
