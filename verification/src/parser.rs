//! Parsing token streams into syntax trees according to a grammar.
//!
//! Parsing tries the types into which a type bound converts in their order of precedence, and
//! backtracks on failure, so the first type that parses wins.  Nested type bounds use up one
//! unit of a given amount of fuel each: a grammar with left recursion would otherwise nest
//! forever.

use std::rc::Rc;

use vstd::prelude::*;

use crate::grammar::{lists_all_tokens, regex_first_match, Grammar, PatternElement, Stringy, Token, TokenId, Type, TypeId, TypeInner};
use crate::syntax::{lemma_node_text_view, elems_view_text, lemma_elems_view_text_concat, lemma_elems_view_text_single, view_text, ElemView, Node, NodeBuilder, NodeView};
use crate::tokenizer::str_iter::{chars_in_bytes, find_from, lemma_encode_split, lemma_find_from_bounds, StrIter};
use crate::tokenizer::{
    eats_stringy, is_leading_run, is_stringy_supported, law_tokens_cover_the_text, lemma_longest_match, longest_match, lemma_eats_stringy_forward, outcomes_consistent, selects, stringy_supported, stringy_types_in, valid_outcomes, ParsedToken,
    TokenizeError, Tokenizer,
};

verus! {

/// The ways that parsing can fail.
#[derive(Debug, Clone)]
pub enum ParseError {
    /// The string could not be split into tokens
    Tokenize(TokenizeError),
    /// The tokens do not make up a node of the type asked for
    Parse,
}

/// Where parsing a node whose type is one that `bound` converts into ends, starting at token
/// `pos`, and that type: its parseable descendants are tried in order, and the first that
/// parses wins.
pub open spec fn bound_end(types: Seq<Type>, bound: TypeId, toks: Seq<ParsedToken>, pos: int, fuel: nat) -> Option<(TypeId, int)>
    decreases fuel, 3int, Seq::<PatternElement>::empty(), 0int, 0int,
{
    if bound.0 >= types.len() {
        None
    } else {
        descendants_end(types, types[bound.0 as int].parseable_descendants@, 0, toks, pos, fuel)
    }
}

/// Where parsing a node of the first type of `ds[k..]` that parses ends, and that type.
pub open spec fn descendants_end(types: Seq<Type>, ds: Seq<TypeId>, k: int, toks: Seq<ParsedToken>, pos: int, fuel: nat) -> Option<(TypeId, int)>
    decreases fuel, 2int, Seq::<PatternElement>::empty(), 0int, ds.len() - k,
{
    if k < 0 || k >= ds.len() {
        None
    } else {
        match concrete_end(types, ds[k], toks, pos, fuel) {
            Some(e) => Some((ds[k], e)),
            None => descendants_end(types, ds, k + 1, toks, pos, fuel),
        }
    }
}

/// Where parsing a node of the type `id` ends: a pattern type parses its pattern, a stringy
/// type takes one stringy token of its own type, and a container does not parse.
pub open spec fn concrete_end(types: Seq<Type>, id: TypeId, toks: Seq<ParsedToken>, pos: int, fuel: nat) -> Option<int>
    decreases fuel, 1int, Seq::<PatternElement>::empty(), 0int, 0int,
{
    if id.0 >= types.len() {
        None
    } else {
        match types[id.0 as int].inner {
            TypeInner::Container => None,
            TypeInner::Pattern(p) => pattern_end(types, p@, 0, toks, pos, fuel),
            TypeInner::Stringy(_) => if 0 <= pos < toks.len() && (toks[pos] matches ParsedToken::Stringy(t, _) && t == id) {
                Some(pos + 1)
            } else {
                None
            },
        }
    }
}

/// Where parsing the elements `pat[i..]` of a pattern ends: a token takes a static token that
/// is that token, a type bound takes a node (using up one unit of fuel), and a sequence takes
/// repeats of its pattern separated by its delimiter.
pub open spec fn pattern_end(types: Seq<Type>, pat: Seq<PatternElement>, i: int, toks: Seq<ParsedToken>, pos: int, fuel: nat) -> Option<int>
    decreases fuel, 0int, pat, 0int, pat.len() - i,
{
    if i < 0 || i >= pat.len() {
        Some(pos)
    } else {
        match pat[i] {
            PatternElement::Token(t) => if 0 <= pos < toks.len() && (toks[pos] matches ParsedToken::Static(x) && x == t) {
                pattern_end(types, pat, i + 1, toks, pos + 1, fuel)
            } else {
                None
            },
            PatternElement::Type(b) => if fuel == 0 {
                None
            } else {
                match bound_end(types, b, toks, pos, (fuel - 1) as nat) {
                    Some((_, e)) => pattern_end(types, pat, i + 1, toks, e, fuel),
                    None => None,
                }
            },
            PatternElement::Sequence { pattern, delimiter } => {
                proof {
                    assert(decreases_to!(pat => pat[i]));
                }
                match seq_end(types, pattern@, delimiter, toks, pos, fuel) {
                    Some(e) => pattern_end(types, pat, i + 1, toks, e, fuel),
                    None => None,
                }
            },
        }
    }
}

/// Where parsing repeats of the pattern `pat`, separated by the static token `delim`, ends:
/// after each repeat, a following delimiter is taken and another repeat parsed.
pub open spec fn seq_end(types: Seq<Type>, pat: Seq<PatternElement>, delim: TokenId, toks: Seq<ParsedToken>, pos: int, fuel: nat) -> Option<int>
    decreases fuel, 0int, pat, toks.len() - pos + 2, 0int,
{
    if pos < 0 || pos > toks.len() {
        None
    } else {
        match pattern_end(types, pat, 0, toks, pos, fuel) {
            None => None,
            Some(e) => if e < pos || e > toks.len() {
                None
            } else if e < toks.len() && (toks[e] matches ParsedToken::Static(d) && d == delim) {
                seq_end(types, pat, delim, toks, e + 1, fuel)
            } else {
                Some(e)
            },
        }
    }
}

/// The node that [`parse_type_bound`] builds from token `pos` for the type bound `bound`,
/// where [`bound_end`] says that one parses: that of the first parseable descendant that
/// parses.
pub open spec fn bound_node(types: Seq<Type>, bound: TypeId, tokens: Seq<(ParsedToken, &str)>, pos: int, fuel: nat) -> NodeView
    decreases fuel, 3int, Seq::<PatternElement>::empty(), 0int, 0int,
{
    if bound.0 >= types.len() {
        no_node()
    } else {
        descendants_node(types, types[bound.0 as int].parseable_descendants@, 0, tokens, pos, fuel)
    }
}

/// The node of the first type of `ds[k..]` that parses from token `pos`.
pub open spec fn descendants_node(types: Seq<Type>, ds: Seq<TypeId>, k: int, tokens: Seq<(ParsedToken, &str)>, pos: int, fuel: nat) -> NodeView
    decreases fuel, 2int, Seq::<PatternElement>::empty(), 0int, ds.len() - k,
{
    if k < 0 || k >= ds.len() {
        no_node()
    } else {
        match concrete_end(types, ds[k], token_kinds(tokens), pos, fuel) {
            Some(_) => concrete_node(types, ds[k], tokens, pos, fuel),
            None => descendants_node(types, ds, k + 1, tokens, pos, fuel),
        }
    }
}

/// The node of the type `id` that parses from token `pos`: a tree node of that type with the
/// elements of its pattern, or a stringy node with the contents of the token, displayed
/// between the delimiters of the type, and the whitespace after the token.
pub open spec fn concrete_node(types: Seq<Type>, id: TypeId, tokens: Seq<(ParsedToken, &str)>, pos: int, fuel: nat) -> NodeView
    decreases fuel, 1int, Seq::<PatternElement>::empty(), 0int, 0int,
{
    if id.0 >= types.len() {
        no_node()
    } else {
        match types[id.0 as int].inner {
            TypeInner::Pattern(p) => NodeView::Tree { type_id: id, elems: pattern_elems(types, p@, 0, tokens, pos, fuel) },
            TypeInner::Stringy(st) => match tokens[pos].0 {
                ParsedToken::Stringy(_, c) => NodeView::Stringy {
                    type_id: id,
                    contents: c@,
                    display: st.delim_start@ + c@ + st.delim_end@,
                    ws: tokens[pos].1@,
                },
                ParsedToken::Static(_) => no_node(),
            },
            TypeInner::Container => no_node(),
        }
    }
}

/// The elements that parsing `pat[i..]` from token `pos` adds to a node: each static token
/// with the whitespace after it, each sub-node with its type bound, and each sequence between
/// its start and end marks.
pub open spec fn pattern_elems(types: Seq<Type>, pat: Seq<PatternElement>, i: int, tokens: Seq<(ParsedToken, &str)>, pos: int, fuel: nat) -> Seq<ElemView>
    decreases fuel, 0int, pat, 0int, pat.len() - i,
{
    if i < 0 || i >= pat.len() {
        Seq::empty()
    } else {
        match pat[i] {
            PatternElement::Token(t) => seq![ElemView::Token { token: t, ws: tokens[pos].1@ }] + pattern_elems(
                types,
                pat,
                i + 1,
                tokens,
                pos + 1,
                fuel,
            ),
            PatternElement::Type(b) => if fuel == 0 {
                Seq::empty()
            } else {
                match bound_end(types, b, token_kinds(tokens), pos, (fuel - 1) as nat) {
                    Some((_, e)) => seq![ElemView::Node { type_bound: b, node: Box::new(bound_node(types, b, tokens, pos, (fuel - 1) as nat)) }]
                        + pattern_elems(types, pat, i + 1, tokens, e, fuel),
                    None => Seq::empty(),
                }
            },
            PatternElement::Sequence { pattern, delimiter } => {
                proof {
                    assert(decreases_to!(pat => pat[i]));
                }
                match seq_end(types, pattern@, delimiter, token_kinds(tokens), pos, fuel) {
                    Some(e) => seq![ElemView::SeqStart] + seq_body(types, pattern@, delimiter, tokens, pos, fuel)
                        + seq![ElemView::SeqEnd] + pattern_elems(types, pat, i + 1, tokens, e, fuel),
                    None => Seq::empty(),
                }
            },
        }
    }
}

/// The elements of the repeats of `pat` from token `pos` and of the delimiters between them.
pub open spec fn seq_body(types: Seq<Type>, pat: Seq<PatternElement>, delim: TokenId, tokens: Seq<(ParsedToken, &str)>, pos: int, fuel: nat) -> Seq<ElemView>
    decreases fuel, 0int, pat, tokens.len() - pos + 2, 0int,
{
    if pos < 0 || pos > tokens.len() {
        Seq::empty()
    } else {
        match pattern_end(types, pat, 0, token_kinds(tokens), pos, fuel) {
            None => Seq::empty(),
            Some(e) => if e < pos || e > tokens.len() {
                Seq::empty()
            } else if e < tokens.len() && (tokens[e].0 matches ParsedToken::Static(d) && d == delim) {
                pattern_elems(types, pat, 0, tokens, pos, fuel) + seq![ElemView::SeqDelim(delim, tokens[e].1@)]
                    + seq_body(types, pat, delim, tokens, e + 1, fuel)
            } else {
                pattern_elems(types, pat, 0, tokens, pos, fuel)
            },
        }
    }
}

/// The node that stands where no node parses.
pub open spec fn no_node() -> NodeView {
    NodeView::Tree { type_id: TypeId(0), elems: Seq::empty() }
}

/// The text of a token read with the whitespace after it, as a tree displays it: a static
/// token's text, or a stringy token's contents between the delimiters of its type.
pub open spec fn token_source(types: Seq<Type>, tokens: Seq<Token>, t: (ParsedToken, &str)) -> Seq<char> {
    match t.0 {
        ParsedToken::Static(id) => tokens[id.0 as int].spec_text() + t.1@,
        ParsedToken::Stringy(id, c) => match types[id.0 as int].inner {
            TypeInner::Stringy(st) => st.delim_start@ + c@ + st.delim_end@ + t.1@,
            _ => c@ + t.1@,
        },
    }
}

/// The texts of the tokens `toks[from..to]`, one after the other (see [`token_source`]).
pub open spec fn tokens_source(types: Seq<Type>, tokens: Seq<Token>, toks: Seq<(ParsedToken, &str)>, from: int, to: int) -> Seq<char>
    decreases to - from,
{
    if to <= from {
        Seq::empty()
    } else {
        tokens_source(types, tokens, toks, from, to - 1) + token_source(types, tokens, toks[to - 1])
    }
}

proof fn lemma_tokens_source_split(types: Seq<Type>, tokens: Seq<Token>, toks: Seq<(ParsedToken, &str)>, a: int, b: int, c: int)
    requires
        a <= b <= c,
    ensures
        tokens_source(types, tokens, toks, a, c) == tokens_source(types, tokens, toks, a, b) + tokens_source(
            types,
            tokens,
            toks,
            b,
            c,
        ),
    decreases c - b,
{
    if c > b {
        lemma_tokens_source_split(types, tokens, toks, a, b, c - 1);
    } else {
        assert(tokens_source(types, tokens, toks, b, c) =~= Seq::<char>::empty());
    }
}

/// The text of the node that parses from token `pos` for a type bound is the text of the
/// tokens it takes.
proof fn lemma_bound_text(types: Seq<Type>, tokens: Seq<Token>, b: TypeId, toks: Seq<(ParsedToken, &str)>, pos: int, fuel: nat)
    requires
        0 <= pos <= toks.len(),
        bound_end(types, b, token_kinds(toks), pos, fuel) is Some,
    ensures
        ({
            let e = bound_end(types, b, token_kinds(toks), pos, fuel)->Some_0.1;
            &&& pos <= e <= toks.len()
            &&& view_text(bound_node(types, b, toks, pos, fuel), tokens) == tokens_source(types, tokens, toks, pos, e)
        }),
    decreases fuel, 3int, Seq::<PatternElement>::empty(), 0int, 0int,
{
    lemma_descendants_text(types, tokens, types[b.0 as int].parseable_descendants@, 0, toks, pos, fuel);
}

proof fn lemma_descendants_text(
    types: Seq<Type>,
    tokens: Seq<Token>,
    ds: Seq<TypeId>,
    k: int,
    toks: Seq<(ParsedToken, &str)>,
    pos: int,
    fuel: nat,
)
    requires
        0 <= pos <= toks.len(),
        descendants_end(types, ds, k, token_kinds(toks), pos, fuel) is Some,
    ensures
        ({
            let e = descendants_end(types, ds, k, token_kinds(toks), pos, fuel)->Some_0.1;
            &&& pos <= e <= toks.len()
            &&& view_text(descendants_node(types, ds, k, toks, pos, fuel), tokens) == tokens_source(types, tokens, toks, pos, e)
        }),
    decreases fuel, 2int, Seq::<PatternElement>::empty(), 0int, ds.len() - k,
{
    if concrete_end(types, ds[k], token_kinds(toks), pos, fuel) is Some {
        lemma_concrete_text(types, tokens, ds[k], toks, pos, fuel);
    } else {
        lemma_descendants_text(types, tokens, ds, k + 1, toks, pos, fuel);
    }
}

proof fn lemma_concrete_text(types: Seq<Type>, tokens: Seq<Token>, id: TypeId, toks: Seq<(ParsedToken, &str)>, pos: int, fuel: nat)
    requires
        0 <= pos <= toks.len(),
        concrete_end(types, id, token_kinds(toks), pos, fuel) is Some,
    ensures
        ({
            let e = concrete_end(types, id, token_kinds(toks), pos, fuel)->Some_0;
            &&& pos <= e <= toks.len()
            &&& view_text(concrete_node(types, id, toks, pos, fuel), tokens) == tokens_source(types, tokens, toks, pos, e)
        }),
    decreases fuel, 1int, Seq::<PatternElement>::empty(), 0int, 0int,
{
    match types[id.0 as int].inner {
        TypeInner::Pattern(p) => {
            lemma_pattern_text(types, tokens, p@, 0, toks, pos, fuel);
        },
        TypeInner::Stringy(st) => {
            assert(token_kinds(toks)[pos] == toks[pos].0);
            assert(tokens_source(types, tokens, toks, pos, pos) =~= Seq::<char>::empty());
            assert(view_text(concrete_node(types, id, toks, pos, fuel), tokens) =~= tokens_source(
                types,
                tokens,
                toks,
                pos,
                pos + 1,
            ));
        },
        TypeInner::Container => {},
    }
}

proof fn lemma_pattern_text(
    types: Seq<Type>,
    tokens: Seq<Token>,
    pat: Seq<PatternElement>,
    i: int,
    toks: Seq<(ParsedToken, &str)>,
    pos: int,
    fuel: nat,
)
    requires
        0 <= pos <= toks.len(),
        pattern_end(types, pat, i, token_kinds(toks), pos, fuel) is Some,
    ensures
        ({
            let e = pattern_end(types, pat, i, token_kinds(toks), pos, fuel)->Some_0;
            &&& pos <= e <= toks.len()
            &&& elems_view_text(pattern_elems(types, pat, i, toks, pos, fuel), tokens) == tokens_source(
                types,
                tokens,
                toks,
                pos,
                e,
            )
        }),
    decreases fuel, 0int, pat, 0int, pat.len() - i,
{
    let kinds = token_kinds(toks);
    if i < 0 || i >= pat.len() {
        assert(elems_view_text(Seq::<ElemView>::empty(), tokens) =~= Seq::<char>::empty());
        assert(tokens_source(types, tokens, toks, pos, pos) =~= Seq::<char>::empty());
    } else {
        let e = pattern_end(types, pat, i, kinds, pos, fuel)->Some_0;
        match pat[i] {
            PatternElement::Token(t) => {
                assert(kinds[pos] == toks[pos].0);
                lemma_pattern_text(types, tokens, pat, i + 1, toks, pos + 1, fuel);
                let first = seq![ElemView::Token { token: t, ws: toks[pos].1@ }];
                let rest = pattern_elems(types, pat, i + 1, toks, pos + 1, fuel);
                lemma_elems_view_text_concat(first, rest, tokens);
                lemma_elems_view_text_single(ElemView::Token { token: t, ws: toks[pos].1@ }, tokens);
                assert(elems_view_text(first, tokens) == token_source(types, tokens, toks[pos]));
                lemma_tokens_source_split(types, tokens, toks, pos, pos + 1, e);
                assert(tokens_source(types, tokens, toks, pos, pos) =~= Seq::<char>::empty());
            },
            PatternElement::Type(b) => {
                let e1 = bound_end(types, b, kinds, pos, (fuel - 1) as nat)->Some_0.1;
                lemma_bound_text(types, tokens, b, toks, pos, (fuel - 1) as nat);
                lemma_pattern_text(types, tokens, pat, i + 1, toks, e1, fuel);
                let el = ElemView::Node { type_bound: b, node: Box::new(bound_node(types, b, toks, pos, (fuel - 1) as nat)) };
                let first = seq![el];
                let rest = pattern_elems(types, pat, i + 1, toks, e1, fuel);
                lemma_elems_view_text_concat(first, rest, tokens);
                lemma_elems_view_text_single(el, tokens);
                lemma_tokens_source_split(types, tokens, toks, pos, e1, e);
            },
            PatternElement::Sequence { pattern, delimiter } => {
                assert(decreases_to!(pat => pat[i]));
                let e1 = seq_end(types, pattern@, delimiter, kinds, pos, fuel)->Some_0;
                lemma_seq_text(types, tokens, pattern@, delimiter, toks, pos, fuel);
                lemma_pattern_text(types, tokens, pat, i + 1, toks, e1, fuel);
                let body = seq_body(types, pattern@, delimiter, toks, pos, fuel);
                let rest = pattern_elems(types, pat, i + 1, toks, e1, fuel);
                let st = seq![ElemView::SeqStart];
                let en = seq![ElemView::SeqEnd];
                lemma_elems_view_text_concat(st, body, tokens);
                lemma_elems_view_text_concat(st + body, en, tokens);
                lemma_elems_view_text_concat(st + body + en, rest, tokens);
                lemma_elems_view_text_single(ElemView::SeqStart, tokens);
                lemma_elems_view_text_single(ElemView::SeqEnd, tokens);
                lemma_tokens_source_split(types, tokens, toks, pos, e1, e);
                assert(elems_view_text(pattern_elems(types, pat, i, toks, pos, fuel), tokens) =~= tokens_source(
                    types,
                    tokens,
                    toks,
                    pos,
                    e,
                ));
            },
        }
    }
}

proof fn lemma_seq_text(
    types: Seq<Type>,
    tokens: Seq<Token>,
    pat: Seq<PatternElement>,
    delim: TokenId,
    toks: Seq<(ParsedToken, &str)>,
    pos: int,
    fuel: nat,
)
    requires
        0 <= pos <= toks.len(),
        seq_end(types, pat, delim, token_kinds(toks), pos, fuel) is Some,
    ensures
        ({
            let e = seq_end(types, pat, delim, token_kinds(toks), pos, fuel)->Some_0;
            &&& pos <= e <= toks.len()
            &&& elems_view_text(seq_body(types, pat, delim, toks, pos, fuel), tokens) == tokens_source(
                types,
                tokens,
                toks,
                pos,
                e,
            )
        }),
    decreases fuel, 0int, pat, toks.len() - pos + 2, 0int,
{
    let kinds = token_kinds(toks);
    let e1 = pattern_end(types, pat, 0, kinds, pos, fuel)->Some_0;
    lemma_pattern_text(types, tokens, pat, 0, toks, pos, fuel);
    let pe = pattern_elems(types, pat, 0, toks, pos, fuel);
    if e1 < toks.len() && (toks[e1].0 matches ParsedToken::Static(d) && d == delim) {
        assert(kinds[e1] == toks[e1].0);
        let e = seq_end(types, pat, delim, kinds, e1 + 1, fuel)->Some_0;
        lemma_seq_text(types, tokens, pat, delim, toks, e1 + 1, fuel);
        let dl = seq![ElemView::SeqDelim(delim, toks[e1].1@)];
        let rest = seq_body(types, pat, delim, toks, e1 + 1, fuel);
        lemma_elems_view_text_concat(pe, dl, tokens);
        lemma_elems_view_text_concat(pe + dl, rest, tokens);
        lemma_elems_view_text_single(ElemView::SeqDelim(delim, toks[e1].1@), tokens);
        assert(elems_view_text(dl, tokens) == token_source(types, tokens, toks[e1]));
        lemma_tokens_source_split(types, tokens, toks, pos, e1, e1 + 1);
        lemma_tokens_source_split(types, tokens, toks, pos, e1 + 1, e);
        assert(tokens_source(types, tokens, toks, e1, e1) =~= Seq::<char>::empty());
    } else {
        if e1 < toks.len() {
            assert(kinds[e1] == toks[e1].0);
        }
    }
}

/// The type of the node whose value is `n`.
pub open spec fn node_type(n: NodeView) -> TypeId {
    match n {
        NodeView::Tree { type_id, .. } => type_id,
        NodeView::Stringy { type_id, .. } => type_id,
    }
}

/// The node that parses for a type bound is of the type that parsing found, one of the
/// parseable descendants of the bound: a node's type is never lost or replaced.
pub proof fn law_parsed_node_has_its_type(types: Seq<Type>, b: TypeId, toks: Seq<(ParsedToken, &str)>, pos: int, fuel: nat)
    requires
        bound_end(types, b, token_kinds(toks), pos, fuel) is Some,
    ensures
        ({
            let t = bound_end(types, b, token_kinds(toks), pos, fuel)->Some_0.0;
            &&& node_type(bound_node(types, b, toks, pos, fuel)) == t
            &&& types[b.0 as int].parseable_descendants@.contains(t)
        }),
{
    lemma_descendants_type(types, types[b.0 as int].parseable_descendants@, 0, toks, pos, fuel);
}

proof fn lemma_descendants_type(types: Seq<Type>, ds: Seq<TypeId>, k: int, toks: Seq<(ParsedToken, &str)>, pos: int, fuel: nat)
    requires
        descendants_end(types, ds, k, token_kinds(toks), pos, fuel) is Some,
    ensures
        ({
            let t = descendants_end(types, ds, k, token_kinds(toks), pos, fuel)->Some_0.0;
            &&& node_type(descendants_node(types, ds, k, toks, pos, fuel)) == t
            &&& ds.contains(t)
        }),
    decreases ds.len() - k,
{
    if concrete_end(types, ds[k], token_kinds(toks), pos, fuel) is Some {
        let id = ds[k];
        assert(descendants_node(types, ds, k, toks, pos, fuel) == concrete_node(types, id, toks, pos, fuel));
        match types[id.0 as int].inner {
            TypeInner::Stringy(_) => {
                assert(token_kinds(toks)[pos] == toks[pos].0);
                assert(toks[pos].0 is Stringy);
            },
            _ => {},
        }
        assert(node_type(concrete_node(types, id, toks, pos, fuel)) == id);
        assert(ds.contains(ds[k]));
    } else {
        lemma_descendants_type(types, ds, k + 1, toks, pos, fuel);
    }
}

/// The kinds of a list of tokens read with the whitespace after them.
pub open spec fn token_kinds(tokens: Seq<(ParsedToken, &str)>) -> Seq<ParsedToken> {
    tokens.map_values(|t: (ParsedToken, &str)| t.0)
}

/// Parses a node whose type is one that `type_bound` converts into, from token `pos`; returns
/// it with the position after it (see [`bound_end`]).
#[verifier::loop_isolation(false)]
pub fn parse_type_bound(
    grammar: &Grammar,
    type_bound: TypeId,
    tokens: &Vec<(ParsedToken, &str)>,
    pos: usize,
    fuel: usize,
) -> (r: Option<(Node, usize)>)
    requires
        pos <= tokens@.len(),
    ensures
        match bound_end(grammar.spec_types(), type_bound, token_kinds(tokens@), pos as int, fuel as nat) {
            Some((_, e)) => r matches Some((_, p)) && p == e,
            None => r is None,
        },
        r matches Some((_, p)) ==> pos <= p <= tokens@.len(),
        r matches Some((n, _)) ==> n@ == bound_node(grammar.spec_types(), type_bound, tokens@, pos as int, fuel as nat),
    decreases fuel, 3int, Seq::<PatternElement>::empty(), 0int, 0int,
{
    let ghost toks = token_kinds(tokens@);
    let types = grammar.types();
    if type_bound.0 >= types.len() {
        return None;
    }
    let descendants = &types[type_bound.0].parseable_descendants;
    // Try to parse each descendant type, each from the same start
    let mut k: usize = 0;
    while k < descendants.len()
        invariant
            k <= descendants@.len(),
            pos <= tokens@.len(),
            toks == token_kinds(tokens@),
            types@ == grammar.spec_types(),
            descendants_end(types@, descendants@, 0, toks, pos as int, fuel as nat) == descendants_end(
                types@,
                descendants@,
                k as int,
                toks,
                pos as int,
                fuel as nat,
            ),
            descendants_node(types@, descendants@, 0, tokens@, pos as int, fuel as nat) == descendants_node(
                types@,
                descendants@,
                k as int,
                tokens@,
                pos as int,
                fuel as nat,
            ),
        decreases descendants@.len() - k,
    {
        match parse_concrete_type(grammar, descendants[k], tokens, pos, fuel) {
            Some(parsed) => {
                return Some(parsed);
            },
            None => {},
        }
        k = k + 1;
    }
    None
}

/// Parses a node of the type `id` from token `pos`; returns it with the position after it
/// (see [`concrete_end`]).  A stringy node displays its contents between the delimiters of its
/// type.
pub fn parse_concrete_type(
    grammar: &Grammar,
    id: TypeId,
    tokens: &Vec<(ParsedToken, &str)>,
    pos: usize,
    fuel: usize,
) -> (r: Option<(Node, usize)>)
    requires
        pos <= tokens@.len(),
    ensures
        match concrete_end(grammar.spec_types(), id, token_kinds(tokens@), pos as int, fuel as nat) {
            Some(e) => r matches Some((_, p)) && p == e,
            None => r is None,
        },
        r matches Some((_, p)) ==> pos <= p <= tokens@.len(),
        r matches Some((n, _)) ==> n@ == concrete_node(grammar.spec_types(), id, tokens@, pos as int, fuel as nat),
    decreases fuel, 1int, Seq::<PatternElement>::empty(), 0int, 0int,
{
    let types = grammar.types();
    if id.0 >= types.len() {
        return None;
    }
    match &types[id.0].inner {
        // Containers can't be parsed as concrete types
        TypeInner::Container => None,
        TypeInner::Pattern(pat) => {
            let mut bdr = NodeBuilder::new(id);
            match parse_pattern(grammar, &mut bdr, pat, tokens, pos, fuel) {
                Some(end) => {
                    proof {
                        assert(bdr.built() =~= pattern_elems(types@, pat@, 0, tokens@, pos as int, fuel as nat));
                    }
                    Some((bdr.into_node(), end))
                },
                None => None,
            }
        },
        TypeInner::Stringy(stringy) => {
            if pos < tokens.len() {
                proof {
                    assert(token_kinds(tokens@)[pos as int] == tokens@[pos as int].0);
                }
                match &tokens[pos].0 {
                    ParsedToken::Stringy(token_type, contents) => {
                        if *token_type == id {
                            let display_str = stringy.create_display_string(contents.as_str());
                            let node = Node::new_stringy(id, contents.clone(), display_str, tokens[pos].1);
                            Some((node, pos + 1))
                        } else {
                            None
                        }
                    },
                    ParsedToken::Static(_) => None,
                }
            } else {
                None
            }
        },
    }
}

/// Parses the elements of a pattern from token `pos` into `bdr`; returns the position after
/// them (see [`pattern_end`]).
#[verifier::loop_isolation(false)]
pub fn parse_pattern(
    grammar: &Grammar,
    bdr: &mut NodeBuilder,
    pat: &Vec<PatternElement>,
    tokens: &Vec<(ParsedToken, &str)>,
    pos: usize,
    fuel: usize,
) -> (r: Option<usize>)
    requires
        pos <= tokens@.len(),
    ensures
        final(bdr).spec_type_id() == old(bdr).spec_type_id(),
        match pattern_end(grammar.spec_types(), pat@, 0, token_kinds(tokens@), pos as int, fuel as nat) {
            Some(e) => r matches Some(p) && p == e,
            None => r is None,
        },
        r matches Some(p) ==> pos <= p <= tokens@.len(),
        r is Some ==> final(bdr).built() == old(bdr).built() + pattern_elems(
            grammar.spec_types(),
            pat@,
            0,
            tokens@,
            pos as int,
            fuel as nat,
        ),
    decreases fuel, 0int, pat@, 0int, 0int,
{
    let ghost toks = token_kinds(tokens@);
    let ghost types = grammar.spec_types();
    let ghost pos0 = pos;
    let mut pos = pos;
    let mut i: usize = 0;
    while i < pat.len()
        invariant
            i <= pat@.len(),
            pos0 <= pos <= tokens@.len(),
            toks == token_kinds(tokens@),
            types == grammar.spec_types(),
            bdr.spec_type_id() == old(bdr).spec_type_id(),
            pattern_end(types, pat@, 0, toks, pos0 as int, fuel as nat) == pattern_end(
                types,
                pat@,
                i as int,
                toks,
                pos as int,
                fuel as nat,
            ),
            bdr.built() + pattern_elems(types, pat@, i as int, tokens@, pos as int, fuel as nat) == old(bdr).built()
                + pattern_elems(types, pat@, 0, tokens@, pos0 as int, fuel as nat),
        decreases pat@.len() - i,
    {
        match &pat[i] {
            // A static token must be the next token
            PatternElement::Token(expected) => {
                if pos >= tokens.len() {
                    return None;
                }
                match &tokens[pos].0 {
                    ParsedToken::Static(token_id) => {
                        if *token_id != *expected {
                            return None;
                        }
                        bdr.add_token(*token_id, tokens[pos].1);
                        pos = pos + 1;
                    },
                    ParsedToken::Stringy(..) => {
                        return None;
                    },
                }
            },
            // A type bound takes a node of a type it converts into
            PatternElement::Type(type_bound) => {
                if fuel == 0 {
                    return None;
                }
                match parse_type_bound(grammar, *type_bound, tokens, pos, fuel - 1) {
                    Some((node, end)) => {
                        bdr.add_node(*type_bound, Rc::new(node));
                        pos = end;
                    },
                    None => {
                        return None;
                    },
                }
            },
            // A sequence takes repeats of its pattern, separated by its delimiter
            PatternElement::Sequence { pattern, delimiter } => {
                proof {
                    assert(decreases_to!(pat@ => pat@[i as int]));
                }
                match parse_sequence(grammar, bdr, pattern, *delimiter, tokens, pos, fuel) {
                    Some(end) => {
                        pos = end;
                    },
                    None => {
                        return None;
                    },
                }
            },
        }
        i = i + 1;
    }
    Some(pos)
}

/// Parses repeats of the pattern `pat` separated by the static token `delimiter`, from token
/// `pos`, into `bdr`; returns the position after them (see [`seq_end`]).
#[verifier::loop_isolation(false)]
pub fn parse_sequence(
    grammar: &Grammar,
    bdr: &mut NodeBuilder,
    pat: &Vec<PatternElement>,
    delimiter: TokenId,
    tokens: &Vec<(ParsedToken, &str)>,
    pos: usize,
    fuel: usize,
) -> (r: Option<usize>)
    requires
        pos <= tokens@.len(),
    ensures
        final(bdr).spec_type_id() == old(bdr).spec_type_id(),
        match seq_end(grammar.spec_types(), pat@, delimiter, token_kinds(tokens@), pos as int, fuel as nat) {
            Some(e) => r matches Some(p) && p == e,
            None => r is None,
        },
        r matches Some(p) ==> pos <= p <= tokens@.len(),
        r is Some ==> final(bdr).built() == old(bdr).built() + seq![ElemView::SeqStart] + seq_body(
            grammar.spec_types(),
            pat@,
            delimiter,
            tokens@,
            pos as int,
            fuel as nat,
        ) + seq![ElemView::SeqEnd],
    decreases fuel, 0int, pat@, tokens@.len() - pos + 2, 0int,
{
    let ghost toks = token_kinds(tokens@);
    let ghost types = grammar.spec_types();
    bdr.seq_start();
    let ghost pos0 = pos;
    let mut pos = pos;
    loop
        invariant
            pos <= tokens@.len(),
            pos0 <= pos,
            toks == token_kinds(tokens@),
            types == grammar.spec_types(),
            bdr.spec_type_id() == old(bdr).spec_type_id(),
            seq_end(types, pat@, delimiter, toks, pos0 as int, fuel as nat) == seq_end(
                types,
                pat@,
                delimiter,
                toks,
                pos as int,
                fuel as nat,
            ),
            bdr.built() + seq_body(types, pat@, delimiter, tokens@, pos as int, fuel as nat) == old(bdr).built()
                + seq![ElemView::SeqStart] + seq_body(types, pat@, delimiter, tokens@, pos0 as int, fuel as nat),
        decreases tokens@.len() - pos,
    {
        let end = match parse_pattern(grammar, bdr, pat, tokens, pos, fuel) {
            Some(end) => end,
            None => {
                return None;
            },
        };
        if end < pos || end > tokens.len() {
            return None;
        }
        // Take the delimiter, and parse another repeat if there is one
        if end < tokens.len() {
            match &tokens[end].0 {
                ParsedToken::Static(token_id) => {
                    if *token_id == delimiter {
                        bdr.seq_delim(*token_id, tokens[end].1);
                        pos = end + 1;
                        continue;
                    }
                },
                ParsedToken::Stringy(..) => {},
            }
        }
        // If there is no delimiter, the sequence is over
        bdr.seq_end();
        return Some(end);
    }
}

/// The fuel that parsing `n_tokens` tokens with `n_types` types gets: one more than the
/// number of tokens times one more than the number of types (as much as a `usize` holds).
/// Without left recursion, the type bounds nested at one token are of distinct types, so this
/// is more than parsing needs.
pub open spec fn parse_fuel(n_tokens: nat, n_types: nat) -> nat {
    let f = (n_tokens + 1) * (n_types + 1);
    if f <= usize::MAX {
        f
    } else {
        usize::MAX as nat
    }
}

/// Computes [`parse_fuel`].
fn fuel_for(n_tokens: usize, n_types: usize) -> (f: usize)
    ensures
        f == parse_fuel(n_tokens as nat, n_types as nat),
{
    match n_tokens.checked_add(1) {
        Some(a) => match n_types.checked_add(1) {
            Some(b) => match a.checked_mul(b) {
                Some(f) => f,
                None => usize::MAX,
            },
            None => {
                proof {
                    assert((n_tokens + 1) * (n_types + 1) >= n_types + 1) by (nonlinear_arith)
                        requires n_tokens + 1 >= 1;
                }
                usize::MAX
            },
        },
        None => {
            proof {
                assert((n_tokens + 1) * (n_types + 1) >= n_tokens + 1) by (nonlinear_arith)
                    requires n_types + 1 >= 1;
            }
            usize::MAX
        },
    }
}

/// Parses all the tokens `tokens` (each with the whitespace after it) into one node whose
/// type is one that `type_id` converts into, with the fuel of [`parse_fuel`]: there is no
/// node where the node that parses from the first token does not take every token.
pub fn parse_tokens(grammar: &Grammar, type_id: TypeId, tokens: &Vec<(ParsedToken, &str)>) -> (r: Option<Node>)
    ensures
        r is Some <==> spans_all(grammar.spec_types(), type_id, token_kinds(tokens@)),
        r matches Some(n) ==> n@ == bound_node(
            grammar.spec_types(),
            type_id,
            tokens@,
            0,
            parse_fuel(tokens@.len(), grammar.spec_types().len()),
        ),
{
    let fuel = fuel_for(tokens.len(), grammar.types().len());
    match parse_type_bound(grammar, type_id, tokens, 0, fuel) {
        Some((node, end)) => if end == tokens.len() {
            Some(node)
        } else {
            None
        },
        None => None,
    }
}

/// A node whose type is one that `type_id` converts into parses from the first of the tokens
/// `toks`, with the fuel of [`parse_fuel`], and takes all of them.
pub open spec fn spans_all(types: Seq<Type>, type_id: TypeId, toks: Seq<ParsedToken>) -> bool {
    bound_end(types, type_id, toks, 0, parse_fuel(toks.len(), types.len())) matches Some((_, e)) && e
        == toks.len()
}

/// Every stringy type of `types` is one whose tokens can be read.
pub open spec fn stringies_readable(types: Seq<Type>) -> bool {
    forall|i: int|
        0 <= i < types.len() ==> match (#[trigger] types[i]).inner {
            TypeInner::Stringy(st) => stringy_supported(st),
            _ => true,
        }
}

impl Grammar {
    /// Whether the tokens of every stringy type of this grammar can be read, as
    /// [`parse`] requires.
    pub fn stringies_readable(&self) -> (b: bool)
        ensures
            b == stringies_readable(self.spec_types()),
    {
        let types = self.types();
        let mut i: usize = 0;
        while i < types.len()
            invariant
                i <= types@.len(),
                types@ == self.spec_types(),
                forall|j: int|
                    0 <= j < i ==> match (#[trigger] types@[j]).inner {
                        TypeInner::Stringy(st) => stringy_supported(st),
                        _ => true,
                    },
            decreases types@.len() - i,
        {
            match &types[i].inner {
                TypeInner::Stringy(st) => {
                    if !is_stringy_supported(st) {
                        return false;
                    }
                },
                _ => {},
            }
            i = i + 1;
        }
        true
    }
}

/// The stringy types of readable types are readable.
proof fn lemma_stringy_types_readable(types: Seq<Type>, n: int)
    requires
        stringies_readable(types),
        0 <= n <= types.len(),
    ensures
        forall|j: int|
            0 <= j < stringy_types_in(types, n).len() ==> stringy_supported(#[trigger] stringy_types_in(types, n)[j].1),
    decreases n,
{
    if n > 0 {
        lemma_stringy_types_readable(types, n - 1);
        let prev = stringy_types_in(types, n - 1);
        assert(match types[n - 1].inner {
            TypeInner::Stringy(st) => stringy_supported(st),
            _ => true,
        });
        assert forall|j: int| 0 <= j < stringy_types_in(types, n).len() implies stringy_supported(
            #[trigger] stringy_types_in(types, n)[j].1,
        ) by {
            if j < prev.len() {
                assert(stringy_types_in(types, n)[j] == prev[j]);
            }
        }
    }
}

/// One read of the tokenizer of `g` at `it`, where some text is left: `r` is a token (with
/// the whitespace after it), or an error, that it may give there, and `new` is where it
/// leaves the string (see [`Tokenizer::next`]).
pub open spec fn token_step(g: Grammar, it: StrIter, r: Result<(ParsedToken, &str), TokenizeError>, new: StrIter) -> bool {
    &&& it.rest().len() > 0
    &&& exists|os: Seq<(TypeId, Result<Option<String>, TokenizeError>, StrIter)>|
        #[trigger] valid_outcomes(it, stringy_types_in(g.spec_types(), g.spec_types().len() as int), os)
            && selects(
            it,
            os,
            g.spec_static_tokens_decreasing(),
            g.spec_whitespace().charset().chars(),
            r,
            new,
        )
}

/// `its` and `rs` are a run of the tokenizer of `g` over `s`: `its[0]` stands just after the
/// whitespace at the start of `s`, the `k`-th read gives `rs[k]` at `its[k]` and leaves the
/// string at `its[k + 1]`, and every read but the last gave a token and consumed some text.
pub open spec fn token_run(g: Grammar, s: Seq<char>, its: Seq<StrIter>, rs: Seq<Result<(ParsedToken, &str), TokenizeError>>) -> bool {
    &&& its.len() == rs.len() + 1
    &&& its[0].wf()
    &&& its[0].source() == s
    &&& is_leading_run(s.take(its[0].pos() as int), s, g.spec_whitespace().charset().chars())
    &&& forall|k: int| 0 <= k < rs.len() ==> #[trigger] token_step(g, its[k], rs[k], its[k + 1])
    &&& forall|k: int|
        0 <= k < rs.len() - 1 ==> (#[trigger] rs[k]) is Ok && its[k + 1].consumed_bytes()
            > its[k].consumed_bytes()
}

/// The tokens read in `rs` (each with the whitespace after it).
pub open spec fn run_tokens<'s>(rs: Seq<Result<(ParsedToken, &'s str), TokenizeError>>) -> Seq<(ParsedToken, &'s str)> {
    rs.map_values(
        |r: Result<(ParsedToken, &'s str), TokenizeError>|
            match r {
                Ok(t) => t,
                Err(_) => arbitrary(),
            },
    )
}

/// The text read by the first `n` reads of the run `its` over `s`: what each read consumed,
/// one after the other.
pub open spec fn run_text(s: Seq<char>, its: Seq<StrIter>, n: int) -> Seq<char>
    decreases n,
{
    if n <= 0 {
        Seq::empty()
    } else {
        run_text(s, its, n - 1) + s.subrange(its[n - 1].pos() as int, its[n].pos() as int)
    }
}

/// Outcomes valid for reading stringy types end in the same string, at or after where they
/// start.
proof fn lemma_valid_outcomes_consistent(it: StrIter, sts: Seq<(TypeId, Stringy)>, os: Seq<(TypeId, Result<Option<String>, TokenizeError>, StrIter)>)
    requires
        valid_outcomes(it, sts, os),
    ensures
        outcomes_consistent(it, os),
{
    assert forall|i: int| 0 <= i < os.len() && ((#[trigger] os[i]).1 matches Ok(Some(_))) implies os[i].2.wf()
        && os[i].2.source() == it.source() && os[i].2.pos() >= it.pos() by {
        lemma_eats_stringy_forward(it, os[i].2, os[i].1, sts[i].1, sts[i].0);
    }
}

/// The read `r`, from `it` to `new` in `s`, consumed the text of its token followed by its
/// whitespace, which is made of whitespace chars of `g`; the text of a static token is its
/// text among the static tokens of `g`.
pub open spec fn read_covers(g: Grammar, s: Seq<char>, r: Result<(ParsedToken, &str), TokenizeError>, it: StrIter, new: StrIter) -> bool {
    match r {
        Ok((tok, w)) => {
            let piece = s.subrange(it.pos() as int, new.pos() as int);
            let text = piece.take(piece.len() - w@.len());
            &&& it.pos() + w@.len() <= new.pos()
            &&& piece == text + w@
            &&& forall|i: int| 0 <= i < w@.len() ==> g.spec_whitespace().charset().chars().contains(#[trigger] w@[i])
            &&& tok matches ParsedToken::Static(id) ==> exists|j: int|
                0 <= j < g.spec_static_tokens_decreasing().len() && #[trigger] g.spec_static_tokens_decreasing()[j]
                    == (text, id)
        },
        Err(_) => false,
    }
}

/// Each read of a run that gave a token covers the text it consumed.
proof fn lemma_read_covers<'s>(
    g: Grammar,
    s: Seq<char>,
    its: Seq<StrIter<'s>>,
    rs: Seq<Result<(ParsedToken, &'s str), TokenizeError>>,
    k: int,
)
    requires
        token_run(g, s, its, rs),
        0 <= k < rs.len(),
        rs[k] is Ok,
    ensures
        read_covers(g, s, rs[k], its[k], its[k + 1]),
{
    let statics = g.spec_static_tokens_decreasing();
    let ws = g.spec_whitespace().charset().chars();
    let sts = stringy_types_in(g.spec_types(), g.spec_types().len() as int);
    let (tok, w) = rs[k]->Ok_0;
    assert(token_step(g, its[k], rs[k], its[k + 1]));
    let os = choose|os: Seq<(TypeId, Result<Option<String>, TokenizeError>, StrIter)>|
        #[trigger] valid_outcomes(its[k], sts, os) && selects(its[k], os, statics, ws, rs[k], its[k + 1]);
    lemma_valid_outcomes_consistent(its[k], sts, os);
    lemma_run_positions(g, s, its, rs, k);
    law_tokens_cover_the_text(its[k], os, statics, ws, tok, w, its[k + 1]);
    its[k].law_consumed_and_remaining();
    its[k + 1].law_consumed_and_remaining();
    let piece = s.subrange(its[k].pos() as int, its[k + 1].pos() as int);
    let text = its[k].rest().take(its[k + 1].pos() - its[k].pos() - w@.len());
    assert(its[k].rest() =~= s.skip(its[k].pos() as int));
    assert(its[k + 1].rest() =~= s.skip(its[k + 1].pos() as int));
    assert(piece =~= text + w@) by {
        assert(s.skip(its[k].pos() as int) =~= text + w@ + s.skip(its[k + 1].pos() as int));
        assert forall|i: int| 0 <= i < piece.len() implies piece[i] == (text + w@)[i] by {
            assert(piece[i] == s.skip(its[k].pos() as int)[i]);
        }
    }
    assert(piece.take(piece.len() - w@.len()) =~= text);
}

/// A run of the tokenizer that reads tokens to the end of the string loses no text: the
/// string is its leading whitespace followed by what each read consumed, and each read
/// consumed the text of its token followed by its whitespace, which is made of whitespace
/// chars; the text of a static token is its text among the static tokens of the grammar.
pub proof fn law_run_covers_the_text<'s>(
    g: Grammar,
    s: Seq<char>,
    its: Seq<StrIter<'s>>,
    rs: Seq<Result<(ParsedToken, &'s str), TokenizeError>>,
)
    requires
        token_run(g, s, its, rs),
        forall|k: int| 0 <= k < rs.len() ==> (#[trigger] rs[k]) is Ok,
        its.last().rest().len() == 0,
    ensures
        s == s.take(its[0].pos() as int) + run_text(s, its, rs.len() as int),
        forall|k: int| 0 <= k < rs.len() ==> read_covers(g, s, #[trigger] rs[k], its[k], its[k + 1]),
{
    let n = rs.len() as int;
    // Every iterator of the run stands in `s`, at or after the one before it
    assert forall|k: int| 0 <= k <= n implies (#[trigger] its[k]).wf() && its[k].source() == s && its[0].pos() <= its[k].pos()
        && its[k].pos() <= s.len() by {
        lemma_run_positions(g, s, its, rs, k);
        its[k].law_consumed_and_remaining();
    }
    assert forall|k: int| 0 <= k < n implies read_covers(g, s, #[trigger] rs[k], its[k], its[k + 1]) by {
        lemma_read_covers(g, s, its, rs, k);
    }
    assert forall|k: int| 0 <= k < n implies (#[trigger] its[k]).pos() <= its[k + 1].pos() by {
        lemma_run_positions(g, s, its, rs, k);
    }
    lemma_run_text(s, its, n);
    assert(its[n] == its.last());
    assert(its[n].wf() && its[n].source() == s);
    its[n].law_consumed_and_remaining();
    assert(s.take(its[n].pos() as int).len() == its[n].pos());
    assert(its[n].pos() == s.len());
    assert(s =~= s.take(its[0].pos() as int) + s.subrange(its[0].pos() as int, s.len() as int));
}

/// The iterators of a run stand in the string of the run, each at or after the one before.
proof fn lemma_run_positions<'s>(
    g: Grammar,
    s: Seq<char>,
    its: Seq<StrIter<'s>>,
    rs: Seq<Result<(ParsedToken, &'s str), TokenizeError>>,
    k: int,
)
    requires
        token_run(g, s, its, rs),
        0 <= k <= rs.len(),
    ensures
        its[k].wf(),
        its[k].source() == s,
        its[0].pos() <= its[k].pos(),
        k < rs.len() ==> its[k].pos() <= its[k + 1].pos() && its[k + 1].wf() && its[k + 1].source() == s,
    decreases k,
{
    let sts = stringy_types_in(g.spec_types(), g.spec_types().len() as int);
    let statics = g.spec_static_tokens_decreasing();
    let ws = g.spec_whitespace().charset().chars();
    if k > 0 {
        lemma_run_positions(g, s, its, rs, k - 1);
    }
    if k < rs.len() {
        assert(token_step(g, its[k], rs[k], its[k + 1]));
        let os = choose|os: Seq<(TypeId, Result<Option<String>, TokenizeError>, StrIter)>|
            #[trigger] valid_outcomes(its[k], sts, os) && selects(its[k], os, statics, ws, rs[k], its[k + 1]);
        lemma_valid_outcomes_consistent(its[k], sts, os);
        match rs[k] {
            Ok((tok, w)) => {
                law_tokens_cover_the_text(its[k], os, statics, ws, tok, w, its[k + 1]);
            },
            Err(_) => {},
        }
    }
}

/// The text read by a run, from the first iterator to the `n`-th, is the string between them.
proof fn lemma_run_text(s: Seq<char>, its: Seq<StrIter>, n: int)
    requires
        0 <= n < its.len(),
        forall|k: int| 0 <= k <= n ==> (#[trigger] its[k]).pos() <= s.len() && its[0].pos() <= its[k].pos(),
        forall|k: int| 0 <= k < n ==> (#[trigger] its[k]).pos() <= its[k + 1].pos(),
    ensures
        run_text(s, its, n) == s.subrange(its[0].pos() as int, its[n].pos() as int),
    decreases n,
{
    if n > 0 {
        lemma_run_text(s, its, n - 1);
        assert(its[n - 1].pos() <= its[n].pos());
        assert(s.subrange(its[0].pos() as int, its[n].pos() as int) =~= s.subrange(
            its[0].pos() as int,
            its[n - 1].pos() as int,
        ) + s.subrange(its[n - 1].pos() as int, its[n].pos() as int));
    }
}

/// What [`parse`] gives for a node whose type `type_id` converts into, after the run `its`,
/// `rs` of the tokenizer: the error of the last read if it failed; a parse error if the last
/// read consumed no text; else, where the run reached the end of the string, a node exactly
/// when all the tokens read make up one node (see [`spans_all`]), which is then the node of
/// [`bound_node`], and a parse error otherwise.
pub open spec fn parse_outcome<'s>(
    g: Grammar,
    type_id: TypeId,
    its: Seq<StrIter>,
    rs: Seq<Result<(ParsedToken, &str), TokenizeError>>,
    r: Result<(&'s str, Node), ParseError>,
) -> bool {
    let n = rs.len() as int;
    if n > 0 && rs[n - 1] is Err {
        match rs[n - 1] {
            Err(e) => r == Err::<(&'s str, Node), ParseError>(ParseError::Tokenize(e)),
            Ok(_) => false,
        }
    } else if n > 0 && its[n].consumed_bytes() == its[n - 1].consumed_bytes() {
        r == Err::<(&'s str, Node), ParseError>(ParseError::Parse)
    } else {
        &&& its[n].rest().len() == 0
        &&& r is Ok <==> spans_all(g.spec_types(), type_id, token_kinds(run_tokens(rs)))
        &&& r matches Ok((_, node)) ==> node@ == bound_node(
            g.spec_types(),
            type_id,
            run_tokens(rs),
            0,
            parse_fuel(rs.len(), g.spec_types().len()),
        )
        &&& r is Err ==> r == Err::<(&'s str, Node), ParseError>(ParseError::Parse)
    }
}

/// What [`read_tokens`] gives after the run `its`, `rs` of the tokenizer over `s`: nothing
/// where the last read gave a token but consumed no text, as reading on would never end; the
/// error of the last read where it failed; else, where the run reached the end of the string,
/// the whitespace at the start of `s` and the tokens read.
pub open spec fn read_outcome<'s>(
    s: Seq<char>,
    its: Seq<StrIter>,
    rs: Seq<Result<(ParsedToken, &'s str), TokenizeError>>,
    r: Option<Result<(&'s str, Vec<(ParsedToken, &'s str)>), TokenizeError>>,
) -> bool {
    let n = rs.len() as int;
    match r {
        None => n > 0 && rs[n - 1] is Ok && its[n].consumed_bytes() == its[n - 1].consumed_bytes(),
        Some(Err(e)) => n > 0 && rs[n - 1] == Err::<(ParsedToken, &'s str), TokenizeError>(e),
        Some(Ok((lead, toks))) => {
            &&& forall|k: int| 0 <= k < n ==> (#[trigger] rs[k]) is Ok && its[k + 1].consumed_bytes() > its[k].consumed_bytes()
            &&& its[n].rest().len() == 0
            &&& toks@ == run_tokens(rs)
            &&& lead@ == s.take(its[0].pos() as int)
        },
    }
}

/// The texts of static tokens among `tokens`, each followed by its whitespace, one after the
/// other.
pub open spec fn static_text(tokens: Seq<Token>, toks: Seq<(ParsedToken, &str)>) -> Seq<char>
    decreases toks.len(),
{
    if toks.len() == 0 {
        Seq::empty()
    } else {
        static_text(tokens, toks.drop_last()) + match toks.last().0 {
            ParsedToken::Static(id) => tokens[id.0 as int].spec_text() + toks.last().1@,
            ParsedToken::Stringy(..) => Seq::empty(),
        }
    }
}

/// Splits `s` into tokens according to `grammar`, reading tokens to the end of the string;
/// returns the whitespace at its start with the tokens, each with the whitespace after it.  A
/// read that gives a token but consumes no text stops the reading with nothing, as reading on
/// would never end.  What is read covers the text: `s` is its leading whitespace followed by
/// what each read consumed, and where all tokens are static, by their texts and whitespace.
pub fn read_tokens<'s>(grammar: &Grammar, s: &'s str) -> (r: Option<Result<(&'s str, Vec<(ParsedToken, &'s str)>), TokenizeError>>)
    requires
        grammar.spec_whitespace().charset().wf(),
        stringies_readable(grammar.spec_types()),
    ensures
        exists|its: Seq<StrIter<'s>>, rs: Seq<Result<(ParsedToken, &'s str), TokenizeError>>|
            #[trigger] token_run(*grammar, s@, its, rs) && read_outcome(s@, its, rs, r) && (r matches Some(Ok(_))
                ==> s@ == s@.take(its[0].pos() as int) + run_text(s@, its, rs.len() as int) && forall|k: int|
                0 <= k < rs.len() ==> read_covers(*grammar, s@, #[trigger] rs[k], its[k], its[k + 1])),
        r matches Some(Ok((lead, toks))) ==> is_leading_run(lead@, s@, grammar.spec_whitespace().charset().chars()),
        r matches Some(Ok((lead, toks))) ==> (forall|i: int| 0 <= i < toks@.len() ==> (#[trigger] toks@[i]).0 is Static)
            && lists_all_tokens(grammar.spec_static_tokens_decreasing(), grammar.spec_tokens()) ==> s@ == lead@
            + static_text(grammar.spec_tokens(), toks@),
{
    let (leading_ws, mut tokenizer) = Tokenizer::new(grammar, s);
    proof {
        lemma_stringy_types_readable(grammar.spec_types(), grammar.spec_types().len() as int);
        assert(leading_ws@ =~= s@.take(tokenizer.spec_iter().pos() as int));
    }
    let ghost g = *grammar;
    let ghost mut its: Seq<StrIter<'s>> = seq![tokenizer.spec_iter()];
    let ghost mut rs: Seq<Result<(ParsedToken, &'s str), TokenizeError>> = Seq::empty();
    let mut tokens: Vec<(ParsedToken, &'s str)> = Vec::new();
    loop
        invariant
            tokenizer.wf(),
            tokenizer.stringies_supported(),
            tokenizer.spec_iter().source() == s@,
            tokenizer.spec_whitespace() == g.spec_whitespace(),
            tokenizer.statics() == g.spec_static_tokens_decreasing(),
            tokenizer.stringies() == stringy_types_in(g.spec_types(), g.spec_types().len() as int),
            g == *grammar,
            leading_ws@ == s@.take(its[0].pos() as int),
            is_leading_run(leading_ws@, s@, grammar.spec_whitespace().charset().chars()),
            token_run(g, s@, its, rs),
            its.last() == tokenizer.spec_iter(),
            forall|k: int| 0 <= k < rs.len() ==> (#[trigger] rs[k]) is Ok && its[k + 1].consumed_bytes() > its[k].consumed_bytes(),
            tokens@.len() == rs.len(),
            tokens@ == run_tokens(rs),
        ensures
            its.last().rest().len() == 0,
        decreases tokenizer.spec_iter().rest().len(),
    {
        let before = tokenizer.consumed_length();
        let ghost old_iter = tokenizer.spec_iter();
        let next = tokenizer.next();
        let ghost new_its = its.push(tokenizer.spec_iter());
        match next {
            None => {
                break;
            },
            Some(Ok(token)) => {
                let ghost new_rs = rs.push(Ok(token));
                proof {
                    assert(token_step(g, old_iter, Ok(token), tokenizer.spec_iter()));
                    assert forall|k: int| 0 <= k < new_rs.len() implies #[trigger] token_step(
                        g,
                        new_its[k],
                        new_rs[k],
                        new_its[k + 1],
                    ) by {
                        if k < rs.len() {
                            assert(token_step(g, its[k], rs[k], its[k + 1]));
                        }
                    }
                    assert(token_run(g, s@, new_its, new_rs));
                }
                if tokenizer.consumed_length() == before {
                    proof {
                        assert(read_outcome(s@, new_its, new_rs, None));
                    }
                    return None;
                }
                proof {
                    let new_iter = tokenizer.spec_iter();
                    old_iter.law_consumed_and_remaining();
                    new_iter.law_consumed_and_remaining();
                    if new_iter.pos() == old_iter.pos() {
                        assert(new_iter.consumed_bytes() == old_iter.consumed_bytes());
                    }
                    let src = new_iter.source();
                    lemma_encode_split(src.take(new_iter.pos() as int), old_iter.pos() as int);
                    assert(src.take(new_iter.pos() as int).take(old_iter.pos() as int) =~= src.take(
                        old_iter.pos() as int,
                    ));
                    its = new_its;
                    rs = new_rs;
                }
                let ghost old_tokens = tokens@;
                tokens.push(token);
                proof {
                    assert(tokens@ =~= run_tokens(rs));
                }
            },
            Some(Err(e)) => {
                let ghost new_rs = rs.push(Err(e));
                proof {
                    assert(token_step(g, old_iter, Err(e), tokenizer.spec_iter()));
                    assert forall|k: int| 0 <= k < new_rs.len() implies #[trigger] token_step(
                        g,
                        new_its[k],
                        new_rs[k],
                        new_its[k + 1],
                    ) by {
                        if k < rs.len() {
                            assert(token_step(g, its[k], rs[k], its[k + 1]));
                        }
                    }
                    assert(token_run(g, s@, new_its, new_rs));
                    assert(read_outcome(s@, new_its, new_rs, Some(Err(e))));
                }
                return Some(Err(e));
            },
        }
    }
    proof {
        assert(its[rs.len() as int].rest().len() == 0);
        assert(read_outcome(s@, its, rs, Some(Ok((leading_ws, tokens)))));
        law_run_covers_the_text(g, s@, its, rs);
        if (forall|i: int| 0 <= i < tokens@.len() ==> (#[trigger] tokens@[i]).0 is Static) && lists_all_tokens(
            g.spec_static_tokens_decreasing(),
            g.spec_tokens(),
        ) {
            assert forall|i: int| 0 <= i < rs.len() implies (#[trigger] run_tokens(rs)[i]).0 is Static by {
                assert(tokens@[i] == run_tokens(rs)[i]);
            }
            lemma_static_run_text(g, s@, its, rs, rs.len() as int);
            assert(run_tokens(rs).take(rs.len() as int) =~= tokens@);
        }
    }
    Some(Ok((leading_ws, tokens)))
}

/// Where every token read is static, what the reads consumed is the texts of the tokens, each
/// followed by its whitespace.
proof fn lemma_static_run_text<'s>(
    g: Grammar,
    s: Seq<char>,
    its: Seq<StrIter<'s>>,
    rs: Seq<Result<(ParsedToken, &'s str), TokenizeError>>,
    n: int,
)
    requires
        0 <= n <= rs.len(),
        its.len() == rs.len() + 1,
        lists_all_tokens(g.spec_static_tokens_decreasing(), g.spec_tokens()),
        forall|k: int| 0 <= k < rs.len() ==> read_covers(g, s, #[trigger] rs[k], its[k], its[k + 1]),
        forall|i: int| 0 <= i < rs.len() ==> (#[trigger] run_tokens(rs)[i]).0 is Static,
    ensures
        run_text(s, its, n) == static_text(g.spec_tokens(), run_tokens(rs).take(n)),
    decreases n,
{
    if n > 0 {
        lemma_static_run_text(g, s, its, rs, n - 1);
        let toks = run_tokens(rs);
        assert(toks.take(n).drop_last() =~= toks.take(n - 1));
        assert(toks.take(n).last() == toks[n - 1]);
        assert(read_covers(g, s, rs[n - 1], its[n - 1], its[n]));
        assert(toks[n - 1].0 is Static);
        let statics = g.spec_static_tokens_decreasing();
        match rs[n - 1] {
            Ok((tok, w)) => {
                let id = tok->Static_0;
                let piece = s.subrange(its[n - 1].pos() as int, its[n].pos() as int);
                let text = piece.take(piece.len() - w@.len());
                let j = choose|j: int| 0 <= j < statics.len() && #[trigger] statics[j] == (text, id);
                assert(statics[j].0 == g.spec_tokens()[statics[j].1.0 as int].spec_text());
            },
            Err(_) => {},
        }
    }
}

/// No stringy type of `types` has escape rules: the contents of each stringy token are the
/// text between its delimiters.
pub open spec fn no_escape_rules(types: Seq<Type>) -> bool {
    forall|i: int|
        0 <= i < types.len() ==> match (#[trigger] types[i]).inner {
            TypeInner::Stringy(st) => st.escape_rules is None,
            _ => true,
        }
}

/// Each stringy type listed among the first `n` types is the stringy type of its id.
proof fn lemma_stringy_types_in_index(types: Seq<Type>, n: int, b: int)
    requires
        0 <= n <= types.len(),
        types.len() <= usize::MAX,
        0 <= b < stringy_types_in(types, n).len(),
    ensures
        ({
            let (id, st) = stringy_types_in(types, n)[b];
            &&& 0 <= id.0 < n
            &&& types[id.0 as int].inner == TypeInner::Stringy(st)
        }),
    decreases n,
{
    if n > 0 {
        let prev = stringy_types_in(types, n - 1);
        match types[n - 1].inner {
            TypeInner::Stringy(st) => {
                assert(stringy_types_in(types, n) == prev.push((TypeId((n - 1) as usize), st)));
                if b < prev.len() {
                    lemma_stringy_types_in_index(types, n - 1, b);
                    assert(stringy_types_in(types, n)[b] == prev[b]);
                } else {
                    assert(stringy_types_in(types, n)[b] == (TypeId((n - 1) as usize), st));
                }
            },
            _ => {
                assert(stringy_types_in(types, n) == prev);
                lemma_stringy_types_in_index(types, n - 1, b);
            },
        }
    }
}

/// A read of a run that gave a token consumed that token's text as a tree displays it (see
/// [`token_source`]), where static tokens are listed by the grammar and no stringy type has
/// escape rules.
#[verifier::rlimit(50)]
#[verifier::spinoff_prover]
proof fn lemma_read_source<'s>(
    g: Grammar,
    s: Seq<char>,
    its: Seq<StrIter<'s>>,
    rs: Seq<Result<(ParsedToken, &'s str), TokenizeError>>,
    k: int,
)
    requires
        token_run(g, s, its, rs),
        0 <= k < rs.len(),
        rs[k] is Ok,
        lists_all_tokens(g.spec_static_tokens_decreasing(), g.spec_tokens()),
        no_escape_rules(g.spec_types()),
        g.spec_types().len() <= usize::MAX,
        stringies_readable(g.spec_types()),
    ensures
        s.subrange(its[k].pos() as int, its[k + 1].pos() as int) == token_source(g.spec_types(), g.spec_tokens(), rs[k]->Ok_0),
{
    let types = g.spec_types();
    let tokens = g.spec_tokens();
    let statics = g.spec_static_tokens_decreasing();
    let ws = g.spec_whitespace().charset().chars();
    let sts = stringy_types_in(types, types.len() as int);
    let (tok, w) = rs[k]->Ok_0;
    lemma_read_covers(g, s, its, rs, k);
    lemma_run_positions(g, s, its, rs, k);
    let it = its[k];
    let new = its[k + 1];
    let piece = s.subrange(it.pos() as int, new.pos() as int);
    let text = piece.take(piece.len() - w@.len());
    match tok {
        ParsedToken::Static(id) => {
            let j = choose|j: int| 0 <= j < statics.len() && #[trigger] statics[j] == (text, id);
            assert(statics[j].0 == tokens[statics[j].1.0 as int].spec_text());
            assert(piece =~= text + w@);
        },
        ParsedToken::Stringy(id, c) => {
            assert(token_step(g, it, rs[k], new));
            let os = choose|os: Seq<(TypeId, Result<Option<String>, TokenizeError>, StrIter)>|
                #[trigger] valid_outcomes(it, sts, os) && selects(it, os, statics, ws, rs[k], new);
            lemma_valid_outcomes_consistent(it, sts, os);
            law_tokens_cover_the_text(it, os, statics, ws, tok, w, new);
            it.law_consumed_and_remaining();
            new.law_consumed_and_remaining();
            lemma_longest_match(os, os.len() as int);
            let best = longest_match(os, os.len() as int);
            let b = best->Some_0;
            let after = os[b].2;
            let st = sts[b].1;
            lemma_stringy_types_in_index(types, types.len() as int, b);
            assert(types[id.0 as int].inner == TypeInner::Stringy(st));
            assert(match types[id.0 as int].inner {
                TypeInner::Stringy(st) => st.escape_rules is None,
                _ => true,
            });
            assert(match types[id.0 as int].inner {
                TypeInner::Stringy(st) => stringy_supported(st),
                _ => true,
            });
            assert(eats_stringy(it, after, os[b].1, st, sts[b].0));
            let contents = os[b].1->Ok_0->Some_0;
            assert(c@ == contents@);
            let rest = it.rest();
            let text2 = rest.take(after.pos() - it.pos());
            assert(rest =~= s.skip(it.pos() as int));
            assert(text =~= text2) by {
                assert(new.pos() == after.pos() + w@.len());
                assert forall|i: int| 0 <= i < text.len() implies text[i] == text2[i] by {
                    assert(text[i] == s[it.pos() + i]);
                }
            }
            let ds = st.delim_start@;
            let de = st.delim_end@;
            if ds.len() == 0 {
                let rs_ = st.regexes->Some_0;
                let (start, end) = regex_first_match(rs_.anchored_start@, rest)->Some_0;
                let kk = chars_in_bytes(rest, end)->Some_0;
                assert(text2 =~= contents@);
                assert(text =~= ds + c@ + de);
            } else {
                let kk = find_from(rest.skip(ds.len() as int), de, 0)->Some_0;
                lemma_find_from_bounds(rest.skip(ds.len() as int), de, 0);
                assert(rest.take(ds.len() as int) == ds);
                assert(text2 =~= ds + c@ + de) by {
                    assert forall|i: int| 0 <= i < text2.len() implies text2[i] == (ds + c@ + de)[i] by {
                        if i < ds.len() {
                            assert(rest.take(ds.len() as int)[i] == rest[i]);
                        } else if i < ds.len() + kk {
                            assert(rest.skip(ds.len() as int)[i - ds.len()] == rest[i]);
                        } else {
                            assert(rest.skip(ds.len() as int).subrange(kk as int, (kk + de.len()) as int)[i - ds.len() - kk]
                                == rest[i]);
                        }
                    }
                }
            }
            assert(piece =~= text + w@);
        },
    }
}

/// What the reads of a run that gave tokens consumed is the text of those tokens as a tree
/// displays them.
proof fn lemma_run_source<'s>(
    g: Grammar,
    s: Seq<char>,
    its: Seq<StrIter<'s>>,
    rs: Seq<Result<(ParsedToken, &'s str), TokenizeError>>,
    n: int,
)
    requires
        token_run(g, s, its, rs),
        0 <= n <= rs.len(),
        forall|k: int| 0 <= k < rs.len() ==> (#[trigger] rs[k]) is Ok,
        lists_all_tokens(g.spec_static_tokens_decreasing(), g.spec_tokens()),
        no_escape_rules(g.spec_types()),
        g.spec_types().len() <= usize::MAX,
        stringies_readable(g.spec_types()),
    ensures
        run_text(s, its, n) == tokens_source(g.spec_types(), g.spec_tokens(), run_tokens(rs), 0, n),
    decreases n,
{
    if n > 0 {
        lemma_run_source(g, s, its, rs, n - 1);
        lemma_read_source(g, s, its, rs, n - 1);
        assert(run_tokens(rs)[n - 1] == rs[n - 1]->Ok_0);
    }
}

/// Parsing gives back the text: where a string parses, the tree's text is the string after
/// its leading whitespace, every stringy node displaying its contents between its type's
/// delimiters; this holds where the grammar lists its static tokens and no stringy type has
/// escape rules (with escapes, a node displays its contents unescaped).
pub proof fn law_parse_gives_back_the_text<'s>(
    g: Grammar,
    type_id: TypeId,
    s: Seq<char>,
    its: Seq<StrIter<'s>>,
    rs: Seq<Result<(ParsedToken, &'s str), TokenizeError>>,
    r: Result<(&'s str, Node), ParseError>,
)
    requires
        token_run(g, s, its, rs),
        parse_outcome(g, type_id, its, rs, r),
        lists_all_tokens(g.spec_static_tokens_decreasing(), g.spec_tokens()),
        no_escape_rules(g.spec_types()),
        g.spec_types().len() <= usize::MAX,
        stringies_readable(g.spec_types()),
    ensures
        r matches Ok((_, node)) ==> s == s.take(its[0].pos() as int) + node.text(g.spec_tokens()),
{
    if let Ok((_, node)) = r {
        let n = rs.len() as int;
        let toks = run_tokens(rs);
        assert(!(n > 0 && rs[n - 1] is Err));
        assert forall|k: int| 0 <= k < rs.len() implies (#[trigger] rs[k]) is Ok by {
            if k < n - 1 {
            } else {
                assert(k == n - 1);
            }
        }
        assert(its.last() == its[n]);
        law_run_covers_the_text(g, s, its, rs);
        lemma_run_source(g, s, its, rs, n);
        let fuel = parse_fuel(toks.len(), g.spec_types().len());
        assert(token_kinds(toks).len() == n);
        lemma_bound_text(g.spec_types(), g.spec_tokens(), type_id, toks, 0, fuel);
        lemma_node_text_view(node, g.spec_tokens());
    }
}

/// Splits `s` into tokens according to `grammar` (see [`read_tokens`]), and parses them into
/// a node whose type is one that `type_id` converts into (see [`parse_tokens`]); returns it with
/// the whitespace before the first token.  Reading a token that takes no text fails to parse,
/// as would reading such tokens forever.
pub fn parse<'s>(grammar: &Grammar, type_id: TypeId, s: &'s str) -> (r: Result<(&'s str, Node), ParseError>)
    requires
        grammar.spec_whitespace().charset().wf(),
        stringies_readable(grammar.spec_types()),
    ensures
        r matches Ok((leading_ws, _)) ==> is_leading_run(leading_ws@, s@, grammar.spec_whitespace().charset().chars()),
        exists|its: Seq<StrIter<'s>>, rs: Seq<Result<(ParsedToken, &'s str), TokenizeError>>|
            #[trigger] token_run(*grammar, s@, its, rs) && parse_outcome(*grammar, type_id, its, rs, r),
        lists_all_tokens(grammar.spec_static_tokens_decreasing(), grammar.spec_tokens()) && no_escape_rules(
            grammar.spec_types(),
        ) ==> (r matches Ok((lead, node)) ==> lead@ + node.text(grammar.spec_tokens()) == s@),
{
    let read = read_tokens(grammar, s);
    let ghost (its, rs) = choose|its: Seq<StrIter<'s>>, rs: Seq<Result<(ParsedToken, &'s str), TokenizeError>>|
        #[trigger] token_run(*grammar, s@, its, rs) && read_outcome(s@, its, rs, read) && (read matches Some(Ok(_))
            ==> s@ == s@.take(its[0].pos() as int) + run_text(s@, its, rs.len() as int) && forall|k: int|
            0 <= k < rs.len() ==> read_covers(*grammar, s@, #[trigger] rs[k], its[k], its[k + 1]));
    let r = match read {
        None => Err(ParseError::Parse),
        Some(Err(e)) => Err(ParseError::Tokenize(e)),
        Some(Ok((leading_ws, tokens))) => match parse_tokens(grammar, type_id, &tokens) {
            Some(node) => Ok((leading_ws, node)),
            None => Err(ParseError::Parse),
        },
    };
    // The number of types, which fits in a `usize`
    let num_types = grammar.types().len();
    proof {
        assert(token_run(*grammar, s@, its, rs) && parse_outcome(*grammar, type_id, its, rs, r));
        assert(grammar.spec_types().len() == num_types);
        if lists_all_tokens(grammar.spec_static_tokens_decreasing(), grammar.spec_tokens()) && no_escape_rules(
            grammar.spec_types(),
        ) {
            law_parse_gives_back_the_text(*grammar, type_id, s@, its, rs, r);
        }
    }
    r
}

impl Grammar {
    /// Parses `s` into a node of the root type of this grammar (see [`parse`]).
    pub fn parse_root<'s>(&self, s: &'s str) -> (r: Result<(&'s str, Node), ParseError>)
        requires
            self.spec_whitespace().charset().wf(),
            stringies_readable(self.spec_types()),
        ensures
            r matches Ok((leading_ws, _)) ==> is_leading_run(leading_ws@, s@, self.spec_whitespace().charset().chars()),
            exists|its: Seq<StrIter<'s>>, rs: Seq<Result<(ParsedToken, &'s str), TokenizeError>>|
                #[trigger] token_run(*self, s@, its, rs) && parse_outcome(*self, self.spec_root_type(), its, rs, r),
            lists_all_tokens(self.spec_static_tokens_decreasing(), self.spec_tokens()) && no_escape_rules(
                self.spec_types(),
            ) ==> (r matches Ok((lead, node)) ==> lead@ + node.text(self.spec_tokens()) == s@),
    {
        parse(self, self.root_type(), s)
    }

    /// Parses `s` into a node whose type is one that `type_id` converts into (see [`parse`]).
    pub fn parse<'s>(&self, type_id: TypeId, s: &'s str) -> (r: Result<(&'s str, Node), ParseError>)
        requires
            self.spec_whitespace().charset().wf(),
            stringies_readable(self.spec_types()),
        ensures
            r matches Ok((leading_ws, _)) ==> is_leading_run(leading_ws@, s@, self.spec_whitespace().charset().chars()),
            exists|its: Seq<StrIter<'s>>, rs: Seq<Result<(ParsedToken, &'s str), TokenizeError>>|
                #[trigger] token_run(*self, s@, its, rs) && parse_outcome(*self, type_id, its, rs, r),
            lists_all_tokens(self.spec_static_tokens_decreasing(), self.spec_tokens()) && no_escape_rules(
                self.spec_types(),
            ) ==> (r matches Ok((lead, node)) ==> lead@ + node.text(self.spec_tokens()) == s@),
    {
        parse(self, type_id, s)
    }
}

} // verus!
