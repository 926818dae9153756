//! A hard-coded specification of JSON ASTs in a format editable by Sapling

use vstd::prelude::*;
use vstd::string::*;
use core::ops::AddAssign;

use crate::arena::Arena;
use crate::base::{
    string_pop, string_push, lemma_text_size_bounded, lemma_text_size_concat, lemma_text_size_fits,
    lemma_text_size_char, lemma_text_size_spaces, newline_count, size_concat, spaces, text_size,
    Size,
};
use super::{DeleteError, InsertError};
use super::display_token::{
    lemma_no_swaps_concat, lemma_no_swaps_fixed, lemma_stream_spaces, stream_indent, stream_text, lemma_run_concat, lemma_toks_of_concat, no_swaps, swaps_at, run_indent, run_text, toks_of,
    write_token_stream, DisplayToken, RecTok, RecTokView, TokView, CONST, DEFAULT, INDENT_WIDTH,
    KEYWORD, LITERAL,
};

verus! {

/// An enum to hold the different ways that a JSON AST can be formatted
#[derive(Debug, Copy, Clone, PartialEq, Eq, Structural)]
pub enum JsonFormat {
    /// The most compact representation, has minimal whitespace.
    /// E.g. `[{"foo": true, "bar": false}, true]`
    Compact,
    /// A prettified representation, with pretty indenting and every element on a newline.
    Pretty,
}

/// The sapling representation of the AST for a subset of JSON.  Children are shared,
/// immutable nodes stored in an [`Arena`](crate::arena::Arena).
#[derive(Debug, PartialEq, Eq, Hash)]
pub enum Json<'arena> {
    /// The JSON value for 'true'.  Corresponds to the string `true`.
    True,
    /// The JSON value 'false'.  Corresponds to the string `false`.
    False,
    /// The JSON value 'null'.  Corresponds to the string `null`.
    Null,
    /// A JSON array of multiple values: `[<v1>, <v2>, ...]`.
    Array(Vec<&'arena Json<'arena>>),
    /// A JSON object, whose children must be [`Field`](Json::Field)s:
    /// `{"<key1>": <v1>, "<key2>": <v2>, ...}`.
    Object(Vec<&'arena Json<'arena>>),
    /// A JSON object field: a key (a [`Str`](Json::Str)) and a value.
    Field(&'arena Json<'arena>, &'arena Json<'arena>),
    /// A JSON string
    Str(String),
}

pub open spec fn quoted(s: Seq<char>) -> Seq<char> {
    seq!['"'] + s + seq!['"']
}

/// The text put between two children of an array or object.
pub open spec fn separator(pretty: bool, ind: nat) -> Seq<char> {
    if pretty {
        seq![',', '\n'] + spaces(ind)
    } else {
        seq![',', ' ']
    }
}

/// The indentation of the children of a node rendered at indentation `ind`.
pub open spec fn child_indent(pretty: bool, ind: nat) -> nat {
    if pretty {
        ind + 4
    } else {
        ind
    }
}

/// The text of a bracketed list (array or object) whose children render to `body`.
pub open spec fn bracketed(
    open: char,
    close: char,
    n_children: nat,
    body: Seq<char>,
    pretty: bool,
    ind: nat,
) -> Seq<char> {
    if n_children == 0 {
        seq![open, close]
    } else if pretty {
        seq![open, '\n'] + spaces(ind + 4) + body + seq!['\n'] + spaces(ind) + seq![close]
    } else {
        seq![open] + body + seq![close]
    }
}

/// The text of a JSON node, in pretty (`pretty == true`) or compact format, when its first
/// line starts at indentation level `ind`.
pub open spec fn render<'a>(j: Json<'a>, pretty: bool, ind: nat) -> Seq<char>
    decreases j,
{
    match j {
        Json::True => seq!['t', 'r', 'u', 'e'],
        Json::False => seq!['f', 'a', 'l', 's', 'e'],
        Json::Null => seq!['n', 'u', 'l', 'l'],
        Json::Str(s) => quoted(s@),
        Json::Field(k, v) => render(*k, pretty, ind) + seq![':', ' '] + render(*v, pretty, ind),
        Json::Array(cs) => bracketed(
            '[',
            ']',
            cs@.len(),
            render_seq(cs@, pretty, child_indent(pretty, ind)),
            pretty,
            ind,
        ),
        Json::Object(cs) => bracketed(
            '{',
            '}',
            cs@.len(),
            render_seq(cs@, pretty, child_indent(pretty, ind)),
            pretty,
            ind,
        ),
    }
}

/// The texts of a sequence of children, separated by commas.
pub open spec fn render_seq<'a>(cs: Seq<&'a Json<'a>>, pretty: bool, ind: nat) -> Seq<char>
    decreases cs,
{
    if cs.len() == 0 {
        Seq::empty()
    } else {
        render_seq(cs.drop_last(), pretty, ind) + (if cs.len() > 1 {
            separator(pretty, ind)
        } else {
            Seq::empty()
        }) + render(*cs.last(), pretty, ind)
    }
}

/// A text token of the default syntax category.
pub open spec fn punct(text: Seq<char>) -> TokView {
    TokView::Text(text, DEFAULT@)
}

/// The tokens between two children of an array or object.
pub open spec fn sep_toks(pretty: bool) -> Seq<TokView> {
    seq![punct(seq![',']), if pretty {
        TokView::Newline
    } else {
        TokView::Whitespace(1)
    }]
}

/// The tokens that open a non-empty array or object.
pub open spec fn open_toks(open: char, pretty: bool) -> Seq<TokView> {
    if pretty {
        seq![punct(seq![open]), TokView::Indent, TokView::Newline]
    } else {
        seq![punct(seq![open])]
    }
}

/// The tokens that close a non-empty array or object.
pub open spec fn close_toks(close: char, pretty: bool) -> Seq<TokView> {
    if pretty {
        seq![TokView::Dedent, TokView::Newline, punct(seq![close])]
    } else {
        seq![punct(seq![close])]
    }
}

/// Wraps tokens as the tokens of a node's own.
pub open spec fn own_toks<N>(toks: Seq<TokView>) -> Seq<RecTokView<N>> {
    toks.map_values(|t: TokView| RecTokView::Tok(t))
}

/// The tokens of a list of children, with the separators between them.
pub open spec fn rec_list<'a>(cs: Seq<&'a Json<'a>>, pretty: bool) -> Seq<RecTokView<Json<'a>>>
    decreases cs.len(),
{
    if cs.len() == 0 {
        Seq::empty()
    } else {
        rec_list(cs.drop_last(), pretty) + (if cs.len() > 1 {
            own_toks(sep_toks(pretty))
        } else {
            Seq::empty()
        }) + seq![RecTokView::Child(*cs.last())]
    }
}

/// The tokens of a bracketed list.
pub open spec fn rec_bracketed<'a>(
    open: char,
    close: char,
    cs: Seq<&'a Json<'a>>,
    pretty: bool,
) -> Seq<RecTokView<Json<'a>>> {
    if cs.len() == 0 {
        own_toks(seq![punct(seq![open, close])])
    } else {
        own_toks(open_toks(open, pretty)) + rec_list(cs, pretty) + own_toks(close_toks(close, pretty))
    }
}

/// The tokens that make up a node, with its children left as references.
pub open spec fn rec_tokens<'a>(j: Json<'a>, pretty: bool) -> Seq<RecTokView<Json<'a>>> {
    match j {
        Json::True => own_toks(seq![TokView::Text(seq!['t', 'r', 'u', 'e'], CONST@)]),
        Json::False => own_toks(seq![TokView::Text(seq!['f', 'a', 'l', 's', 'e'], CONST@)]),
        Json::Null => own_toks(seq![TokView::Text(seq!['n', 'u', 'l', 'l'], KEYWORD@)]),
        Json::Str(s) => own_toks(seq![TokView::Text(quoted(s@), LITERAL@)]),
        Json::Field(k, v) => seq![RecTokView::Child(*k)] + own_toks(seq![punct(seq![':', ' '])])
            + seq![RecTokView::Child(*v)],
        Json::Array(cs) => rec_bracketed('[', ']', cs@, pretty),
        Json::Object(cs) => rec_bracketed('{', '}', cs@, pretty),
    }
}

/// Tokens owned by `owner`.
pub open spec fn owned<'a>(owner: Json<'a>, toks: Seq<TokView>) -> Seq<(Json<'a>, TokView)> {
    toks.map_values(|t: TokView| (owner, t))
}

/// The full token stream of a node: every token paired with the node that owns it.
pub open spec fn flat<'a>(j: Json<'a>, pretty: bool) -> Seq<(Json<'a>, TokView)>
    decreases j,
{
    match j {
        Json::Field(k, v) => flat(*k, pretty) + owned(j, seq![punct(seq![':', ' '])]) + flat(
            *v,
            pretty,
        ),
        Json::Array(cs) => if cs@.len() == 0 {
            owned(j, seq![punct(seq!['[', ']'])])
        } else {
            owned(j, open_toks('[', pretty)) + flat_list(j, cs@, pretty) + owned(
                j,
                close_toks(']', pretty),
            )
        },
        Json::Object(cs) => if cs@.len() == 0 {
            owned(j, seq![punct(seq!['{', '}'])])
        } else {
            owned(j, open_toks('{', pretty)) + flat_list(j, cs@, pretty) + owned(
                j,
                close_toks('}', pretty),
            )
        },
        _ => {
            let toks = rec_tokens(j, pretty);
            owned(j, seq![toks[0]->Tok_0])
        },
    }
}

/// The full token streams of a list of children, with `owner`'s separators between them.
pub open spec fn flat_list<'a>(owner: Json<'a>, cs: Seq<&'a Json<'a>>, pretty: bool) -> Seq<
    (Json<'a>, TokView),
>
    decreases cs,
{
    if cs.len() == 0 {
        Seq::empty()
    } else {
        flat_list(owner, cs.drop_last(), pretty) + (if cs.len() > 1 {
            owned(owner, sep_toks(pretty))
        } else {
            Seq::empty()
        }) + flat(*cs.last(), pretty)
    }
}

/// Expands the child references of a node's tokens into the children's full token streams.
pub open spec fn expand<'a>(owner: Json<'a>, rts: Seq<RecTokView<Json<'a>>>, pretty: bool) -> Seq<
    (Json<'a>, TokView),
>
    decreases rts.len(),
{
    if rts.len() == 0 {
        Seq::empty()
    } else {
        expand(owner, rts.drop_last(), pretty) + match rts.last() {
            RecTokView::Tok(t) => seq![(owner, t)],
            RecTokView::Child(c) => flat(c, pretty),
        }
    }
}

proof fn lemma_expand_concat<'a>(
    owner: Json<'a>,
    a: Seq<RecTokView<Json<'a>>>,
    b: Seq<RecTokView<Json<'a>>>,
    pretty: bool,
)
    ensures
        expand(owner, a + b, pretty) == expand(owner, a, pretty) + expand(owner, b, pretty),
    decreases b.len(),
{
    if b.len() == 0 {
        assert(a + b =~= a);
        assert(expand(owner, a, pretty) + expand(owner, b, pretty) =~= expand(owner, a, pretty));
    } else {
        lemma_expand_concat(owner, a, b.drop_last(), pretty);
        assert((a + b).drop_last() =~= a + b.drop_last());
        assert((a + b).last() == b.last());
    }
}

proof fn lemma_expand_own<'a>(owner: Json<'a>, toks: Seq<TokView>, pretty: bool)
    ensures
        expand(owner, own_toks(toks), pretty) == owned(owner, toks),
    decreases toks.len(),
{
    if toks.len() == 0 {
        assert(own_toks::<Json<'a>>(toks) =~= Seq::empty());
        assert(owned(owner, toks) =~= Seq::empty());
    } else {
        lemma_expand_own(owner, toks.drop_last(), pretty);
        assert(own_toks::<Json<'a>>(toks).drop_last() =~= own_toks(toks.drop_last()));
        assert(owned(owner, toks) =~= owned(owner, toks.drop_last()) + seq![(owner, toks.last())]);
    }
}

proof fn lemma_expand_list<'a>(owner: Json<'a>, cs: Seq<&'a Json<'a>>, pretty: bool)
    ensures
        expand(owner, rec_list(cs, pretty), pretty) == flat_list(owner, cs, pretty),
    decreases cs.len(),
{
    if cs.len() > 0 {
        lemma_expand_list(owner, cs.drop_last(), pretty);
        let mid: Seq<RecTokView<Json<'a>>> = if cs.len() > 1 {
            own_toks(sep_toks(pretty))
        } else {
            Seq::empty()
        };
        let last: Seq<RecTokView<Json<'a>>> = seq![RecTokView::Child(*cs.last())];
        lemma_expand_concat(owner, rec_list(cs.drop_last(), pretty) + mid, last, pretty);
        lemma_expand_concat(owner, rec_list(cs.drop_last(), pretty), mid, pretty);
        lemma_expand_own(owner, sep_toks(pretty), pretty);
        assert(expand(owner, Seq::<RecTokView<Json<'a>>>::empty(), pretty) =~= Seq::empty());
        assert(last.drop_last() =~= Seq::<RecTokView<Json<'a>>>::empty());
        assert(expand(owner, last, pretty) =~= flat(*cs.last(), pretty));
    }
}

/// Expanding the child references of a node's tokens gives its full token stream.
pub proof fn lemma_expand_rec_tokens<'a>(j: Json<'a>, pretty: bool)
    ensures
        expand(j, rec_tokens(j, pretty), pretty) == flat(j, pretty),
{
    match j {
        Json::Field(k, v) => {
            let a: Seq<RecTokView<Json<'a>>> = seq![RecTokView::Child(*k)];
            let b: Seq<RecTokView<Json<'a>>> = own_toks(seq![punct(seq![':', ' '])]);
            let c: Seq<RecTokView<Json<'a>>> = seq![RecTokView::Child(*v)];
            lemma_expand_concat(j, a + b, c, pretty);
            lemma_expand_concat(j, a, b, pretty);
            lemma_expand_own(j, seq![punct(seq![':', ' '])], pretty);
            assert(a.drop_last() =~= Seq::<RecTokView<Json<'a>>>::empty());
            assert(expand(j, a.drop_last(), pretty) =~= Seq::empty());
            assert(c.drop_last() =~= Seq::<RecTokView<Json<'a>>>::empty());
            assert(expand(j, a, pretty) =~= flat(*k, pretty));
            assert(expand(j, c, pretty) =~= flat(*v, pretty));
        },
        Json::Array(cs) => {
            lemma_expand_bracketed(j, '[', ']', cs@, pretty);
        },
        Json::Object(cs) => {
            lemma_expand_bracketed(j, '{', '}', cs@, pretty);
        },
        _ => {
            let t = rec_tokens(j, pretty)[0]->Tok_0;
            lemma_expand_own(j, seq![t], pretty);
            assert(rec_tokens(j, pretty) =~= own_toks(seq![t]));
        },
    }
}

proof fn lemma_expand_bracketed<'a>(
    j: Json<'a>,
    open: char,
    close: char,
    cs: Seq<&'a Json<'a>>,
    pretty: bool,
)
    ensures
        expand(j, rec_bracketed(open, close, cs, pretty), pretty) == if cs.len() == 0 {
            owned(j, seq![punct(seq![open, close])])
        } else {
            owned(j, open_toks(open, pretty)) + flat_list(j, cs, pretty) + owned(
                j,
                close_toks(close, pretty),
            )
        },
{
    if cs.len() == 0 {
        lemma_expand_own(j, seq![punct(seq![open, close])], pretty);
    } else {
        let a: Seq<RecTokView<Json<'a>>> = own_toks(open_toks(open, pretty));
        let b = rec_list(cs, pretty);
        let c: Seq<RecTokView<Json<'a>>> = own_toks(close_toks(close, pretty));
        lemma_expand_concat(j, a + b, c, pretty);
        lemma_expand_concat(j, a, b, pretty);
        lemma_expand_own(j, open_toks(open, pretty), pretty);
        lemma_expand_own(j, close_toks(close, pretty), pretty);
        lemma_expand_list(j, cs, pretty);
    }
}

proof fn lemma_toks_of_owned<'a>(owner: Json<'a>, toks: Seq<TokView>)
    ensures
        toks_of(owned(owner, toks)) == toks,
{
    assert(toks_of(owned(owner, toks)) =~= toks);
}

proof fn lemma_run_single(t: TokView, ind: nat)
    ensures
        run_text(seq![t], ind) == super::display_token::tok_text(t, ind),
        run_indent(seq![t], ind) == super::display_token::tok_indent(t, ind),
{
    assert(seq![t].drop_last() =~= Seq::<TokView>::empty());
    assert(run_text(Seq::<TokView>::empty(), ind) == Seq::<char>::empty());
    assert(run_indent(Seq::<TokView>::empty(), ind) == ind);
    assert(Seq::<char>::empty() + super::display_token::tok_text(t, ind)
        =~= super::display_token::tok_text(t, ind));
}

proof fn lemma_run_pair(a: TokView, b: TokView, ind: nat)
    ensures
        run_text(seq![a, b], ind) == super::display_token::tok_text(a, ind)
            + super::display_token::tok_text(b, super::display_token::tok_indent(a, ind)),
        run_indent(seq![a, b], ind) == super::display_token::tok_indent(
            b,
            super::display_token::tok_indent(a, ind),
        ),
{
    lemma_run_single(a, ind);
    assert(seq![a, b].drop_last() =~= seq![a]);
}

proof fn lemma_run_triple(a: TokView, b: TokView, c: TokView, ind: nat)
    ensures
        run_text(seq![a, b, c], ind) == run_text(seq![a, b], ind)
            + super::display_token::tok_text(c, run_indent(seq![a, b], ind)),
        run_indent(seq![a, b, c], ind) == super::display_token::tok_indent(
            c,
            run_indent(seq![a, b], ind),
        ),
{
    assert(seq![a, b, c].drop_last() =~= seq![a, b]);
}

/// The separator tokens write the separator text, and keep the indentation.
proof fn lemma_run_sep(pretty: bool, ind: nat)
    ensures
        run_text(sep_toks(pretty), ind) == separator(pretty, ind),
        run_indent(sep_toks(pretty), ind) == ind,
{
    let t = if pretty {
        TokView::Newline
    } else {
        TokView::Whitespace(1)
    };
    lemma_run_pair(punct(seq![',']), t, ind);
    assert(spaces(1) =~= seq![' ']);
    assert(seq![','] + (seq!['\n'] + spaces(ind)) =~= seq![',', '\n'] + spaces(ind));
    assert(seq![','] + seq![' '] =~= seq![',', ' ']);
}

/// Writing the full token stream of a node, from any indentation, writes its rendering at that
/// indentation and ends at the same indentation.
pub proof fn lemma_run_flat<'a>(j: Json<'a>, pretty: bool, ind: nat)
    ensures
        run_text(toks_of(flat(j, pretty)), ind) == render(j, pretty, ind),
        run_indent(toks_of(flat(j, pretty)), ind) == ind,
    decreases j,
{
    match j {
        Json::Field(k, v) => {
            let colon = owned(j, seq![punct(seq![':', ' '])]);
            lemma_toks_of_concat(flat(*k, pretty) + colon, flat(*v, pretty));
            lemma_toks_of_concat(flat(*k, pretty), colon);
            lemma_toks_of_owned(j, seq![punct(seq![':', ' '])]);
            lemma_run_flat(*k, pretty, ind);
            lemma_run_flat(*v, pretty, ind);
            lemma_run_single(punct(seq![':', ' ']), ind);
            lemma_run_concat(toks_of(flat(*k, pretty)), seq![punct(seq![':', ' '])], ind);
            lemma_run_concat(
                toks_of(flat(*k, pretty)) + seq![punct(seq![':', ' '])],
                toks_of(flat(*v, pretty)),
                ind,
            );
        },
        Json::Array(cs) => {
            lemma_run_flat_list(j, cs@, pretty, child_indent(pretty, ind));
            lemma_run_bracketed(j, '[', ']', cs@, pretty, ind);
        },
        Json::Object(cs) => {
            lemma_run_flat_list(j, cs@, pretty, child_indent(pretty, ind));
            lemma_run_bracketed(j, '{', '}', cs@, pretty, ind);
        },
        _ => {
            let t = rec_tokens(j, pretty)[0]->Tok_0;
            lemma_toks_of_owned(j, seq![t]);
            lemma_run_single(t, ind);
        },
    }
}

proof fn lemma_run_bracketed<'a>(
    j: Json<'a>,
    open: char,
    close: char,
    cs: Seq<&'a Json<'a>>,
    pretty: bool,
    ind: nat,
)
    requires
        cs.len() == 0 ==> flat(j, pretty) == owned(j, seq![punct(seq![open, close])]),
        cs.len() > 0 ==> flat(j, pretty) == owned(j, open_toks(open, pretty)) + flat_list(
            j,
            cs,
            pretty,
        ) + owned(j, close_toks(close, pretty)),
        cs.len() == 0 ==> render(j, pretty, ind) == seq![open, close],
        cs.len() > 0 ==> render(j, pretty, ind) == bracketed(
            open,
            close,
            cs.len(),
            render_seq(cs, pretty, child_indent(pretty, ind)),
            pretty,
            ind,
        ),
        cs.len() > 0 ==> run_text(toks_of(flat_list(j, cs, pretty)), child_indent(pretty, ind))
            == render_seq(cs, pretty, child_indent(pretty, ind)),
        cs.len() > 0 ==> run_indent(toks_of(flat_list(j, cs, pretty)), child_indent(pretty, ind))
            == child_indent(pretty, ind),
    ensures
        run_text(toks_of(flat(j, pretty)), ind) == render(j, pretty, ind),
        run_indent(toks_of(flat(j, pretty)), ind) == ind,
{
    if cs.len() == 0 {
        lemma_toks_of_owned(j, seq![punct(seq![open, close])]);
        lemma_run_single(punct(seq![open, close]), ind);
    } else {
        let o = owned(j, open_toks(open, pretty));
        let l = flat_list(j, cs, pretty);
        let c = owned(j, close_toks(close, pretty));
        let ci = child_indent(pretty, ind);
        lemma_toks_of_concat(o + l, c);
        lemma_toks_of_concat(o, l);
        lemma_toks_of_owned(j, open_toks(open, pretty));
        lemma_toks_of_owned(j, close_toks(close, pretty));
        if pretty {
            lemma_run_pair(punct(seq![open]), TokView::Indent, ind);
            lemma_run_triple(punct(seq![open]), TokView::Indent, TokView::Newline, ind);
            lemma_run_pair(TokView::Dedent, TokView::Newline, ci);
            lemma_run_triple(TokView::Dedent, TokView::Newline, punct(seq![close]), ci);
            assert(run_text(open_toks(open, pretty), ind) =~= seq![open] + (seq!['\n'] + spaces(
                ci,
            )));
            assert(run_text(close_toks(close, pretty), ci) =~= (seq!['\n'] + spaces(ind)) + seq![
                close,
            ]);
        } else {
            lemma_run_single(punct(seq![open]), ind);
            lemma_run_single(punct(seq![close]), ind);
        }
        lemma_run_concat(toks_of(o), toks_of(l), ind);
        lemma_run_concat(toks_of(o) + toks_of(l), toks_of(c), ind);
        assert(run_text(toks_of(flat(j, pretty)), ind) =~= render(j, pretty, ind));
    }
}

proof fn lemma_run_flat_list<'a>(owner: Json<'a>, cs: Seq<&'a Json<'a>>, pretty: bool, ind: nat)
    ensures
        run_text(toks_of(flat_list(owner, cs, pretty)), ind) == render_seq(cs, pretty, ind),
        run_indent(toks_of(flat_list(owner, cs, pretty)), ind) == ind,
    decreases cs,
{
    if cs.len() == 0 {
        assert(toks_of(flat_list(owner, cs, pretty)) =~= Seq::<TokView>::empty());
    } else {
        let init = flat_list(owner, cs.drop_last(), pretty);
        let mid: Seq<(Json<'a>, TokView)> = if cs.len() > 1 {
            owned(owner, sep_toks(pretty))
        } else {
            Seq::empty()
        };
        let last = flat(*cs.last(), pretty);
        lemma_run_flat_list(owner, cs.drop_last(), pretty, ind);
        lemma_run_flat(*cs.last(), pretty, ind);
        lemma_toks_of_concat(init + mid, last);
        lemma_toks_of_concat(init, mid);
        if cs.len() > 1 {
            lemma_toks_of_owned(owner, sep_toks(pretty));
            lemma_run_sep(pretty, ind);
        } else {
            assert(toks_of(mid) =~= Seq::<TokView>::empty());
        }
        lemma_run_concat(toks_of(init), toks_of(mid), ind);
        lemma_run_concat(toks_of(init) + toks_of(mid), toks_of(last), ind);
        assert(run_text(toks_of(flat_list(owner, cs, pretty)), ind) =~= render_seq(cs, pretty, ind));
    }
}

/// The full token stream of a node starts and ends with text, and has no newline followed by
/// an indent or dedent.
pub proof fn lemma_flat_no_swaps<'a>(j: Json<'a>, pretty: bool)
    ensures
        toks_of(flat(j, pretty)).len() > 0,
        toks_of(flat(j, pretty))[0] is Text,
        toks_of(flat(j, pretty)).last() is Text,
        no_swaps(toks_of(flat(j, pretty))),
    decreases j,
{
    match j {
        Json::Field(k, v) => {
            let colon = owned(j, seq![punct(seq![':', ' '])]);
            lemma_toks_of_concat(flat(*k, pretty) + colon, flat(*v, pretty));
            lemma_toks_of_concat(flat(*k, pretty), colon);
            lemma_toks_of_owned(j, seq![punct(seq![':', ' '])]);
            lemma_flat_no_swaps(*k, pretty);
            lemma_flat_no_swaps(*v, pretty);
            let a = toks_of(flat(*k, pretty));
            let b = seq![punct(seq![':', ' '])];
            let c = toks_of(flat(*v, pretty));
            lemma_no_swaps_concat(a, b);
            lemma_no_swaps_concat(a + b, c);
            assert((a + b + c)[0] == a[0]);
            assert((a + b + c).last() == c.last());
        },
        Json::Array(cs) => {
            if cs@.len() > 0 {
                lemma_flat_list_no_swaps(j, cs@, pretty);
            }
            lemma_flat_bracketed_no_swaps(j, '[', ']', cs@, pretty);
        },
        Json::Object(cs) => {
            if cs@.len() > 0 {
                lemma_flat_list_no_swaps(j, cs@, pretty);
            }
            lemma_flat_bracketed_no_swaps(j, '{', '}', cs@, pretty);
        },
        _ => {
            let t = rec_tokens(j, pretty)[0]->Tok_0;
            lemma_toks_of_owned(j, seq![t]);
        },
    }
}

proof fn lemma_flat_bracketed_no_swaps<'a>(j: Json<'a>, open: char, close: char, cs: Seq<&'a Json<'a>>, pretty: bool)
    requires
        cs.len() == 0 ==> flat(j, pretty) == owned(j, seq![punct(seq![open, close])]),
        cs.len() > 0 ==> flat(j, pretty) == owned(j, open_toks(open, pretty)) + flat_list(
            j,
            cs,
            pretty,
        ) + owned(j, close_toks(close, pretty)),
        cs.len() > 0 ==> toks_of(flat_list(j, cs, pretty)).len() > 0 && toks_of(flat_list(j, cs, pretty))[0] is Text
            && toks_of(flat_list(j, cs, pretty)).last() is Text && no_swaps(toks_of(flat_list(j, cs, pretty))),
    ensures
        toks_of(flat(j, pretty)).len() > 0,
        toks_of(flat(j, pretty))[0] is Text,
        toks_of(flat(j, pretty)).last() is Text,
        no_swaps(toks_of(flat(j, pretty))),
{
    if cs.len() == 0 {
        lemma_toks_of_owned(j, seq![punct(seq![open, close])]);
    } else {
        let o = owned(j, open_toks(open, pretty));
        let l = flat_list(j, cs, pretty);
        let c = owned(j, close_toks(close, pretty));
        lemma_toks_of_owned(j, open_toks(open, pretty));
        lemma_toks_of_owned(j, close_toks(close, pretty));
        lemma_toks_of_concat(o + l, c);
        lemma_toks_of_concat(o, l);
        let a = toks_of(o);
        let b = toks_of(l);
        let d = toks_of(c);
        assert(no_swaps(a)) by {
            assert forall|i: int| 0 <= i < a.len() - 1 implies !#[trigger] swaps_at(a, i) by {}
        }
        assert(no_swaps(d)) by {
            assert forall|i: int| 0 <= i < d.len() - 1 implies !#[trigger] swaps_at(d, i) by {}
        }
        lemma_no_swaps_concat(a, b);
        lemma_no_swaps_concat(a + b, d);
        assert((a + b + d)[0] == a[0]);
        assert((a + b + d).last() == d.last());
    }
}

proof fn lemma_flat_list_no_swaps<'a>(owner: Json<'a>, cs: Seq<&'a Json<'a>>, pretty: bool)
    requires
        cs.len() > 0,
    ensures
        toks_of(flat_list(owner, cs, pretty)).len() > 0,
        toks_of(flat_list(owner, cs, pretty))[0] is Text,
        toks_of(flat_list(owner, cs, pretty)).last() is Text,
        no_swaps(toks_of(flat_list(owner, cs, pretty))),
    decreases cs,
{
    let init = flat_list(owner, cs.drop_last(), pretty);
    let mid: Seq<(Json<'a>, TokView)> = if cs.len() > 1 {
        owned(owner, sep_toks(pretty))
    } else {
        Seq::empty()
    };
    let last = flat(*cs.last(), pretty);
    lemma_flat_no_swaps(*cs.last(), pretty);
    lemma_toks_of_concat(init + mid, last);
    lemma_toks_of_concat(init, mid);
    let b = toks_of(last);
    if cs.len() > 1 {
        lemma_flat_list_no_swaps(owner, cs.drop_last(), pretty);
        lemma_toks_of_owned(owner, sep_toks(pretty));
        let a = toks_of(init);
        let m = sep_toks(pretty);
        assert(no_swaps(m)) by {
            assert forall|i: int| 0 <= i < m.len() - 1 implies !#[trigger] swaps_at(m, i) by {}
        }
        lemma_no_swaps_concat(a, m);
        lemma_no_swaps_concat(a + m, b);
        assert((a + m + b)[0] == a[0]);
        assert((a + m + b).last() == b.last());
    } else {
        assert(toks_of(init) =~= Seq::<TokView>::empty());
        assert(toks_of(mid) =~= Seq::<TokView>::empty());
        assert(toks_of(init) + toks_of(mid) + b =~= b);
    }
}

/// The text size of a non-empty bracketed list in pretty format.
proof fn lemma_bracketed_pretty_size(open: char, close: char, n: nat, body: Seq<char>, ind: nat)
    requires
        n > 0,
        open != '\n',
        close != '\n',
    ensures
        text_size(bracketed(open, close, n, body, true, ind)) == (newline_count(body) + 2, ind
            + 1),
        bracketed(open, close, n, body, true, ind).len() == body.len() + 2 * ind + 8,
{
    let a = seq![open, '\n'];
    let b = spaces(ind + 4);
    let c = seq!['\n'];
    let d = spaces(ind);
    let e = seq![close];
    lemma_text_size_char(open);
    lemma_text_size_char('\n');
    lemma_text_size_char(close);
    assert(a =~= seq![open] + seq!['\n']);
    lemma_text_size_concat(seq![open], seq!['\n']);
    lemma_text_size_concat(a, b);
    lemma_text_size_concat(a + b, body);
    lemma_text_size_concat(a + b + body, c);
    lemma_text_size_concat(a + b + body + c, d);
    lemma_text_size_concat(a + b + body + c + d, e);
    lemma_text_size_spaces((ind + 4) as nat);
    lemma_text_size_spaces(ind);
}

/// The number of lines of a node's pretty rendering does not depend on its indentation.
pub proof fn lemma_pretty_lines_indep<'a>(j: Json<'a>, i1: nat, i2: nat)
    ensures
        newline_count(render(j, true, i1)) == newline_count(render(j, true, i2)),
    decreases j,
{
    match j {
        Json::Field(k, v) => {
            lemma_pretty_lines_indep(*k, i1, i2);
            lemma_pretty_lines_indep(*v, i1, i2);
            lemma_text_size_concat(render(*k, true, i1), seq![':', ' ']);
            lemma_text_size_concat(render(*k, true, i1) + seq![':', ' '], render(*v, true, i1));
            lemma_text_size_concat(render(*k, true, i2), seq![':', ' ']);
            lemma_text_size_concat(render(*k, true, i2) + seq![':', ' '], render(*v, true, i2));
            assert(seq![':', ' '].drop_last() =~= seq![':']);
            assert(seq![':'].drop_last() =~= Seq::<char>::empty());
        },
        Json::Array(cs) => {
            if cs@.len() > 0 {
                lemma_pretty_seq_lines_indep(cs@, i1 + 4, i2 + 4);
                lemma_bracketed_pretty_size('[', ']', cs@.len(), render_seq(cs@, true, i1 + 4), i1);
                lemma_bracketed_pretty_size('[', ']', cs@.len(), render_seq(cs@, true, i2 + 4), i2);
            }
        },
        Json::Object(cs) => {
            if cs@.len() > 0 {
                lemma_pretty_seq_lines_indep(cs@, i1 + 4, i2 + 4);
                lemma_bracketed_pretty_size('{', '}', cs@.len(), render_seq(cs@, true, i1 + 4), i1);
                lemma_bracketed_pretty_size('{', '}', cs@.len(), render_seq(cs@, true, i2 + 4), i2);
            }
        },
        _ => {},
    }
}

proof fn lemma_pretty_seq_lines_indep<'a>(cs: Seq<&'a Json<'a>>, i1: nat, i2: nat)
    ensures
        newline_count(render_seq(cs, true, i1)) == newline_count(render_seq(cs, true, i2)),
    decreases cs,
{
    if cs.len() > 0 {
        lemma_pretty_seq_lines_indep(cs.drop_last(), i1, i2);
        lemma_pretty_lines_indep(*cs.last(), i1, i2);
        lemma_seq_lines_step(cs, true, i1);
        lemma_seq_lines_step(cs, true, i2);
    }
}

/// The lines of a rendered list: those of the list without its last element, those of the
/// separator and those of the last element.
proof fn lemma_seq_lines_step<'a>(cs: Seq<&'a Json<'a>>, pretty: bool, ind: nat)
    requires
        cs.len() > 0,
    ensures
        newline_count(render_seq(cs, pretty, ind)) == newline_count(
            render_seq(cs.drop_last(), pretty, ind),
        ) + (if cs.len() > 1 && pretty {
            1nat
        } else {
            0nat
        }) + newline_count(render(*cs.last(), pretty, ind)),
        text_size(render_seq(cs, pretty, ind)) == size_concat(
            size_concat(
                text_size(render_seq(cs.drop_last(), pretty, ind)),
                text_size(
                    if cs.len() > 1 {
                        separator(pretty, ind)
                    } else {
                        Seq::empty()
                    },
                ),
            ),
            text_size(render(*cs.last(), pretty, ind)),
        ),
{
    let init = render_seq(cs.drop_last(), pretty, ind);
    let mid = if cs.len() > 1 {
        separator(pretty, ind)
    } else {
        Seq::empty()
    };
    lemma_text_size_concat(init, mid);
    lemma_text_size_concat(init + mid, render(*cs.last(), pretty, ind));
    if cs.len() > 1 {
        lemma_separator_size(pretty, ind);
    }
}

/// The text size of a separator.
proof fn lemma_separator_size(pretty: bool, ind: nat)
    ensures
        text_size(separator(pretty, ind)) == if pretty {
            (1nat, ind)
        } else {
            (0nat, 2nat)
        },
        separator(pretty, ind).len() == if pretty {
            ind + 2
        } else {
            2
        },
{
    lemma_text_size_spaces(ind);
    lemma_text_size_char(',');
    lemma_text_size_char('\n');
    lemma_text_size_char(' ');
    lemma_text_size_concat(seq![','], seq!['\n']);
    lemma_text_size_concat(seq![','], seq![' ']);
    assert(seq![',', '\n'] =~= seq![','] + seq!['\n']);
    assert(seq![',', ' '] =~= seq![','] + seq![' ']);
    lemma_text_size_concat(seq![',', '\n'], spaces(ind));
}

/// A deeper indentation never makes a rendering shorter.
pub proof fn lemma_render_len_mono<'a>(j: Json<'a>, pretty: bool, i1: nat, i2: nat)
    requires
        i1 <= i2,
    ensures
        render(j, pretty, i1).len() <= render(j, pretty, i2).len(),
    decreases j,
{
    match j {
        Json::Field(k, v) => {
            lemma_render_len_mono(*k, pretty, i1, i2);
            lemma_render_len_mono(*v, pretty, i1, i2);
        },
        Json::Array(cs) => {
            lemma_render_seq_len_mono(cs@, pretty, child_indent(pretty, i1), child_indent(pretty, i2));
        },
        Json::Object(cs) => {
            lemma_render_seq_len_mono(cs@, pretty, child_indent(pretty, i1), child_indent(pretty, i2));
        },
        _ => {},
    }
}

proof fn lemma_render_seq_len_mono<'a>(cs: Seq<&'a Json<'a>>, pretty: bool, i1: nat, i2: nat)
    requires
        i1 <= i2,
    ensures
        render_seq(cs, pretty, i1).len() <= render_seq(cs, pretty, i2).len(),
    decreases cs,
{
    if cs.len() > 0 {
        lemma_render_seq_len_mono(cs.drop_last(), pretty, i1, i2);
        lemma_render_len_mono(*cs.last(), pretty, i1, i2);
    }
}

/// Each element of a list is rendered within the list's rendering, and so is each prefix.
proof fn lemma_render_seq_parts<'a>(cs: Seq<&'a Json<'a>>, pretty: bool, ind: nat, k: int)
    requires
        0 <= k <= cs.len(),
    ensures
        render_seq(cs.take(k), pretty, ind).len() <= render_seq(cs, pretty, ind).len(),
        k < cs.len() ==> render(*cs[k], pretty, ind).len() <= render_seq(cs, pretty, ind).len(),
    decreases cs.len(),
{
    if k == cs.len() {
        assert(cs.take(k) =~= cs);
    } else {
        lemma_render_seq_parts(cs.drop_last(), pretty, ind, k);
        assert(cs.drop_last().take(k) =~= cs.take(k));
        if k < cs.len() - 1 {
            assert(cs.drop_last()[k] == cs[k]);
        }
    }
}

/// The sum, over a list of nodes, of the lines of their pretty renderings plus one each.
pub open spec fn lines_sum<'a>(cs: Seq<&'a Json<'a>>) -> nat
    decreases cs.len(),
{
    if cs.len() == 0 {
        0
    } else {
        lines_sum(cs.drop_last()) + newline_count(render(*cs.last(), true, 0)) + 1
    }
}

proof fn lemma_lines_sum_prefix<'a>(cs: Seq<&'a Json<'a>>, k: int)
    requires
        0 <= k <= cs.len(),
    ensures
        lines_sum(cs.take(k)) <= lines_sum(cs),
    decreases cs.len(),
{
    if k == cs.len() {
        assert(cs.take(k) =~= cs);
    } else {
        lemma_lines_sum_prefix(cs.drop_last(), k);
        assert(cs.drop_last().take(k) =~= cs.take(k));
    }
}

/// A non-empty list's pretty rendering has one line fewer than its `lines_sum`.
proof fn lemma_pretty_seq_lines<'a>(cs: Seq<&'a Json<'a>>, ind: nat)
    requires
        cs.len() > 0,
    ensures
        newline_count(render_seq(cs, true, ind)) + 1 == lines_sum(cs),
    decreases cs.len(),
{
    lemma_seq_lines_step(cs, true, ind);
    lemma_pretty_lines_indep(*cs.last(), ind, 0);
    if cs.len() > 1 {
        lemma_pretty_seq_lines(cs.drop_last(), ind);
    } else {
        assert(cs.drop_last().len() == 0);
        assert(render_seq(cs.drop_last(), true, ind) =~= Seq::<char>::empty());
        assert(newline_count(Seq::<char>::empty()) == 0);
        assert(lines_sum(cs.drop_last()) == 0);
    }
}

/// The lines of the tree view of a node at nesting depth `depth`: its display name indented by
/// two spaces per level, then the lines of its children one level deeper.
pub open spec fn tree_lines<'a>(j: Json<'a>, depth: nat) -> Seq<char>
    decreases j,
{
    spaces(2 * depth) + spec_display_name(j) + seq!['\n'] + match j {
        Json::Field(k, v) => tree_lines(*k, depth + 1) + tree_lines(*v, depth + 1),
        Json::Array(cs) => tree_lines_seq(cs@, depth + 1),
        Json::Object(cs) => tree_lines_seq(cs@, depth + 1),
        _ => Seq::empty(),
    }
}

/// The tree view lines of a list of nodes at nesting depth `depth`.
pub open spec fn tree_lines_seq<'a>(cs: Seq<&'a Json<'a>>, depth: nat) -> Seq<char>
    decreases cs,
{
    if cs.len() == 0 {
        Seq::empty()
    } else {
        tree_lines_seq(cs.drop_last(), depth) + tree_lines(*cs.last(), depth)
    }
}

/// The tree view lines of a node's children.
pub open spec fn children_lines<'a>(j: Json<'a>, depth: nat) -> Seq<char> {
    tree_lines_seq(spec_children(j), depth)
}

proof fn lemma_children_lines<'a>(j: Json<'a>, depth: nat)
    ensures
        tree_lines(j, depth) == spaces(2 * depth) + spec_display_name(j) + seq!['\n']
            + children_lines(j, depth + 1),
{
    if let Json::Field(k, v) = j {
        let cs = seq![k, v];
        assert(cs.drop_last() =~= seq![k]);
        assert(seq![k].drop_last() =~= Seq::<&'a Json<'a>>::empty());
        assert(tree_lines_seq(seq![k].drop_last(), depth + 1) =~= Seq::<char>::empty());
        assert(tree_lines_seq(seq![k], depth + 1) =~= tree_lines(*k, depth + 1));
        assert(tree_lines_seq(cs, depth + 1) =~= tree_lines(*k, depth + 1) + tree_lines(*v, depth + 1));
    }
    if j is True || j is False || j is Null || j is Str {
        assert(children_lines(j, depth + 1) =~= Seq::<char>::empty());
    }
}

/// Every child of a node is smaller than the node.
proof fn lemma_child_decreases<'a>(j: Json<'a>, i: int)
    requires
        0 <= i < spec_children(j).len(),
    ensures
        decreases_to!(j => *spec_children(j)[i]),
{
    match j {
        Json::Array(cs) => {
            assert(decreases_to!(j => cs));
            assert(decreases_to!(cs => cs@));
            assert(decreases_to!(cs@ => cs@[i]));
        },
        Json::Object(cs) => {
            assert(decreases_to!(j => cs));
            assert(decreases_to!(cs => cs@));
            assert(decreases_to!(cs@ => cs@[i]));
        },
        _ => {},
    }
}

/// Recursively writes the tree view of a node and all its children to a given [`String`].
/// `indentation_string` holds the indentation of the node's line, and is the same afterwards.
fn write_tree_view_recursive<'arena>(
    node: &'arena Json<'arena>,
    string: &mut String,
    indentation_string: &mut String,
    Ghost(depth): Ghost<nat>,
)
    requires
        old(indentation_string)@ == spaces(2 * depth),
    ensures
        final(string)@ == old(string)@ + tree_lines(*node, depth),
        final(indentation_string)@ == old(indentation_string)@,
    decreases node,
{
    // Push the node's display name with indentation and a newline
    string.append(indentation_string.as_str());
    string.append(node.display_name().as_str());
    string_push(string, '\n');
    // Indent by two spaces
    proof {
        reveal_strlit("  ");
    }
    indentation_string.append("  ");
    assert(indentation_string@ =~= spaces(2 * (depth + 1)));
    let ghost head = string@;
    // Write all the children
    let children = node.children();
    let mut i: usize = 0;
    while i < children.len()
        invariant
            i <= children@.len(),
            children@ == spec_children(*node),
            indentation_string@ == spaces(2 * (depth + 1)),
            string@ == head + tree_lines_seq(children@.take(i as int), depth + 1),
        decreases children@.len() - i,
    {
        proof {
            lemma_child_decreases(*node, i as int);
            assert(children@.take(i + 1).drop_last() =~= children@.take(i as int));
        }
        write_tree_view_recursive(children[i], string, indentation_string, Ghost(depth + 1));
        i = i + 1;
    }
    // Reset indentation
    string_pop(indentation_string);
    string_pop(indentation_string);
    proof {
        assert(indentation_string@ =~= spaces(2 * depth));
        assert(children@.take(i as int) =~= children@);
        lemma_children_lines(*node, depth);
        assert(string@ =~= old(string)@ + tree_lines(*node, depth));
    }
}

/// `f` is an object field whose key is the empty string and whose value is `value`: the field
/// that holds a value inserted into an object.
pub open spec fn is_fresh_field<'a>(f: Json<'a>, value: &'a Json<'a>) -> bool {
    f matches Json::Field(k, v) && (*k matches Json::Str(s) && s@.len() == 0) && v == value
}

/// The size of a text of one line.
proof fn lemma_text_size_of_word(w: Seq<char>)
    requires
        forall|i: int| 0 <= i < w.len() ==> w[i] != '\n',
    ensures
        text_size(w) == (0nat, w.len()),
    decreases w.len(),
{
    if w.len() > 0 {
        lemma_text_size_of_word(w.drop_last());
    }
}

/// The direct children of a node.
pub open spec fn spec_children<'a>(j: Json<'a>) -> Seq<&'a Json<'a>> {
    match j {
        Json::Array(cs) => cs@,
        Json::Object(cs) => cs@,
        Json::Field(k, v) => seq![k, v],
        _ => Seq::empty(),
    }
}

/// `a` and `b` are the same node: same variant, same string contents and the same children.
pub open spec fn same_node<'a>(a: Json<'a>, b: Json<'a>) -> bool {
    match (a, b) {
        (Json::True, Json::True) => true,
        (Json::False, Json::False) => true,
        (Json::Null, Json::Null) => true,
        (Json::Str(x), Json::Str(y)) => x@ == y@,
        (Json::Array(x), Json::Array(y)) => x@ == y@,
        (Json::Object(x), Json::Object(y)) => x@ == y@,
        (Json::Field(k1, v1), Json::Field(k2, v2)) => k1 == k2 && v1 == v2,
        _ => false,
    }
}

/// `a` and `b` are nodes of the same kind.
pub open spec fn same_kind<'a>(a: Json<'a>, b: Json<'a>) -> bool {
    match (a, b) {
        (Json::True, Json::True) => true,
        (Json::False, Json::False) => true,
        (Json::Null, Json::Null) => true,
        (Json::Str(x), Json::Str(y)) => x@ == y@,
        (Json::Array(_), Json::Array(_)) => true,
        (Json::Object(_), Json::Object(_)) => true,
        (Json::Field(_, _), Json::Field(_, _)) => true,
        _ => false,
    }
}

/// The display name of a node, as shown in tree views.
pub open spec fn spec_display_name<'a>(j: Json<'a>) -> Seq<char> {
    match j {
        Json::True => seq!['t', 'r', 'u', 'e'],
        Json::False => seq!['f', 'a', 'l', 's', 'e'],
        Json::Null => seq!['n', 'u', 'l', 'l'],
        Json::Array(_) => seq!['a', 'r', 'r', 'a', 'y'],
        Json::Object(_) => seq!['o', 'b', 'j', 'e', 'c', 't'],
        Json::Field(_, _) => seq!['f', 'i', 'e', 'l', 'd'],
        Json::Str(s) => quoted(s@),
    }
}

/// The chars which a user can type to create a new node.
pub open spec fn node_chars() -> Seq<char> {
    seq!['t', 'f', 'n', 'a', 'o', 's']
}

/// `n` is the fresh node that the user creates by typing `c`.
pub open spec fn created_from_char<'a>(n: Json<'a>, c: char) -> bool {
    if c == 't' {
        n is True
    } else if c == 'f' {
        n is False
    } else if c == 'n' {
        n is Null
    } else if c == 'a' {
        n matches Json::Array(cs) && cs@.len() == 0
    } else if c == 'o' {
        n matches Json::Object(cs) && cs@.len() == 0
    } else if c == 's' {
        n matches Json::Str(s) && s@.len() == 0
    } else {
        false
    }
}

/// Whether a node can hold children inserted by the user.
pub open spec fn can_insert_into<'a>(j: Json<'a>) -> bool {
    j is Array || j is Object
}

/// The views of a sequence of recursive tokens.
pub open spec fn rec_views<'a>(v: Seq<RecTok<'a, Json<'a>>>) -> Seq<RecTokView<Json<'a>>> {
    v.map_values(|t: RecTok<'a, Json<'a>>| t@)
}

/// The views of a stream of `(owner, token)` pairs.
pub open spec fn pair_views<'a>(v: Seq<(&'a Json<'a>, DisplayToken)>) -> Seq<(Json<'a>, TokView)> {
    v.map_values(|p: (&'a Json<'a>, DisplayToken)| (*p.0, p.1@))
}

/// Every child reference among the tokens of a list is one of the list's children.
proof fn lemma_rec_list_children<'a>(cs: Seq<&'a Json<'a>>, pretty: bool, i: int)
    requires
        0 <= i < rec_list(cs, pretty).len(),
        rec_list(cs, pretty)[i] is Child,
    ensures
        exists|m: int| 0 <= m < cs.len() && rec_list(cs, pretty)[i]->Child_0 == *cs[m],
    decreases cs.len(),
{
    let init = rec_list(cs.drop_last(), pretty);
    let mid: Seq<RecTokView<Json<'a>>> = if cs.len() > 1 {
        own_toks(sep_toks(pretty))
    } else {
        Seq::empty()
    };
    if i < init.len() {
        lemma_rec_list_children(cs.drop_last(), pretty, i);
        let m = choose|m: int| 0 <= m < cs.drop_last().len() && init[i]->Child_0 == *cs.drop_last()[m];
        assert(cs.drop_last()[m] == cs[m]);
    } else if i < init.len() + mid.len() {
        assert((init + mid)[i] == mid[i - init.len()]);
    } else {
        assert(rec_list(cs, pretty)[i] == RecTokView::Child(*cs.last()));
        assert(cs.last() == cs[cs.len() - 1]);
    }
}

/// Every child reference among the tokens of a node is a child of the node.
proof fn lemma_rec_tokens_children<'a>(j: Json<'a>, pretty: bool, i: int)
    requires
        0 <= i < rec_tokens(j, pretty).len(),
        rec_tokens(j, pretty)[i] is Child,
    ensures
        decreases_to!(j => rec_tokens(j, pretty)[i]->Child_0),
{
    let x = rec_tokens(j, pretty)[i]->Child_0;
    match j {
        Json::Field(k, v) => {
            assert(x == *k || x == *v);
        },
        Json::Array(cs) => {
            lemma_bracketed_children('[', ']', cs, pretty, i);
            let m = choose|m: int| 0 <= m < cs@.len() && x == *cs@[m];
            assert(decreases_to!(j => cs));
            assert(decreases_to!(cs => cs@));
            assert(decreases_to!(cs@ => cs@[m]));
        },
        Json::Object(cs) => {
            lemma_bracketed_children('{', '}', cs, pretty, i);
            let m = choose|m: int| 0 <= m < cs@.len() && x == *cs@[m];
            assert(decreases_to!(j => cs));
            assert(decreases_to!(cs => cs@));
            assert(decreases_to!(cs@ => cs@[m]));
        },
        _ => {
            assert(rec_tokens(j, pretty) =~= own_toks(seq![rec_tokens(j, pretty)[0]->Tok_0]));
        },
    }
}

proof fn lemma_bracketed_children<'a>(
    open: char,
    close: char,
    cs: Vec<&'a Json<'a>>,
    pretty: bool,
    i: int,
)
    requires
        0 <= i < rec_bracketed(open, close, cs@, pretty).len(),
        rec_bracketed(open, close, cs@, pretty)[i] is Child,
    ensures
        exists|m: int|
            0 <= m < cs@.len() && rec_bracketed(open, close, cs@, pretty)[i]->Child_0 == *cs@[m],
{
    let r = rec_bracketed(open, close, cs@, pretty);
    if cs@.len() == 0 {
        assert(r[i] == RecTokView::<Json<'a>>::Tok(punct(seq![open, close])));
    } else {
        let a: Seq<RecTokView<Json<'a>>> = own_toks(open_toks(open, pretty));
        let b = rec_list(cs@, pretty);
        let c: Seq<RecTokView<Json<'a>>> = own_toks(close_toks(close, pretty));
        if i < a.len() {
            assert(r[i] == a[i]);
        } else if i < a.len() + b.len() {
            assert(r[i] == b[i - a.len()]);
            lemma_rec_list_children(cs@, pretty, i - a.len());
        } else {
            assert(r[i] == c[i - a.len() - b.len()]);
        }
    }
}

/// Encloses a string's contents in double quotes.
fn quote(content: &String) -> (r: String)
    ensures
        r@ == quoted(content@),
{
    proof {
        reveal_strlit("\"");
    }
    let mut r = string_of("\"");
    r.append(content.as_str());
    r.append("\"");
    r
}

/// The single token of a leaf node.
fn one_token<'arena>(
    text: &'static str,
    syntax_category: &'static str,
    Ghost(expected): Ghost<Seq<char>>,
) -> (tokens: Vec<RecTok<'arena, Json<'arena>>>)
    requires
        text@ == expected,
    ensures
        rec_views(tokens@) == own_toks::<Json<'arena>>(
            seq![TokView::Text(expected, syntax_category@)],
        ),
{
    let t = RecTok::from_str(text, syntax_category);
    let tokens = vec![t];
    assert(rec_views(tokens@) =~= own_toks::<Json<'arena>>(
        seq![TokView::Text(expected, syntax_category@)],
    ));
    tokens
}

/// Appends the tokens of a list of children, separated by commas.
fn push_list_tokens<'arena>(
    tokens: &mut Vec<RecTok<'arena, Json<'arena>>>,
    children: &Vec<&'arena Json<'arena>>,
    is_pretty: bool,
)
    ensures
        rec_views(final(tokens)@) == rec_views(old(tokens)@) + rec_list(children@, is_pretty),
{
    let mut i: usize = 0;
    while i < children.len()
        invariant
            i <= children@.len(),
            rec_views(tokens@) == rec_views(old(tokens)@) + rec_list(
                children@.take(i as int),
                is_pretty,
            ),
        decreases children@.len() - i,
    {
        let ghost before = tokens@;
        proof {
            reveal_strlit(",");
            assert(children@.take(i + 1).drop_last() =~= children@.take(i as int));
            assert(children@.take(i + 1).last() == children@[i as int]);
        }
        // Push the delimiting
        if i > 0 {
            let comma = RecTok::from_str(",", DEFAULT);
            assert(","@ =~= seq![',']);
            assert(comma@ == RecTokView::<Json<'arena>>::Tok(punct(seq![','])));
            tokens.push(comma);
            if is_pretty {
                tokens.push(RecTok::Tok(DisplayToken::Newline));
            } else {
                tokens.push(RecTok::Tok(DisplayToken::Whitespace(1)));
            }
            let ghost sep = own_toks::<Json<'arena>>(sep_toks(is_pretty));
            assert(sep[0] == RecTokView::<Json<'arena>>::Tok(punct(seq![','])));
            assert(sep[1] == RecTokView::<Json<'arena>>::Tok(
                if is_pretty {
                    TokView::Newline
                } else {
                    TokView::Whitespace(1)
                },
            ));
            assert(rec_views(tokens@) =~= rec_views(before) + sep);
        } else {
            assert(rec_views(tokens@) =~= rec_views(before));
        }
        let ghost mid = tokens@;
        // Push the single child
        tokens.push(RecTok::Child(children[i]));
        assert(rec_views(tokens@) =~= rec_views(mid) + seq![RecTokView::Child(*children@[i as int])]);
        i = i + 1;
        assert(rec_views(tokens@) =~= rec_views(old(tokens)@) + rec_list(
            children@.take(i as int),
            is_pretty,
        ));
    }
    assert(children@.take(i as int) =~= children@);
}

/// The tokens of an array or object: its brackets around its children.
fn bracketed_tokens<'arena>(
    children: &Vec<&'arena Json<'arena>>,
    open: &'static str,
    close: &'static str,
    both: &'static str,
    is_pretty: bool,
    Ghost(o): Ghost<char>,
    Ghost(c): Ghost<char>,
) -> (tokens: Vec<RecTok<'arena, Json<'arena>>>)
    requires
        open@ == seq![o],
        close@ == seq![c],
        both@ == seq![o, c],
    ensures
        rec_views(tokens@) == rec_bracketed(o, c, children@, is_pretty),
{
    // Special case: if there are no children, render as the two brackets together
    if children.len() == 0 {
        let tokens = vec![RecTok::from_str(both, DEFAULT)];
        assert(rec_views(tokens@) =~= rec_bracketed(o, c, children@, is_pretty));
        return tokens;
    }
    let mut tokens: Vec<RecTok<'arena, Json<'arena>>> = Vec::new();
    // Push some initial tokens
    tokens.push(RecTok::from_str(open, DEFAULT));
    if is_pretty {
        tokens.push(RecTok::Tok(DisplayToken::Indent));
        tokens.push(RecTok::Tok(DisplayToken::Newline));
    }
    assert(rec_views(tokens@) =~= own_toks(open_toks(o, is_pretty)));
    // Push the children, delimited by commas
    push_list_tokens(&mut tokens, children, is_pretty);
    let ghost mid = tokens@;
    // Push the closing bracket
    if is_pretty {
        tokens.push(RecTok::Tok(DisplayToken::Dedent));
        tokens.push(RecTok::Tok(DisplayToken::Newline));
    }
    tokens.push(RecTok::from_str(close, DEFAULT));
    assert(rec_views(tokens@) =~= rec_views(mid) + own_toks(close_toks(c, is_pretty)));
    tokens
}

/// Copies a string slice into a new `String`.
fn string_of(s: &str) -> (r: String)
    ensures
        r@ == s@,
{
    String::from_str(s)
}

impl<'arena> Clone for Json<'arena> {
    fn clone(&self) -> (r: Self)
        ensures
            same_node(r, *self),
    {
        match self {
            Json::True => Json::True,
            Json::False => Json::False,
            Json::Null => Json::Null,
            Json::Array(cs) => Json::Array(cs.clone()),
            Json::Object(cs) => Json::Object(cs.clone()),
            Json::Field(k, v) => Json::Field(k, v),
            Json::Str(s) => Json::Str(s.clone()),
        }
    }
}

impl<'arena> Default for Json<'arena> {
    fn default() -> (r: Json<'arena>)
        ensures
            r matches Json::Object(cs) && cs@.len() == 0,
    {
        Json::Object(Vec::new())
    }
}

impl<'arena> Json<'arena> {
    /// Get the direct children of this node.
    pub fn children(&self) -> (r: Vec<&'arena Json<'arena>>)
        ensures
            r@ == spec_children(*self),
    {
        match self {
            Json::Array(cs) => cs.clone(),
            Json::Object(cs) => cs.clone(),
            Json::Field(k, v) => {
                let mut r = Vec::new();
                r.push(*k);
                r.push(*v);
                r
            },
            _ => Vec::new(),
        }
    }

    /// Returns the items that need to be rendered to the screen to make up this node: its own
    /// tokens, and references to the children whose tokens go in between.
    pub fn display_tokens_rec(&'arena self, format_style: &JsonFormat) -> (tokens: Vec<
        RecTok<'arena, Json<'arena>>,
    >)
        ensures
            rec_views(tokens@) == rec_tokens(*self, *format_style == JsonFormat::Pretty),
    {
        let is_pretty = *format_style == JsonFormat::Pretty;
        proof {
            reveal_strlit("true");
            reveal_strlit("false");
            reveal_strlit("null");
            reveal_strlit(": ");
            reveal_strlit("[");
            reveal_strlit("]");
            reveal_strlit("[]");
            reveal_strlit("{");
            reveal_strlit("}");
            reveal_strlit("{}");
            assert(": "@ =~= seq![':', ' ']);
            assert("["@ =~= seq!['[']);
            assert("]"@ =~= seq![']']);
            assert("[]"@ =~= seq!['[', ']']);
            assert("{"@ =~= seq!['{']);
            assert("}"@ =~= seq!['}']);
            assert("{}"@ =~= seq!['{', '}']);
        }
        match self {
            Json::True => {
                let ghost e = seq!['t', 'r', 'u', 'e'];
                assert("true"@ =~= e);
                one_token("true", CONST, Ghost(e))
            },
            Json::False => {
                let ghost e = seq!['f', 'a', 'l', 's', 'e'];
                assert("false"@ =~= e);
                one_token("false", CONST, Ghost(e))
            },
            Json::Null => {
                let ghost e = seq!['n', 'u', 'l', 'l'];
                assert("null"@ =~= e);
                one_token("null", KEYWORD, Ghost(e))
            },
            Json::Str(string) => {
                let t = vec![RecTok::from_string(quote(string), LITERAL)];
                assert(rec_views(t@) =~= rec_tokens(*self, is_pretty));
                t
            },
            Json::Field(key, value) => {
                let t = vec![
                    RecTok::Child(*key),
                    RecTok::from_str(": ", DEFAULT),
                    RecTok::Child(*value),
                ];
                assert(rec_views(t@) =~= rec_tokens(*self, is_pretty));
                t
            },
            Json::Array(children) => bracketed_tokens(
                children,
                "[",
                "]",
                "[]",
                is_pretty,
                Ghost('['),
                Ghost(']'),
            ),
            Json::Object(fields) => bracketed_tokens(
                fields,
                "{",
                "}",
                "{}",
                is_pretty,
                Ghost('{'),
                Ghost('}'),
            ),
        }
    }

    /// Builds the stream of [`DisplayToken`]s representing this node, where each token is
    /// paired with a reference to the node that owns it.  This extra data is used by the
    /// rendering code to determine which pieces of text correspond to nodes that are selected.
    pub fn display_tokens(&'arena self, format_style: &JsonFormat) -> (tok_pairs: Vec<
        (&'arena Json<'arena>, DisplayToken),
    >)
        ensures
            pair_views(tok_pairs@) == flat(*self, *format_style == JsonFormat::Pretty),
        decreases self,
    {
        let ghost pretty = *format_style == JsonFormat::Pretty;
        let rec = self.display_tokens_rec(format_style);
        let ghost rv = rec_views(rec@);
        let mut tok_pairs: Vec<(&'arena Json<'arena>, DisplayToken)> = Vec::new();
        let mut i: usize = 0;
        while i < rec.len()
            invariant
                i <= rec@.len(),
                rv == rec_views(rec@),
                rv == rec_tokens(*self, pretty),
                pretty == (*format_style == JsonFormat::Pretty),
                pair_views(tok_pairs@) == expand(*self, rv.take(i as int), pretty),
            decreases rec@.len() - i,
        {
            let ghost before = tok_pairs@;
            proof {
                assert(rv.take(i + 1).drop_last() =~= rv.take(i as int));
                assert(rv.take(i + 1).last() == rv[i as int]);
            }
            match &rec[i] {
                RecTok::Tok(t) => {
                    tok_pairs.push((self, t.clone_token()));
                    assert(pair_views(tok_pairs@) =~= pair_views(before) + seq![(*self, t@)]);
                },
                RecTok::Child(c) => {
                    proof {
                        lemma_rec_tokens_children(*self, pretty, i as int);
                    }
                    let mut sub = c.display_tokens(format_style);
                    tok_pairs.append(&mut sub);
                    assert(pair_views(tok_pairs@) =~= pair_views(before) + flat(**c, pretty));
                },
            }
            i = i + 1;
        }
        proof {
            assert(rv.take(i as int) =~= rv);
            lemma_expand_rec_tokens(*self, pretty);
        }
        tok_pairs
    }

    /// Writes the display tokens of this node to `string`, each line starting with what
    /// `indentation_string` holds, which its indents and dedents change (see
    /// [`write_tokens_with_indent`](super::display_token::write_tokens_with_indent)).  From
    /// lines starting with spaces, that writes the rendering of the node and leaves the
    /// indentation as it was.
    pub fn write_tokens_with_indent(
        &'arena self,
        string: &mut String,
        indentation_string: &mut String,
        format_style: &JsonFormat,
    )
        ensures
            final(string)@ == old(string)@ + stream_text(
                toks_of(flat(*self, *format_style == JsonFormat::Pretty)),
                old(indentation_string)@,
            ),
            final(indentation_string)@ == stream_indent(
                toks_of(flat(*self, *format_style == JsonFormat::Pretty)),
                old(indentation_string)@,
            ),
            forall|k: nat|
                old(indentation_string)@ == #[trigger] spaces(k) ==> final(string)@ == old(string)@ + render(
                    *self,
                    *format_style == JsonFormat::Pretty,
                    k,
                ) && final(indentation_string)@ == old(indentation_string)@,
    {
        let ghost pretty = *format_style == JsonFormat::Pretty;
        let toks = self.display_tokens(format_style);
        let ghost views = toks_of(toks@.map_values(|p: (&'arena Json<'arena>, DisplayToken)| (*p.0, p.1@)));
        proof {
            assert(toks@.map_values(|p: (&'arena Json<'arena>, DisplayToken)| (*p.0, p.1@)) =~= pair_views(toks@));
            lemma_flat_no_swaps(*self, pretty);
            lemma_no_swaps_fixed(views, 0);
        }
        super::display_token::write_tokens_with_indent(&toks, string, indentation_string);
        proof {
            assert forall|k: nat| old(indentation_string)@ == #[trigger] spaces(k) implies string@ == old(string)@
                + render(*self, pretty, k) && indentation_string@ == old(indentation_string)@ by {
                lemma_stream_spaces(views, k);
                lemma_run_flat(*self, pretty, k);
            }
        }
    }

    /// Writes the textual representation of this node to a string.
    pub fn write_text(&'arena self, string: &mut String, format_style: &JsonFormat)
        requires
            INDENT_WIDTH * flat(*self, *format_style == JsonFormat::Pretty).len() <= usize::MAX,
        ensures
            final(string)@ == old(string)@ + render(*self, *format_style == JsonFormat::Pretty, 0),
    {
        let ghost pretty = *format_style == JsonFormat::Pretty;
        let tokens = self.display_tokens(format_style);
        proof {
            assert(tokens@.len() == flat(*self, pretty).len());
            assert(toks_of(pair_views(tokens@)) =~= toks_of(
                tokens@.map_values(|p: (&'arena Json<'arena>, DisplayToken)| (*p.0, p.1@)),
            ));
            lemma_run_flat(*self, pretty, 0);
        }
        write_token_stream(&tokens, string);
    }

    /// Makes a [`String`] of the textual representation of this node, or `None` when the node
    /// has more display tokens than an indentation counter can count (a machine limit that
    /// [`Json::to_text`] requires to hold).
    pub fn try_to_text(&'arena self, format_style: &JsonFormat) -> (text: Option<String>)
        ensures
            text is Some <==> INDENT_WIDTH * flat(*self, *format_style == JsonFormat::Pretty).len()
                <= usize::MAX,
            text matches Some(t) ==> t@ == render(*self, *format_style == JsonFormat::Pretty, 0),
    {
        let ghost pretty = *format_style == JsonFormat::Pretty;
        let tokens = self.display_tokens(format_style);
        if tokens.len() > usize::MAX / INDENT_WIDTH {
            return None;
        }
        let mut s = String::new();
        proof {
            assert(tokens@.len() == flat(*self, pretty).len());
            assert(toks_of(pair_views(tokens@)) =~= toks_of(
                tokens@.map_values(|p: (&'arena Json<'arena>, DisplayToken)| (*p.0, p.1@)),
            ));
            lemma_run_flat(*self, pretty, 0);
        }
        write_token_stream(&tokens, &mut s);
        assert(s@ =~= render(*self, pretty, 0));
        Some(s)
    }

    /// Makes a [`String`] of the textual representation of this node.
    pub fn to_text(&'arena self, format_style: &JsonFormat) -> (text: String)
        requires
            INDENT_WIDTH * flat(*self, *format_style == JsonFormat::Pretty).len() <= usize::MAX,
        ensures
            text@ == render(*self, *format_style == JsonFormat::Pretty, 0),
    {
        let mut s = String::new();
        self.write_text(&mut s, format_style);
        assert(s@ =~= render(*self, *format_style == JsonFormat::Pretty, 0));
        s
    }

    /// Determines the space on the screen occupied by this node: the size of its text when the
    /// node starts a line.  This does not depend on the node's indentation (see
    /// [`lemma_pretty_lines_indep`]).
    pub fn size(&self, format_style: &JsonFormat) -> (size: Size)
        requires
            render(*self, *format_style == JsonFormat::Pretty, 0).len() <= usize::MAX,
        ensures
            size@ == text_size(render(*self, *format_style == JsonFormat::Pretty, 0)),
        decreases self, 1nat,
    {
        let is_pretty = *format_style == JsonFormat::Pretty;
        let ghost total = render(*self, is_pretty, 0);
        proof {
            lemma_text_size_fits(total);
        }
        match self {
            Json::True => {
                proof {
                    lemma_text_size_of_word(seq!['t', 'r', 'u', 'e']);
                }
                Size::new(0, 4)
            },
            Json::False => {
                proof {
                    lemma_text_size_of_word(seq!['f', 'a', 'l', 's', 'e']);
                }
                Size::new(0, 5)
            },
            Json::Null => {
                proof {
                    lemma_text_size_of_word(seq!['n', 'u', 'l', 'l']);
                }
                Size::new(0, 4)
            },
            Json::Str(string) => {
                proof {
                    lemma_text_size_char('"');
                    lemma_text_size_concat(seq!['"'], string@);
                    lemma_text_size_concat(seq!['"'] + string@, seq!['"']);
                    lemma_text_size_fits(seq!['"'] + string@);
                }
                let quote_size = Size::new(0, 1);
                let inner = quote_size + Size::from(string.as_str());
                inner + Size::new(0, 1)
            },
            Json::Field(key, value) => {
                let ghost k = render(**key, is_pretty, 0);
                let ghost v = render(**value, is_pretty, 0);
                proof {
                    lemma_text_size_of_word(seq![':', ' ']);
                    lemma_text_size_concat(k, seq![':', ' ']);
                    lemma_text_size_concat(k + seq![':', ' '], v);
                    lemma_text_size_fits(k + seq![':', ' ']);
                }
                let key_size = key.size(format_style);
                let head = key_size + Size::new(0, 2);
                head + value.size(format_style)
            },
            Json::Array(children) => self.list_size(children, format_style, Ghost('['), Ghost(']')),
            Json::Object(fields) => self.list_size(fields, format_style, Ghost('{'), Ghost('}')),
        }
    }

    /// The size of an array or object whose children are `children`.
    fn list_size(
        &self,
        children: &Vec<&'arena Json<'arena>>,
        format_style: &JsonFormat,
        Ghost(open): Ghost<char>,
        Ghost(close): Ghost<char>,
    ) -> (size: Size)
        requires
            *self == Json::Array(*children) || *self == Json::Object(*children),
            *self is Array ==> open == '[' && close == ']',
            *self is Object ==> open == '{' && close == '}',
            render(*self, *format_style == JsonFormat::Pretty, 0).len() <= usize::MAX,
        ensures
            size@ == text_size(render(*self, *format_style == JsonFormat::Pretty, 0)),
        decreases self, 0nat,
    {
        let is_pretty = *format_style == JsonFormat::Pretty;
        let ghost cs = children@;
        let ghost total = render(*self, is_pretty, 0);
        let ghost body = render_seq(cs, is_pretty, child_indent(is_pretty, 0));
        proof {
            assert(total == bracketed(open, close, cs.len(), body, is_pretty, 0));
            lemma_text_size_fits(total);
            lemma_text_size_bounded(total);
        }
        if is_pretty {
            // Special case: if the list is empty, then it will be rendered as two brackets
            if children.len() == 0 {
                proof {
                    lemma_text_size_of_word(seq![open, close]);
                }
                return Size::new(0, 2);
            }
            proof {
                lemma_bracketed_pretty_size(open, close, cs.len(), body, 0);
                lemma_pretty_seq_lines(cs, 4);
            }
            // We are only interested in how many lines are occupied - the last line will always
            // just be the closing bracket.  The opening bracket occupies its own line.
            let mut number_of_lines: usize = 1;
            let mut i: usize = 0;
            while i < children.len()
                invariant
                    i <= cs.len(),
                    cs == children@,
                    *self == Json::Array(*children) || *self == Json::Object(*children),
                    is_pretty == (*format_style == JsonFormat::Pretty),
                    is_pretty,
                    number_of_lines == 1 + lines_sum(cs.take(i as int)),
                    1 + lines_sum(cs) <= usize::MAX,
                    render_seq(cs, true, 4).len() <= usize::MAX,
                decreases cs.len() - i,
            {
                let c = children[i];
                proof {
                    if *self is Array {
                        assert(decreases_to!(*self => self->Array_0));
                    } else {
                        assert(decreases_to!(*self => self->Object_0));
                    }
                    assert(decreases_to!(*children => children@));
                    assert(decreases_to!(children@ => children@[i as int]));
                    lemma_render_seq_parts(cs, true, 4, i as int);
                    lemma_render_len_mono(*c, true, 0, 4);
                    lemma_lines_sum_prefix(cs, i + 1);
                    assert(cs.take(i + 1).drop_last() =~= cs.take(i as int));
                    assert(cs.take(i + 1).last() == c);
                }
                // The `+ 1` accounts for the extra newline char generated after every child.
                number_of_lines = number_of_lines + c.size(format_style).lines() + 1;
                i = i + 1;
            }
            proof {
                assert(cs.take(i as int) =~= cs);
            }
            Size::new(number_of_lines, 1)
        } else {
            proof {
                lemma_text_size_char(open);
                lemma_text_size_char(close);
            }
            // Size accumulator - starts with just the size of the opening bracket
            let mut size = Size::new(0, 1);
            let mut i: usize = 0;
            while i < children.len()
                invariant
                    i <= cs.len(),
                    cs == children@,
                    *self == Json::Array(*children) || *self == Json::Object(*children),
                    is_pretty == (*format_style == JsonFormat::Pretty),
                    !is_pretty,
                    open != '\n',
                    size@ == text_size(seq![open] + render_seq(cs.take(i as int), false, 0)),
                    (seq![open] + render_seq(cs, false, 0)).len() <= usize::MAX,
                decreases cs.len() - i,
            {
                let c = children[i];
                let ghost prev = seq![open] + render_seq(cs.take(i as int), false, 0);
                let ghost next = seq![open] + render_seq(cs.take(i + 1), false, 0);
                proof {
                    if *self is Array {
                        assert(decreases_to!(*self => self->Array_0));
                    } else {
                        assert(decreases_to!(*self => self->Object_0));
                    }
                    assert(decreases_to!(*children => children@));
                    assert(decreases_to!(children@ => children@[i as int]));
                    lemma_render_seq_parts(cs, false, 0, i as int);
                    lemma_render_seq_parts(cs, false, 0, i + 1);
                    assert(cs.take(i + 1).drop_last() =~= cs.take(i as int));
                    assert(cs.take(i + 1).last() == c);
                    lemma_separator_size(false, 0);
                    let mid = if i > 0 {
                        separator(false, 0)
                    } else {
                        Seq::<char>::empty()
                    };
                    assert(next =~= prev + mid + render(*c, false, 0));
                    lemma_text_size_concat(prev, mid);
                    lemma_text_size_concat(prev + mid, render(*c, false, 0));
                    lemma_text_size_fits(prev + mid);
                    lemma_text_size_fits(next);
                    if i == 0 {
                        assert(prev + mid =~= prev);
                    }
                }
                // If we're not on the first child, add the size of ", "
                if i > 0 {
                    size.add_assign(Size::new(0, 2));
                }
                size.add_assign(c.size(format_style));
                i = i + 1;
            }
            proof {
                assert(cs.take(i as int) =~= cs);
                let last = seq![close];
                lemma_text_size_concat(seq![open] + body, last);
                if cs.len() == 0 {
                    assert(total =~= seq![open] + body + last);
                } else {
                    assert(total =~= seq![open] + body + last);
                }
            }
            size + Size::new(0, 1)
        }
    }

    /// Appends a debug-style tree view of this node to a [`String`], similar to the output of
    /// the Unix command 'tree'.
    pub fn write_tree_view(&'arena self, string: &mut String)
        ensures
            final(string)@ == old(string)@ + tree_lines(*self, 0).drop_last(),
    {
        let mut indentation_string = String::new();
        assert(indentation_string@ =~= spaces(0));
        write_tree_view_recursive(self, string, &mut indentation_string, Ghost(0));
        // Pop the unnecessary newline at the end
        string_pop(string);
        assert(string@ =~= old(string)@ + tree_lines(*self, 0).drop_last());
    }

    /// Builds a string of the tree view of this node, similar to the output of the Unix command
    /// 'tree'.
    pub fn tree_view(&'arena self) -> (s: String)
        ensures
            s@ == tree_lines(*self, 0).drop_last(),
    {
        let mut s = String::new();
        self.write_tree_view(&mut s);
        assert(s@ =~= tree_lines(*self, 0).drop_last());
        s
    }

    /// Inserts a given pre-allocated node as a new child of this node, at position `index`.
    /// Inserting into an object allocates two more nodes in `arena`: an empty string as the key
    /// and a field that joins it to `new_node` (`{}` becomes `{"": true}`).
    pub fn insert_child(
        &mut self,
        new_node: &'arena Json<'arena>,
        arena: &'arena Arena<Json<'arena>>,
        index: usize,
    ) -> (r: Result<(), InsertError>)
        requires
            can_insert_into(*old(self)) ==> index <= spec_children(*old(self)).len(),
        ensures
            (*old(self) is Array || *old(self) is Object) <==> r is Ok,
            r is Err ==> *final(self) == *old(self),
            r matches Err(InsertError::TooManyChildren { name, max_children }) ==> name@
                == spec_display_name(*old(self)) && max_children == spec_children(
                *old(self),
            ).len(),
            *old(self) is Array ==> *final(self) is Array && spec_children(*final(self))
                == spec_children(*old(self)).insert(index as int, new_node),
            *old(self) is Object ==> *final(self) is Object && spec_children(*final(self)).len()
                == spec_children(*old(self)).len() + 1 && spec_children(*final(self))
                == spec_children(*old(self)).insert(
                index as int,
                spec_children(*final(self))[index as int],
            ) && is_fresh_field(*spec_children(*final(self))[index as int], new_node),
    {
        match self {
            Json::True | Json::False | Json::Null | Json::Str(_) => {
                Err(InsertError::TooManyChildren { name: self.display_name(), max_children: 0 })
            },
            Json::Field(_, _) => {
                Err(InsertError::TooManyChildren { name: self.display_name(), max_children: 2 })
            },
            Json::Object(fields) => {
                /* Inserting into an object is a special case, since we need to allocate more
                 * objects in order to preserve the validity of the tree. */
                // Allocate an empty string to act as the key
                let key = arena.alloc_node(Json::Str(String::new()));
                // Allocate a field as the parent of the key and new_node
                let field = arena.alloc_node(Json::Field(key, new_node));
                // Add the new field as a child of `self`
                fields.insert(index, field);
                Ok(())
            },
            Json::Array(children) => {
                children.insert(index, new_node);
                Ok(())
            },
        }
    }

    /// Replaces the child at `index` with `new_node`.  If the child is an object field, only
    /// its value is replaced: a new field, allocated in `arena`, joins the old key to `new_node`.
    pub fn replace_child(
        &mut self,
        new_node: &'arena Json<'arena>,
        arena: &'arena Arena<Json<'arena>>,
        index: usize,
    )
        requires
            index < spec_children(*old(self)).len(),
        ensures
            same_kind(*final(self), *old(self)),
            spec_children(*final(self)) == spec_children(*old(self)).update(
                index as int,
                spec_children(*final(self))[index as int],
            ),
            match *spec_children(*old(self))[index as int] {
                Json::Field(k, _) => *spec_children(*final(self))[index as int] == Json::Field(
                    k,
                    new_node,
                ),
                _ => spec_children(*final(self))[index as int] == new_node,
            },
    {
        let old_child = self.child(index);
        let replacement = match old_child {
            Json::Field(s, _v) => arena.alloc_node(Json::Field(s, new_node)),
            _ => new_node,
        };
        match self {
            Json::Array(cs) => {
                cs.set(index, replacement);
            },
            Json::Object(cs) => {
                cs.set(index, replacement);
            },
            Json::Field(k, v) => {
                if index == 0 {
                    *k = replacement;
                } else {
                    *v = replacement;
                }
                assert(spec_children(*self) =~= spec_children(*old(self)).update(
                    index as int,
                    replacement,
                ));
            },
            _ => {},
        }
    }

    /// Makes the child at `index` the node `node`, as assigning through a mutable slice of the
    /// children does.
    pub(crate) fn set_child(&mut self, index: usize, node: &'arena Json<'arena>)
        requires
            index < spec_children(*old(self)).len(),
        ensures
            same_kind(*final(self), *old(self)),
            spec_children(*final(self)) == spec_children(*old(self)).update(index as int, node),
    {
        match self {
            Json::Array(cs) => {
                cs.set(index, node);
            },
            Json::Object(cs) => {
                cs.set(index, node);
            },
            Json::Field(k, v) => {
                if index == 0 {
                    *k = node;
                } else {
                    *v = node;
                }
                assert(spec_children(*self) =~= spec_children(*old(self)).update(
                    index as int,
                    node,
                ));
            },
            _ => {},
        }
    }

    /// Removes the child at a given index from the children of this node, if possible.  Fields
    /// must keep both of their children.
    pub fn delete_child(&mut self, index: usize) -> (r: Result<(), DeleteError>)
        requires
            spec_children(*old(self)).len() > 0 || *old(self) is Array || *old(self) is Object,
        ensures
            r is Ok <==> (can_insert_into(*old(self)) && index < spec_children(*old(self)).len()),
            r is Err ==> *final(self) == *old(self),
            r matches Err(DeleteError::TooFewChildren { name, min_children }) ==> *old(self) is Field
                && name@ == spec_display_name(*old(self)) && min_children == 2,
            r matches Err(DeleteError::IndexOutOfRange { len, index: i }) ==> can_insert_into(
                *old(self),
            ) && len == spec_children(*old(self)).len() && i == index,
            *old(self) is Field ==> r is Err && r->Err_0 is TooFewChildren,
            r is Ok ==> same_kind(*final(self), *old(self)) && spec_children(*final(self))
                == spec_children(*old(self)).remove(index as int),
    {
        match self {
            Json::Field(_, _) => Err(
                DeleteError::TooFewChildren { name: self.display_name(), min_children: 2 },
            ),
            Json::Object(fields) => {
                if index < fields.len() {
                    fields.remove(index);
                    Ok(())
                } else {
                    Err(DeleteError::IndexOutOfRange { len: fields.len(), index })
                }
            },
            Json::Array(children) => {
                if index < children.len() {
                    children.remove(index);
                    Ok(())
                } else {
                    Err(DeleteError::IndexOutOfRange { len: children.len(), index })
                }
            },
            _ => {
                // A node with no children has no child to delete: selecting one would require
                // a path to a non-existent child.
                assert(false);
                unreached()
            },
        }
    }

    /// The number of direct children of this node.
    pub fn num_children(&self) -> (n: usize)
        ensures
            n == spec_children(*self).len(),
    {
        match self {
            Json::Array(cs) => cs.len(),
            Json::Object(cs) => cs.len(),
            Json::Field(_, _) => 2,
            _ => 0,
        }
    }

    /// The `index`th child of this node.
    pub fn child(&self, index: usize) -> (c: &'arena Json<'arena>)
        requires
            index < spec_children(*self).len(),
        ensures
            c == spec_children(*self)[index as int],
    {
        match self {
            Json::Array(cs) => cs[index],
            Json::Object(cs) => cs[index],
            Json::Field(k, v) => if index == 0 {
                k
            } else {
                v
            },
            _ => {
                assert(false);
                unreached()
            },
        }
    }

    /// Get the display name of this node
    pub fn display_name(&self) -> (name: String)
        ensures
            name@ == spec_display_name(*self),
    {
        proof {
            reveal_strlit("true");
            reveal_strlit("false");
            reveal_strlit("null");
            reveal_strlit("array");
            reveal_strlit("object");
            reveal_strlit("field");
            reveal_strlit("\"");
        }
        match self {
            Json::True => string_of("true"),
            Json::False => string_of("false"),
            Json::Null => string_of("null"),
            Json::Array(_) => string_of("array"),
            Json::Object(_) => string_of("object"),
            Json::Field(_, _) => string_of("field"),
            Json::Str(content) => {
                let mut name = string_of("\"");
                name.append(content.as_str());
                name.append("\"");
                name
            },
        }
    }

    /// The shorthand [`char`]s that a user could type to replace this node with something
    /// else.
    pub fn replace_chars(&self) -> (cs: Vec<char>)
        ensures
            cs@ == node_chars(),
    {
        let cs = vec!['t', 'f', 'n', 'a', 'o', 's'];
        assert(cs@ =~= node_chars());
        cs
    }

    /// Returns whether or not a given [`char`] is in [`Self::replace_chars`]
    pub fn is_replace_char(&self, c: char) -> (b: bool)
        ensures
            b == node_chars().contains(c),
    {
        let r = c == 't' || c == 'f' || c == 'n' || c == 'a' || c == 'o' || c == 's';
        proof {
            if r {
                let i: int = if c == 't' { 0 } else if c == 'f' { 1 } else if c == 'n' { 2 }
                    else if c == 'a' { 3 } else if c == 'o' { 4 } else { 5 };
                assert(node_chars()[i] == c);
            }
        }
        r
    }

    /// Generate a new node from a [`char`] that a user typed.  If `c` is one of the
    /// [`replace_chars`](Self::replace_chars), this returns [`Some`] node, otherwise [`None`].
    pub fn from_char(&self, c: char) -> (r: Option<Json<'arena>>)
        ensures
            node_chars().contains(c) <==> r is Some,
            r matches Some(n) ==> created_from_char(n, c),
    {
        let ok = self.is_replace_char(c);
        if c == 't' {
            Some(Json::True)
        } else if c == 'f' {
            Some(Json::False)
        } else if c == 'n' {
            Some(Json::Null)
        } else if c == 'a' {
            Some(Json::Array(Vec::new()))
        } else if c == 'o' {
            Some(Json::Object(Vec::new()))
        } else if c == 's' {
            Some(Json::Str(String::new()))
        } else {
            None
        }
    }

    /// The shorthand [`char`]s that a user could type to insert other nodes into this one
    pub fn insert_chars(&self) -> (cs: Vec<char>)
        ensures
            can_insert_into(*self) ==> cs@ == node_chars(),
            !can_insert_into(*self) ==> cs@.len() == 0,
    {
        match self {
            Json::Array(_) | Json::Object(_) => self.replace_chars(),
            _ => Vec::new(),
        }
    }

    /// Returns whether or not a given [`char`] is in [`Self::insert_chars`]
    pub fn is_insert_char(&self, c: char) -> (b: bool)
        ensures
            b == (can_insert_into(*self) && node_chars().contains(c)),
    {
        match self {
            Json::Array(_) | Json::Object(_) => self.is_replace_char(c),
            _ => false,
        }
    }
}

} // verus!
