//! Descriptions of the tokens that Sapling uses to render ASTs to the screen.

use vstd::prelude::*;
use vstd::string::*;

use crate::base::{spaces, string_pop};

verus! {

/// A category of text that should be syntax highlighted the same color.
pub type SyntaxCategory = &'static str;

/// Text that shouldn't be highlighted a specific colour: used for things like punctuation.
pub const DEFAULT: &'static str = "default";
/// Constant values like 'true', 'false'
pub const CONST: &'static str = "const";
/// Literal values like strings and integers
pub const LITERAL: &'static str = "literal";
/// A name that's reserved by the language for a specific purpose
pub const KEYWORD: &'static str = "keyword";

/// How many spaces corespond to one indentation level
pub const INDENT_WIDTH: usize = 4;

/// A single piece of a node that can be rendered to the screen
#[derive(Debug, Clone, PartialEq, Eq, Hash)]
pub enum DisplayToken {
    /// Some text that should be rendered verbatim to the screen
    Text(String, SyntaxCategory),
    /// Add some number of spaces worth of whitespace
    Whitespace(usize),
    /// Put the next token onto a new line
    Newline,
    /// Add another indent level to the code
    Indent,
    /// Remove an indent level from the code
    Dedent,
}

/// A wrapper for [`DisplayToken`] that allows for child references to be recursively expanded.
#[derive(Debug, Clone, PartialEq, Eq)]
pub enum RecTok<'arena, Node> {
    /// Display a [`DisplayToken`] that is part of the current node
    Tok(DisplayToken),
    /// Display the tokens of a child in this position of the text
    Child(&'arena Node),
}

/// The mathematical content of a [`DisplayToken`]: texts are taken by their characters.
pub enum TokView {
    Text(Seq<char>, Seq<char>),
    Whitespace(nat),
    Newline,
    Indent,
    Dedent,
}

impl View for DisplayToken {
    type V = TokView;

    open spec fn view(&self) -> TokView {
        match self {
            DisplayToken::Text(s, c) => TokView::Text(s@, c@),
            DisplayToken::Whitespace(n) => TokView::Whitespace(*n as nat),
            DisplayToken::Newline => TokView::Newline,
            DisplayToken::Indent => TokView::Indent,
            DisplayToken::Dedent => TokView::Dedent,
        }
    }
}

/// The mathematical content of a [`RecTok`]: a token, or the child node it stands for.
pub enum RecTokView<Node> {
    Tok(TokView),
    Child(Node),
}

impl<'arena, Node> View for RecTok<'arena, Node> {
    type V = RecTokView<Node>;

    open spec fn view(&self) -> RecTokView<Node> {
        match self {
            RecTok::Tok(t) => RecTokView::Tok(t@),
            RecTok::Child(c) => RecTokView::Child(**c),
        }
    }
}


/// The text that a token writes when the current indentation is `ind` spaces.
pub open spec fn tok_text(t: TokView, ind: nat) -> Seq<char> {
    match t {
        TokView::Text(s, _) => s,
        TokView::Whitespace(n) => spaces(n),
        TokView::Newline => seq!['\n'] + spaces(ind),
        TokView::Indent => Seq::empty(),
        TokView::Dedent => Seq::empty(),
    }
}

/// The indentation after a token, when it was `ind` spaces before it.
pub open spec fn tok_indent(t: TokView, ind: nat) -> nat {
    match t {
        TokView::Indent => ind + INDENT_WIDTH as nat,
        TokView::Dedent => if ind >= INDENT_WIDTH {
            (ind - INDENT_WIDTH) as nat
        } else {
            0
        },
        _ => ind,
    }
}

/// The indentation after writing a stream of tokens from indentation `ind`.
pub open spec fn run_indent(toks: Seq<TokView>, ind: nat) -> nat
    decreases toks.len(),
{
    if toks.len() == 0 {
        ind
    } else {
        tok_indent(toks.last(), run_indent(toks.drop_last(), ind))
    }
}

/// The text written by a stream of tokens, starting at indentation `ind`.
pub open spec fn run_text(toks: Seq<TokView>, ind: nat) -> Seq<char>
    decreases toks.len(),
{
    if toks.len() == 0 {
        Seq::empty()
    } else {
        run_text(toks.drop_last(), ind) + tok_text(toks.last(), run_indent(toks.drop_last(), ind))
    }
}

/// Writing two token streams one after the other writes the texts of both.
pub proof fn lemma_run_concat(a: Seq<TokView>, b: Seq<TokView>, ind: nat)
    ensures
        run_text(a + b, ind) == run_text(a, ind) + run_text(b, run_indent(a, ind)),
        run_indent(a + b, ind) == run_indent(b, run_indent(a, ind)),
    decreases b.len(),
{
    if b.len() == 0 {
        assert(a + b =~= a);
    } else {
        lemma_run_concat(a, b.drop_last(), ind);
        assert((a + b).drop_last() =~= a + b.drop_last());
        assert((a + b).last() == b.last());
    }
}

/// The tokens of a stream of `(owner, token)` pairs.
pub open spec fn toks_of<Node>(s: Seq<(Node, TokView)>) -> Seq<TokView> {
    s.map_values(|p: (Node, TokView)| p.1)
}

pub proof fn lemma_toks_of_concat<Node>(a: Seq<(Node, TokView)>, b: Seq<(Node, TokView)>)
    ensures
        toks_of(a + b) == toks_of(a) + toks_of(b),
{
    assert(toks_of(a + b) =~= toks_of(a) + toks_of(b));
}

/// Writes a stream of display tokens to a string, starting with no indentation.
pub fn write_token_stream<'arena, Node>(
    tokens: &Vec<(&'arena Node, DisplayToken)>,
    string: &mut String,
)
    requires
        INDENT_WIDTH * tokens@.len() <= usize::MAX,
    ensures
        final(string)@ == old(string)@ + run_text(
            toks_of(tokens@.map_values(|p: (&'arena Node, DisplayToken)| (*p.0, p.1@))),
            0,
        ),
{
    let ghost views = toks_of(tokens@.map_values(|p: (&'arena Node, DisplayToken)| (*p.0, p.1@)));
    let mut indent: usize = 0;
    let mut i: usize = 0;
    proof {
        reveal_strlit(" ");
        reveal_strlit("\n");
    }
    while i < tokens.len()
        invariant
            i <= tokens@.len(),
            INDENT_WIDTH * tokens@.len() <= usize::MAX,
            views == toks_of(tokens@.map_values(|p: (&'arena Node, DisplayToken)| (*p.0, p.1@))),
            views.len() == tokens@.len(),
            indent == run_indent(views.take(i as int), 0),
            indent <= INDENT_WIDTH * i,
            string@ == old(string)@ + run_text(views.take(i as int), 0),
        decreases tokens@.len() - i,
    {
        let ghost before = string@;
        proof {
            assert(views.take(i + 1).drop_last() =~= views.take(i as int));
            assert(views.take(i + 1).last() == views[i as int]);
            assert(views[i as int] == tokens@[i as int].1@);
        }
        match &tokens[i].1 {
            DisplayToken::Text(s, _) => {
                string.append(s.as_str());
            },
            DisplayToken::Whitespace(n) => {
                write_spaces(string, *n);
            },
            DisplayToken::Newline => {
                string.append("\n");
                proof {
                    reveal_strlit("\n");
                }
                write_spaces(string, indent);
                assert(string@ =~= before + (seq!['\n'] + spaces(indent as nat)));
            },
            DisplayToken::Indent => {
                indent = indent + INDENT_WIDTH;
                assert(string@ =~= before + Seq::<char>::empty());
            },
            DisplayToken::Dedent => {
                if indent >= INDENT_WIDTH {
                    indent = indent - INDENT_WIDTH;
                } else {
                    indent = 0;
                }
                assert(string@ =~= before + Seq::<char>::empty());
            },
        }
        i = i + 1;
    }
    assert(views.take(i as int) =~= views);
}

/// The text written for the token `t` when lines start with the text `ind`.
pub open spec fn buf_text(t: TokView, ind: Seq<char>) -> Seq<char> {
    match t {
        TokView::Text(s, _) => s,
        TokView::Whitespace(n) => spaces(n),
        TokView::Newline => seq!['\n'] + ind,
        TokView::Indent => Seq::empty(),
        TokView::Dedent => Seq::empty(),
    }
}

/// The text that starts lines after the token `t`, when it was `ind` before it: an indent adds
/// [`INDENT_WIDTH`] spaces, a dedent removes that many chars (as many as there are).
pub open spec fn buf_indent(t: TokView, ind: Seq<char>) -> Seq<char> {
    match t {
        TokView::Indent => ind + spaces(INDENT_WIDTH as nat),
        TokView::Dedent => if ind.len() >= INDENT_WIDTH {
            ind.take(ind.len() - INDENT_WIDTH)
        } else {
            Seq::empty()
        },
        _ => ind,
    }
}

/// The text that starts lines after writing the tokens `toks` from `ind`.
pub open spec fn stream_indent(toks: Seq<TokView>, ind: Seq<char>) -> Seq<char>
    decreases toks.len(),
{
    if toks.len() == 0 {
        ind
    } else {
        buf_indent(toks.last(), stream_indent(toks.drop_last(), ind))
    }
}

/// The text written by the tokens `toks`, from lines starting with `ind`.
pub open spec fn stream_text(toks: Seq<TokView>, ind: Seq<char>) -> Seq<char>
    decreases toks.len(),
{
    if toks.len() == 0 {
        Seq::empty()
    } else {
        stream_text(toks.drop_last(), ind) + buf_text(toks.last(), stream_indent(toks.drop_last(), ind))
    }
}

/// A newline followed by an indent or dedent, which swap places.
pub open spec fn swaps_at(toks: Seq<TokView>, i: int) -> bool {
    toks[i] is Newline && (toks[i + 1] is Indent || toks[i + 1] is Dedent)
}

/// The tokens `toks` after going through them from `i` on, swapping every newline followed by
/// an indent or dedent so that the indent or dedent comes first.
pub open spec fn swap_newlines(toks: Seq<TokView>, i: int) -> Seq<TokView>
    decreases toks.len() - i,
{
    if i < 0 || i + 1 >= toks.len() {
        toks
    } else if swaps_at(toks, i) {
        swap_newlines(toks.update(i, toks[i + 1]).update(i + 1, TokView::Newline), i + 1)
    } else {
        swap_newlines(toks, i + 1)
    }
}

/// No newline in `toks` is followed by an indent or dedent.
pub open spec fn no_swaps(toks: Seq<TokView>) -> bool {
    forall|i: int| 0 <= i < toks.len() - 1 ==> !#[trigger] swaps_at(toks, i)
}

/// Tokens with no newline followed by an indent or dedent are left as they are.
pub proof fn lemma_no_swaps_fixed(toks: Seq<TokView>, i: int)
    requires
        no_swaps(toks),
        0 <= i,
    ensures
        swap_newlines(toks, i) == toks,
    decreases toks.len() - i,
{
    if i + 1 < toks.len() {
        assert(!swaps_at(toks, i));
        lemma_no_swaps_fixed(toks, i + 1);
    }
}

/// Joining two streams creates no newline followed by an indent or dedent, unless the first
/// ends with a newline and the second starts with an indent or dedent.
pub proof fn lemma_no_swaps_concat(a: Seq<TokView>, b: Seq<TokView>)
    requires
        no_swaps(a),
        no_swaps(b),
        a.len() > 0 && b.len() > 0 ==> !(a.last() is Newline && (b[0] is Indent || b[0] is Dedent)),
    ensures
        no_swaps(a + b),
{
    let c = a + b;
    assert forall|i: int| 0 <= i < c.len() - 1 implies !#[trigger] swaps_at(c, i) by {
        if i + 1 < a.len() {
            assert(c[i] == a[i] && c[i + 1] == a[i + 1]);
            assert(!swaps_at(a, i));
        } else if i >= a.len() {
            assert(c[i] == b[i - a.len()] && c[i + 1] == b[i - a.len() + 1]);
            assert(!swaps_at(b, i - a.len()));
        } else {
            assert(c[i] == a.last() && c[i + 1] == b[0]);
        }
    }
}

/// From lines starting with `k` spaces, the tokens write what [`run_text`] says and leave
/// lines starting with the spaces of [`run_indent`].
pub proof fn lemma_stream_spaces(toks: Seq<TokView>, k: nat)
    ensures
        stream_text(toks, spaces(k)) == run_text(toks, k),
        stream_indent(toks, spaces(k)) == spaces(run_indent(toks, k)),
    decreases toks.len(),
{
    if toks.len() > 0 {
        lemma_stream_spaces(toks.drop_last(), k);
        let m = run_indent(toks.drop_last(), k);
        assert(spaces(m) + spaces(INDENT_WIDTH as nat) =~= spaces((m + INDENT_WIDTH) as nat));
        if m >= INDENT_WIDTH {
            assert(spaces(m).take(m - INDENT_WIDTH) =~= spaces((m - INDENT_WIDTH) as nat));
        } else {
            assert(Seq::<char>::empty() =~= spaces(0));
        }
    }
}

/// Writes the tokens `tokens` to `string`, each line starting with what `indentation_string`
/// holds, which indents and dedents change; a newline followed by an indent or dedent is first
/// swapped with it.
pub fn write_tokens_with_indent<'arena, Node>(
    tokens: &Vec<(&'arena Node, DisplayToken)>,
    string: &mut String,
    indentation_string: &mut String,
)
    ensures
        ({
            let views = toks_of(tokens@.map_values(|p: (&'arena Node, DisplayToken)| (*p.0, p.1@)));
            &&& final(string)@ == old(string)@ + stream_text(swap_newlines(views, 0), old(indentation_string)@)
            &&& final(indentation_string)@ == stream_indent(swap_newlines(views, 0), old(indentation_string)@)
        }),
{
    let ghost views = toks_of(tokens@.map_values(|p: (&'arena Node, DisplayToken)| (*p.0, p.1@)));
    // Copy the tokens, and swap every newline followed by an indent or dedent
    let mut toks: Vec<DisplayToken> = Vec::new();
    let mut k: usize = 0;
    while k < tokens.len()
        invariant
            k <= tokens@.len(),
            views == toks_of(tokens@.map_values(|p: (&'arena Node, DisplayToken)| (*p.0, p.1@))),
            views.len() == tokens@.len(),
            toks@.len() == k,
            forall|j: int| 0 <= j < k ==> #[trigger] toks@[j]@ == views[j],
        decreases tokens@.len() - k,
    {
        toks.push(tokens[k].1.clone_token());
        k = k + 1;
    }
    let ghost tv = toks@.map_values(|t: DisplayToken| t@);
    assert(tv =~= views);
    let mut i: usize = 0;
    while toks.len() > 0 && i < toks.len() - 1
        invariant
            toks@.len() == views.len(),
            i <= toks@.len(),
            swap_newlines(toks@.map_values(|t: DisplayToken| t@), i as int) == swap_newlines(views, 0),
        decreases toks@.len() - i,
    {
        let ghost cur = toks@.map_values(|t: DisplayToken| t@);
        let is_newline = match &toks[i] {
            DisplayToken::Newline => true,
            _ => false,
        };
        let next_changes_indent = match &toks[i + 1] {
            DisplayToken::Indent | DisplayToken::Dedent => true,
            _ => false,
        };
        if is_newline && next_changes_indent {
            let next = toks[i + 1].clone_token();
            toks.set(i, next);
            toks.set(i + 1, DisplayToken::Newline);
            proof {
                assert(swaps_at(cur, i as int));
                assert(toks@.map_values(|t: DisplayToken| t@) =~= cur.update(i as int, cur[i + 1]).update(
                    i + 1,
                    TokView::Newline,
                ));
            }
        } else {
            proof {
                assert(!swaps_at(cur, i as int));
            }
        }
        i = i + 1;
    }
    let ghost sw = toks@.map_values(|t: DisplayToken| t@);
    proof {
        assert(swap_newlines(sw, i as int) == sw);
    }
    // Process the tokens
    let ghost ind0 = indentation_string@;
    let mut i: usize = 0;
    proof {
        reveal_strlit(" ");
        reveal_strlit("\n");
        reveal_strlit("    ");
        assert("    "@ =~= spaces(INDENT_WIDTH as nat));
    }
    while i < toks.len()
        invariant
            i <= sw.len(),
            sw == toks@.map_values(|t: DisplayToken| t@),
            sw == swap_newlines(views, 0),
            "    "@ == spaces(INDENT_WIDTH as nat),
            indentation_string@ == stream_indent(sw.take(i as int), ind0),
            string@ == old(string)@ + stream_text(sw.take(i as int), ind0),
        decreases sw.len() - i,
    {
        let ghost before = string@;
        let ghost bi = indentation_string@;
        proof {
            assert(sw.take(i + 1).drop_last() =~= sw.take(i as int));
            assert(sw.take(i + 1).last() == sw[i as int]);
        }
        match &toks[i] {
            DisplayToken::Text(s, _) => {
                string.append(s.as_str());
            },
            DisplayToken::Whitespace(n) => {
                write_spaces(string, *n);
            },
            DisplayToken::Newline => {
                string.append("\n");
                proof {
                    reveal_strlit("\n");
                }
                string.append(indentation_string.as_str());
                assert(string@ =~= before + (seq!['\n'] + bi));
            },
            DisplayToken::Indent => {
                indentation_string.append("    ");
                assert(string@ =~= before + Seq::<char>::empty());
            },
            DisplayToken::Dedent => {
                let mut d: usize = 0;
                while d < INDENT_WIDTH
                    invariant
                        d <= INDENT_WIDTH,
                        indentation_string@ == (if bi.len() >= d { bi.take(bi.len() - d) } else { Seq::<char>::empty() }),
                    decreases INDENT_WIDTH - d,
                {
                    let ghost b = indentation_string@;
                    string_pop(indentation_string);
                    proof {
                        if bi.len() >= d + 1 {
                            assert(b.drop_last() =~= bi.take(bi.len() - (d + 1)));
                        } else if bi.len() == d {
                            assert(b.len() == 0);
                        }
                    }
                    d = d + 1;
                }
                assert(string@ =~= before + Seq::<char>::empty());
            },
        }
        i = i + 1;
    }
    assert(sw.take(i as int) =~= sw);
}

impl DisplayToken {
    /// A copy of this token.
    pub fn clone_token(&self) -> (t: DisplayToken)
        ensures
            t@ == self@,
    {
        match self {
            DisplayToken::Text(s, c) => DisplayToken::Text(s.clone(), c),
            DisplayToken::Whitespace(n) => DisplayToken::Whitespace(*n),
            DisplayToken::Newline => DisplayToken::Newline,
            DisplayToken::Indent => DisplayToken::Indent,
            DisplayToken::Dedent => DisplayToken::Dedent,
        }
    }
}

/// Appends `n` spaces to a string.
fn write_spaces(string: &mut String, n: usize)
    ensures
        final(string)@ == old(string)@ + spaces(n as nat),
{
    proof {
        reveal_strlit(" ");
    }
    let mut k: usize = 0;
    while k < n
        invariant
            k <= n,
            string@ == old(string)@ + spaces(k as nat),
        decreases n - k,
    {
        string.append(" ");
        proof {
            reveal_strlit(" ");
        }
        k = k + 1;
        assert(string@ =~= old(string)@ + spaces(k as nat));
    }
}

impl<'arena, Node> RecTok<'arena, Node> {
    /// Creates a new `RecTok` from a static [`str`] and a [`SyntaxCategory`]
    pub fn from_str(text: &'static str, syntax_category: SyntaxCategory) -> (t: Self)
        ensures
            t@ == RecTokView::<Node>::Tok(TokView::Text(text@, syntax_category@)),
    {
        RecTok::Tok(DisplayToken::Text(String::from_str(text), syntax_category))
    }

    /// Creates a new `RecTok` from an owned [`String`] and a [`SyntaxCategory`]
    pub fn from_string(text: String, syntax_category: SyntaxCategory) -> (t: Self)
        ensures
            t == RecTok::<'arena, Node>::Tok(DisplayToken::Text(text, syntax_category)),
    {
        RecTok::Tok(DisplayToken::Text(text, syntax_category))
    }
}

} // verus!
