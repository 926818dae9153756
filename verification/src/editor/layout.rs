//! Where the display tokens of a tree are drawn on the screen.

use vstd::prelude::*;

use crate::ast::display_token::{DisplayToken, INDENT_WIDTH};
use crate::base::{text_size, Size};

verus! {

/// Where drawing stands after a token: the row, the column, and the indentation that a new line
/// starts at.
pub open spec fn layout_step(at: (int, int, int), t: DisplayToken) -> (int, int, int) {
    let (row, col, indent) = at;
    match t {
        DisplayToken::Text(s, _) => {
            let (lines, last) = text_size(s@);
            if lines == 0 {
                (row, col + last, indent)
            } else {
                (row + lines, last as int, indent)
            }
        },
        DisplayToken::Whitespace(n) => (row, col + n, indent),
        DisplayToken::Newline => (row + 1, indent, indent),
        DisplayToken::Indent => (row, col, indent + INDENT_WIDTH),
        DisplayToken::Dedent => (row, col, indent - INDENT_WIDTH),
    }
}

/// Where drawing stands after the first `n` tokens, starting at `start`.
pub open spec fn layout_after(tokens: Seq<DisplayToken>, n: int, start: (int, int, int)) -> (int, int, int)
    decreases n,
{
    if n <= 0 || n > tokens.len() {
        start
    } else {
        layout_step(layout_after(tokens, n - 1, start), tokens[n - 1])
    }
}

/// Every place that drawing the tokens passes through fits in a `usize`, and the indentation
/// never goes below zero.
pub open spec fn layout_fits(tokens: Seq<DisplayToken>, start: (int, int, int)) -> bool {
    forall|k: int|
        0 <= k <= tokens.len() ==> {
            let at = #[trigger] layout_after(tokens, k, start);
            &&& 0 <= at.0 <= usize::MAX
            &&& 0 <= at.1 <= usize::MAX
            &&& 0 <= at.2 <= usize::MAX
        }
}

/// The row and column at which each of the display tokens starts when they are drawn from
/// `(row, col)`: text moves to the end of its last line, whitespace moves right, a newline
/// goes to the start of the next line at the current indentation, and indents and dedents
/// change the indentation by [`INDENT_WIDTH`].  `None` when a place does not fit in a `usize`
/// or a dedent goes below zero.
#[verifier::loop_isolation(false)]
pub fn layout_tokens(tokens: &Vec<DisplayToken>, row: usize, col: usize) -> (r: Option<Vec<(usize, usize)>>)
    ensures
        r is Some <==> layout_fits(tokens@, (row as int, col as int, 0)),
        r matches Some(places) ==> places@.len() == tokens@.len() && forall|k: int|
            0 <= k < tokens@.len() ==> {
                let at = #[trigger] layout_after(tokens@, k, (row as int, col as int, 0));
                places@[k] == (at.0 as usize, at.1 as usize)
            },
{
    let ghost start = (row as int, col as int, 0int);
    let mut row = row;
    let mut col = col;
    let mut indent: usize = 0;
    let mut places: Vec<(usize, usize)> = Vec::new();
    let mut i: usize = 0;
    while i < tokens.len()
        invariant
            i <= tokens@.len(),
            layout_after(tokens@, i as int, start) == (row as int, col as int, indent as int),
            places@.len() == i,
            forall|k: int|
                0 <= k < i ==> {
                    let at = #[trigger] layout_after(tokens@, k, start);
                    places@[k] == (at.0 as usize, at.1 as usize)
                },
            forall|k: int|
                0 <= k <= i ==> {
                    let at = #[trigger] layout_after(tokens@, k, start);
                    &&& 0 <= at.0 <= usize::MAX
                    &&& 0 <= at.1 <= usize::MAX
                    &&& 0 <= at.2 <= usize::MAX
                },
        decreases tokens@.len() - i,
    {
        places.push((row, col));
        let next = match &tokens[i] {
            DisplayToken::Text(s, _) => {
                let size = Size::of_text(s.as_str());
                if size.lines() == 0 {
                    match col.checked_add(size.last_line_length()) {
                        Some(c) => Some((row, c, indent)),
                        None => None,
                    }
                } else {
                    match row.checked_add(size.lines()) {
                        Some(r) => Some((r, size.last_line_length(), indent)),
                        None => None,
                    }
                }
            },
            DisplayToken::Whitespace(n) => match col.checked_add(*n) {
                Some(c) => Some((row, c, indent)),
                None => None,
            },
            DisplayToken::Newline => match row.checked_add(1) {
                Some(r) => Some((r, indent, indent)),
                None => None,
            },
            DisplayToken::Indent => match indent.checked_add(INDENT_WIDTH) {
                Some(d) => Some((row, col, d)),
                None => None,
            },
            DisplayToken::Dedent => match indent.checked_sub(INDENT_WIDTH) {
                Some(d) => Some((row, col, d)),
                None => None,
            },
        };
        match next {
            Some((r, c, d)) => {
                row = r;
                col = c;
                indent = d;
            },
            None => {
                proof {
                    assert(!({
                        let at = layout_after(tokens@, i + 1, start);
                        &&& 0 <= at.0 <= usize::MAX
                        &&& 0 <= at.1 <= usize::MAX
                        &&& 0 <= at.2 <= usize::MAX
                    }));
                }
                return None;
            },
        }
        i = i + 1;
    }
    Some(places)
}

} // verus!
