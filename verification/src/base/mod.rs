//! Core datatypes used all across Sapling: directions, sides and on-screen sizes.

pub mod key_display;
pub mod path;
pub use path::Path;

use vstd::prelude::*;

verus! {

/// `String::push`: appends the character `c` to the end of the string.
#[verifier::external_body]
pub(crate) fn string_push(string: &mut String, c: char)
    ensures
        final(string)@ == old(string)@.push(c),
{
    string.push(c);
}

/// `String::pop`: removes the last character of the string and returns it, or returns `None`
/// and leaves the string as it is when the string is empty.
#[verifier::external_body]
pub(crate) fn string_pop(string: &mut String) -> (c: Option<char>)
    ensures
        old(string)@.len() == 0 ==> c is None && final(string)@ == old(string)@,
        old(string)@.len() > 0 ==> c == Some(old(string)@.last()) && final(string)@ == old(
            string,
        )@.drop_last(),
{
    string.pop()
}

/// The possible ways you can move the cursor
#[derive(Debug, Copy, Clone, PartialEq, Eq, Hash, Structural)]
pub enum Direction {
    Up,
    Down,
    Prev,
    Next,
}

/// An enum to represent the two sides of a node
#[derive(Debug, Copy, Clone, PartialEq, Eq, Hash, Structural)]
pub enum Side {
    Prev,
    Next,
}

impl Side {
    /// Converts this `Side` into either `"before"` or `"after"`
    pub fn relational_word(&self) -> (word: &'static str)
        ensures
            word@ == (match *self {
                Side::Prev => "before"@,
                Side::Next => "after"@,
            }),
    {
        match self {
            Side::Prev => "before",
            Side::Next => "after",
        }
    }
}

/// The number of `'\n'` characters in a piece of text.
pub open spec fn newline_count(s: Seq<char>) -> nat
    decreases s.len(),
{
    if s.len() == 0 {
        0
    } else {
        newline_count(s.drop_last()) + if s.last() == '\n' {
            1nat
        } else {
            0nat
        }
    }
}

/// The number of characters after the last `'\n'` of a piece of text (the whole length if
/// the text has no newline).
pub open spec fn last_line_len(s: Seq<char>) -> nat
    decreases s.len(),
{
    if s.len() == 0 {
        0
    } else if s.last() == '\n' {
        0
    } else {
        last_line_len(s.drop_last()) + 1
    }
}

/// A mathematical size: `(lines, last_line_length)`.
pub type SizeModel = (nat, nat);

/// The size of the screen area occupied by a piece of text.
pub open spec fn text_size(s: Seq<char>) -> SizeModel {
    (newline_count(s), last_line_len(s))
}

/// Placing a block of size `b` directly after a block of size `a` (`display: inline` in CSS).
pub open spec fn size_concat(a: SizeModel, b: SizeModel) -> SizeModel {
    if b.0 == 0 {
        (a.0, a.1 + b.1)
    } else {
        (a.0 + b.0, b.1)
    }
}

/// The size of a text made of no characters.
pub open spec fn size_zero() -> SizeModel {
    (0, 0)
}

/// The size of concatenated texts is the concatenation of their sizes.
pub proof fn lemma_text_size_concat(a: Seq<char>, b: Seq<char>)
    ensures
        text_size(a + b) == size_concat(text_size(a), text_size(b)),
    decreases b.len(),
{
    if b.len() == 0 {
        assert(a + b =~= a);
    } else {
        lemma_text_size_concat(a, b.drop_last());
        assert((a + b).drop_last() =~= a + b.drop_last());
        assert((a + b).last() == b.last());
    }
}

/// Sizes form a monoid: concatenation is associative ...
pub proof fn lemma_size_concat_assoc(a: SizeModel, b: SizeModel, c: SizeModel)
    ensures
        size_concat(size_concat(a, b), c) == size_concat(a, size_concat(b, c)),
{
}

/// ... with the empty size as its identity on both sides.
pub proof fn lemma_size_concat_zero(a: SizeModel)
    ensures
        size_concat(size_zero(), a) == a,
        size_concat(a, size_zero()) == a,
{
}

/// A text has no more lines, and no longer a last line, than it has characters.
pub proof fn lemma_text_size_bounded(s: Seq<char>)
    ensures
        newline_count(s) <= s.len(),
        last_line_len(s) <= s.len(),
    decreases s.len(),
{
    if s.len() > 0 {
        lemma_text_size_bounded(s.drop_last());
    }
}

/// Every text that fits in memory has a size that fits in machine integers.
pub proof fn lemma_text_size_fits(s: Seq<char>)
    requires
        s.len() <= usize::MAX,
    ensures
        fits(text_size(s)),
{
    lemma_text_size_bounded(s);
}

/// `n` spaces.
pub open spec fn spaces(n: nat) -> Seq<char> {
    Seq::new(n, |_i: int| ' ')
}

/// A text of spaces takes up a single line, as long as the text.
pub proof fn lemma_text_size_spaces(n: nat)
    ensures
        text_size(spaces(n)) == (0nat, n),
    decreases n,
{
    if n > 0 {
        lemma_text_size_spaces((n - 1) as nat);
        assert(spaces(n).drop_last() =~= spaces((n - 1) as nat));
    }
}

/// The size of a single character.
pub proof fn lemma_text_size_char(c: char)
    ensures
        text_size(seq![c]) == if c == '\n' {
            (1nat, 0nat)
        } else {
            (0nat, 1nat)
        },
{
    assert(seq![c].drop_last() =~= Seq::<char>::empty());
    assert(newline_count(Seq::<char>::empty()) == 0);
    assert(last_line_len(Seq::<char>::empty()) == 0);
    assert(seq![c].last() == c);
}

/// The number of characters in a text is at most the number of bytes of its UTF-8 encoding.
pub proof fn lemma_chars_len_le_utf8_len(s: Seq<char>)
    ensures
        s.len() <= vstd::utf8::encode_utf8(s).len(),
    decreases s.len(),
{
    if s.len() > 0 {
        lemma_chars_len_le_utf8_len(s.drop_first());
    }
}

/// A struct used to represent the screen space occupied by a single node of an AST.  This can
/// be thought of as the size of the bounding box of that node.  The important thing about this
/// is that it is independent of the text indentation, meaning that if a node gets reused
/// multiple times in a tree, then it's `Size` will always be the same.
#[derive(Debug, Copy, Clone, PartialEq, Eq, Structural)]
pub struct Size {
    lines: usize,
    last_line_length: usize,
}

impl View for Size {
    type V = SizeModel;

    closed spec fn view(&self) -> SizeModel {
        (self.lines as nat, self.last_line_length as nat)
    }
}

impl Size {
    /// Constructs a new `Size` from its parts
    pub fn new(lines: usize, last_line_length: usize) -> (s: Size)
        ensures
            s@ == (lines as nat, last_line_length as nat),
    {
        Size { lines, last_line_length }
    }

    /// Returns how many `\n` characters this node contains.
    pub fn lines(&self) -> (n: usize)
        ensures
            n == self@.0,
    {
        self.lines
    }

    /// Returns how many characters long the last line of this `Size` occupies.
    pub fn last_line_length(&self) -> (n: usize)
        ensures
            n == self@.1,
    {
        self.last_line_length
    }

    /// Measures the screen space occupied by a piece of text.
    pub fn of_text(string: &str) -> (s: Size)
        ensures
            s@ == text_size(string@),
    {
        let n_bytes = string.as_bytes().len();
        proof {
            lemma_chars_len_le_utf8_len(string@);
        }
        let mut lines: usize = 0;
        let mut last_line_length: usize = 0;
        let ghost mut seen: Seq<char> = Seq::empty();
        for c in it: string.chars()
            invariant
                n_bytes >= string@.len(),
                it.seq() == string@,
                seen == string@.take(it.index() as int),
                lines == newline_count(seen),
                last_line_length == last_line_len(seen),
                lines <= seen.len(),
                last_line_length <= seen.len(),
        {
            proof {
                assert(string@.take(it.index() + 1).drop_last() =~= seen);
                seen = string@.take(it.index() + 1);
            }
            if c == '\n' {
                lines = lines + 1;
                last_line_length = 0;
            } else {
                last_line_length = last_line_length + 1;
            }
        }
        proof {
            assert(seen =~= string@);
        }
        Size { lines, last_line_length }
    }
}


/// Whether both parts of a size model can be held in a `usize`.
pub open spec fn fits(s: SizeModel) -> bool {
    s.0 <= usize::MAX && s.1 <= usize::MAX
}

impl Size {
    /// The `Size` of a model that fits in machine integers.
    pub closed spec fn from_model(s: SizeModel) -> Size {
        Size { lines: s.0 as usize, last_line_length: s.1 as usize }
    }
}

impl From<&str> for Size {
    fn from(string: &str) -> (s: Size)
        ensures
            s@ == text_size(string@),
    {
        Size::of_text(string)
    }
}

impl vstd::std_specs::convert::FromSpecImpl<&str> for Size {
    open spec fn obeys_from_spec() -> bool {
        true
    }

    open spec fn from_spec(v: &str) -> Size {
        Size::from_model(text_size(v@))
    }
}

impl core::ops::Add for Size {
    type Output = Size;

    fn add(self, other: Size) -> (s: Size)
        ensures
            s@ == size_concat(self@, other@),
    {
        if other.lines == 0 {
            // If `other` only occupies one line, then it should just be stuck onto the last line
            // of this `Size`.  This is much like how `display: inline;` works in CSS.
            Size { lines: self.lines, last_line_length: self.last_line_length + other.last_line_length }
        } else {
            // If `other` occupies more than one line, then the last line of the combined `Size`
            // will be as long as the last line of `other`.
            Size { lines: self.lines + other.lines, last_line_length: other.last_line_length }
        }
    }
}

impl vstd::std_specs::ops::AddSpecImpl for Size {
    open spec fn obeys_add_spec() -> bool {
        true
    }

    open spec fn add_req(self, rhs: Size) -> bool {
        fits(size_concat(self@, rhs@))
    }

    open spec fn add_spec(self, rhs: Size) -> Size {
        Size::from_model(size_concat(self@, rhs@))
    }
}

impl core::ops::AddAssign for Size {
    fn add_assign(&mut self, other: Size)
        requires
            fits(size_concat(old(self)@, other@)),
        ensures
            final(self)@ == size_concat(old(self)@, other@),
    {
        if other.lines == 0 {
            self.last_line_length = self.last_line_length + other.last_line_length;
        } else {
            self.lines = self.lines + other.lines;
            self.last_line_length = other.last_line_length;
        }
    }
}

} // verus!
