//! An iterator over the chars of a string, with utility methods used heavily while tokenizing.

use vstd::prelude::*;
use vstd::string::*;
use vstd::utf8::*;

use super::{parse_u32_radix, u32_from_str_radix, BadUnicodeEscapeError};
use crate::char_set::{char_from_u32, is_scalar};

verus! {

broadcast use {
    vstd::utf8::encode_utf8_decode_utf8,
    vstd::utf8::encode_utf8_valid_utf8,
    vstd::string::axiom_spec_iter,
    vstd::string::next_postcondition,
    vstd::slice::axiom_spec_len,
};

/// The number of bytes of the UTF-8 encoding of `s`.
pub open spec fn byte_len(s: Seq<char>) -> nat {
    encode_utf8(s).len()
}

/// The number of leading chars of `s` whose UTF-8 encoding is exactly `len` bytes long, or
/// `None` if `len` bytes end in the middle of a char or beyond the end of `s`.
pub open spec fn chars_in_bytes(s: Seq<char>, len: int) -> Option<nat>
    decreases s.len(),
{
    if len == 0 {
        Some(0)
    } else if len < 0 || s.len() == 0 {
        None
    } else {
        match chars_in_bytes(s.drop_first(), len - encode_scalar(s[0] as u32).len()) {
            Some(k) => Some(k + 1),
            None => None,
        }
    }
}

/// The UTF-8 encoding of a concatenation is the concatenation of the encodings.
pub proof fn lemma_encode_concat(a: Seq<char>, b: Seq<char>)
    ensures
        encode_utf8(a + b) == encode_utf8(a) + encode_utf8(b),
    decreases a.len(),
{
    if a.len() == 0 {
        assert(a + b == b);
        assert(encode_utf8(a) + encode_utf8(b) == encode_utf8(b));
    } else {
        lemma_encode_concat(a.drop_first(), b);
        assert((a + b).drop_first() == a.drop_first() + b);
        assert((a + b)[0] == a[0]);
        assert(encode_scalar(a[0] as u32) + (encode_utf8(a.drop_first()) + encode_utf8(b)) == (
        encode_scalar(a[0] as u32) + encode_utf8(a.drop_first())) + encode_utf8(b));
    }
}

/// Splitting the encoding of `s` at the end of its first `k` chars.
pub proof fn lemma_encode_split(s: Seq<char>, k: int)
    requires
        0 <= k <= s.len(),
    ensures
        encode_utf8(s) == encode_utf8(s.take(k)) + encode_utf8(s.skip(k)),
        byte_len(s) == byte_len(s.take(k)) + byte_len(s.skip(k)),
{
    assert(s == s.take(k) + s.skip(k));
    lemma_encode_concat(s.take(k), s.skip(k));
}

/// The encoding of a single char.
pub proof fn lemma_encode_single(c: char)
    ensures
        encode_utf8(seq![c]) == encode_scalar(c as u32),
{
    assert(seq![c].drop_first() == Seq::<char>::empty());
    assert(encode_utf8(Seq::<char>::empty()) == Seq::<u8>::empty());
    assert(encode_scalar(c as u32) + Seq::<u8>::empty() == encode_scalar(c as u32));
}

/// A first scalar takes at least one byte.
proof fn lemma_scalar_len(c: char)
    ensures
        1 <= encode_scalar(c as u32).len() <= 4,
{
}

/// `len` bytes end on a char boundary of the encoding of `s` exactly when they hold whole
/// chars, and then they are the encoding of those chars.
pub proof fn lemma_chars_in_bytes(s: Seq<char>, len: int)
    requires
        0 <= len,
    ensures
        (len <= byte_len(s) && is_char_boundary(encode_utf8(s), len)) <==> chars_in_bytes(s, len) is Some,
        chars_in_bytes(s, len) matches Some(k) ==> k <= s.len() && byte_len(s.take(k as int)) == len,
    decreases s.len(),
{
    let bytes = encode_utf8(s);
    if len == 0 {
        assert(s.take(0) == Seq::<char>::empty());
    } else if s.len() == 0 {
    } else {
        let w = encode_scalar(s[0] as u32).len() as int;
        lemma_scalar_len(s[0]);
        encode_utf8_first_scalar(s);
        assert(pop_first_scalar(bytes) == encode_utf8(s.drop_first()));
        if len - w >= 0 {
            lemma_chars_in_bytes(s.drop_first(), len - w);
            if let Some(k) = chars_in_bytes(s.drop_first(), len - w) {
                lemma_encode_split(s, k + 1 as int);
                assert(s.take(k + 1 as int) == seq![s[0]] + s.drop_first().take(k as int));
                lemma_encode_concat(seq![s[0]], s.drop_first().take(k as int));
                lemma_encode_single(s[0]);
            }
        } else {
            assert(0 < len < w);
            assert(len <= bytes.len());
            assert(!is_char_boundary(pop_first_scalar(bytes), len - w));
        }
    }
}

/// A byte sequence that is valid UTF-8 and a prefix of other valid UTF-8 ends on a char
/// boundary of it.
pub proof fn lemma_prefix_boundary(bytes: Seq<u8>, p: Seq<u8>)
    requires
        valid_utf8(bytes),
        valid_utf8(p),
        p.len() <= bytes.len(),
        bytes.subrange(0, p.len() as int) == p,
    ensures
        is_char_boundary(bytes, p.len() as int),
    decreases p.len(),
{
    if p.len() > 0 {
        assert(bytes[0] == p[0]);
        let l = length_of_first_scalar(p);
        assert(length_of_first_scalar(bytes) == l);
        assert(l <= p.len());
        let pb = pop_first_scalar(bytes);
        let pp = pop_first_scalar(p);
        assert(pb.subrange(0, pp.len() as int) == pp) by {
            assert forall|i: int| 0 <= i < pp.len() implies pb[i] == pp[i] by {
                assert(pb[i] == bytes[i + l]);
                assert(pp[i] == p[i + l]);
                assert(bytes.subrange(0, p.len() as int)[i + l] == bytes[i + l]);
            }
        }
        lemma_prefix_boundary(pb, pp);
    }
}

/// The leading chars of `s` whose encoding is `byte_len(s.take(k))` bytes long are its first
/// `k` chars.
pub proof fn lemma_chars_in_bytes_take(s: Seq<char>, k: int)
    requires
        0 <= k <= s.len(),
    ensures
        chars_in_bytes(s, byte_len(s.take(k)) as int) == Some(k as nat),
    decreases k,
{
    if k > 0 {
        let w = encode_scalar(s[0] as u32).len() as int;
        lemma_scalar_len(s[0]);
        lemma_chars_in_bytes_take(s.drop_first(), k - 1);
        assert(s.take(k) == seq![s[0]] + s.drop_first().take(k - 1));
        lemma_encode_concat(seq![s[0]], s.drop_first().take(k - 1));
        lemma_encode_single(s[0]);
    } else {
        assert(s.take(0) == Seq::<char>::empty());
    }
}

/// The position of the first occurrence of `d` in `s` at or after `i`.
pub open spec fn find_from(s: Seq<char>, d: Seq<char>, i: int) -> Option<nat>
    decreases s.len() - i,
{
    if i < 0 || i + d.len() > s.len() {
        None
    } else if s.subrange(i, i + d.len()) == d {
        Some(i as nat)
    } else {
        proof {
            if d.len() == 0 {
                assert(s.subrange(i, i) =~= d);
            }
        }
        find_from(s, d, i + 1)
    }
}

/// A first occurrence found from `i` lies in `s` at or after `i`.
pub proof fn lemma_find_from_bounds(s: Seq<char>, d: Seq<char>, i: int)
    ensures
        find_from(s, d, i) matches Some(k) ==> i <= k && k + d.len() <= s.len() && s.subrange(
            k as int,
            (k + d.len()) as int,
        ) == d,
    decreases s.len() - i,
{
    if i < 0 || i + d.len() > s.len() {
    } else if s.subrange(i, i + d.len()) == d {
    } else {
        if d.len() == 0 {
            assert(s.subrange(i, i) =~= d);
        }
        lemma_find_from_bounds(s, d, i + 1);
    }
}

/// Two char sequences with the same encoding are equal.
pub proof fn lemma_encode_injective(a: Seq<char>, b: Seq<char>)
    requires
        encode_utf8(a) == encode_utf8(b),
    ensures
        a == b,
{
    assert(decode_utf8(encode_utf8(a)) == a);
    assert(decode_utf8(encode_utf8(b)) == b);
}

/// The number of bytes `c` needs when encoded in UTF-8 (as `char::len_utf8` gives it).
fn char_len_utf8(c: char) -> (n: usize)
    ensures
        n == encode_scalar(c as u32).len(),
{
    let v = c as u32;
    if v < 0x80 {
        1
    } else if v < 0x800 {
        2
    } else if v < 0x10000 {
        3
    } else {
        4
    }
}

/// Whether the bytes `b` are a prefix of the bytes `a`.
fn bytes_start_with(a: &[u8], b: &[u8]) -> (r: bool)
    ensures
        r == (b@.len() <= a@.len() && a@.subrange(0, b@.len() as int) == b@),
{
    if b.len() > a.len() {
        return false;
    }
    let mut i: usize = 0;
    while i < b.len()
        invariant
            i <= b@.len() <= a@.len(),
            forall|j: int| 0 <= j < i ==> a@[j] == b@[j],
        decreases b@.len() - i,
    {
        if a[i] != b[i] {
            assert(a@.subrange(0, b@.len() as int)[i as int] != b@[i as int]);
            return false;
        }
        i = i + 1;
    }
    assert(a@.subrange(0, b@.len() as int) == b@);
    true
}

/// An iterator over the chars of a string, similar to `CharIndices`, providing utility methods
/// (like [`eat`](StrIter::eat)) which are used heavily while tokenizing.
#[derive(Debug, Clone, Copy)]
pub struct StrIter<'s> {
    source_str: &'s str,
    /// The number of bytes consumed
    consumed: usize,
    /// The part of `source_str` yet to be consumed
    remaining: &'s str,
}

impl<'s> StrIter<'s> {
    /// The chars of the string being iterated over.
    pub closed spec fn source(&self) -> Seq<char> {
        self.source_str@
    }

    /// The number of chars consumed.
    pub closed spec fn pos(&self) -> nat {
        (self.source_str@.len() - self.remaining@.len()) as nat
    }

    /// The chars yet to be consumed.
    pub open spec fn rest(&self) -> Seq<char> {
        self.source().skip(self.pos() as int)
    }

    /// The number of bytes consumed.
    pub open spec fn consumed_bytes(&self) -> nat {
        byte_len(self.source().take(self.pos() as int))
    }

    /// The internal invariant of a `StrIter`.
    pub closed spec fn wf(&self) -> bool {
        &&& self.remaining@.len() <= self.source_str@.len()
        &&& self.remaining@ == self.source_str@.skip(self.pos() as int)
        &&& self.consumed == byte_len(self.source_str@.take(self.pos() as int))
        &&& byte_len(self.source_str@) <= usize::MAX
    }

    /// The bytes consumed and the bytes left to consume make up the whole source string.
    pub proof fn law_consumed_and_remaining(&self)
        requires
            self.wf(),
        ensures
            byte_len(self.source().take(self.pos() as int)) + byte_len(self.rest()) == byte_len(
                self.source(),
            ),
            self.source().take(self.pos() as int) + self.rest() == self.source(),
            self.pos() <= self.source().len(),
    {
        lemma_encode_split(self.source(), self.pos() as int);
        assert(self.source().take(self.pos() as int) + self.rest() == self.source());
    }

    /// An iterator at the start of `s`.
    pub fn new(s: &'s str) -> (it: Self)
        ensures
            it.wf(),
            it.source() == s@,
            it.pos() == 0,
    {
        let n = s.as_bytes().len();
        assert(s@.skip(0) == s@);
        assert(s@.take(0) == Seq::<char>::empty());
        StrIter { source_str: s, consumed: 0, remaining: s }
    }

    /// Moves past the next `len` bytes of `self.remaining`, which end on a char boundary.
    fn advance(&mut self, len: usize) -> (taken: &'s str)
        requires
            old(self).wf(),
            chars_in_bytes(old(self).rest(), len as int) is Some,
        ensures
            final(self).wf(),
            final(self).source() == old(self).source(),
            ({
                let k = chars_in_bytes(old(self).rest(), len as int)->Some_0;
                &&& final(self).pos() == old(self).pos() + k
                &&& taken@ == old(self).rest().take(k as int)
            }),
    {
        let ghost rest = self.remaining@;
        let ghost src = self.source_str@;
        let ghost pos = self.pos() as int;
        proof {
            lemma_chars_in_bytes(rest, len as int);
        }
        let ghost k = chars_in_bytes(rest, len as int)->Some_0 as int;
        let (taken, new_rest) = self.remaining.split_at(len);
        proof {
            lemma_encode_split(rest, k);
            assert(encode_utf8(taken@) == encode_utf8(rest.take(k)));
            lemma_encode_injective(taken@, rest.take(k));
            assert(encode_utf8(new_rest@) == encode_utf8(rest.skip(k)));
            lemma_encode_injective(new_rest@, rest.skip(k));
            assert(rest.skip(k) == src.skip(pos + k));
            lemma_encode_split(src.take(pos + k), pos);
            assert(src.take(pos + k).take(pos) == src.take(pos));
            assert(src.take(pos + k).skip(pos) == rest.take(k));
            lemma_encode_split(src, pos + k);
        }
        self.remaining = new_rest;
        self.consumed = self.consumed + len;
        taken
    }

    /// Pops the next [`char`] from `self`, along with its index in the source string
    pub fn next_char(&mut self) -> (r: Option<(usize, char)>)
        requires
            old(self).wf(),
        ensures
            final(self).wf(),
            final(self).source() == old(self).source(),
            old(self).rest().len() == 0 ==> r is None && final(self).pos() == old(self).pos(),
            old(self).rest().len() > 0 ==> (r matches Some((i, c)) && i == old(self).consumed_bytes()
                && c == old(self).rest()[0] && final(self).pos() == old(self).pos() + 1),
    {
        let mut chars = self.remaining.chars();
        match chars.next() {
            None => None,
            Some(c) => {
                let idx = self.consumed;
                let w = char_len_utf8(c);
                proof {
                    let rest = self.remaining@;
                    assert(rest.take(1) == seq![c]);
                    lemma_encode_single(c);
                    lemma_chars_in_bytes_take(rest, 1);
                }
                self.advance(w);
                Some((idx, c))
            },
        }
    }

    /// If the remainder of `self` starts with `s`, consume it and return `true`.  Otherwise,
    /// return `false` without modifying `self`.
    pub fn eat(&mut self, s: &str) -> (r: bool)
        requires
            old(self).wf(),
        ensures
            final(self).wf(),
            final(self).source() == old(self).source(),
            r == (s@.len() <= old(self).rest().len() && old(self).rest().take(s@.len() as int) == s@),
            r ==> final(self).pos() == old(self).pos() + s@.len(),
            !r ==> final(self).pos() == old(self).pos(),
    {
        let ghost rest = self.remaining@;
        let s_bytes = s.as_bytes();
        let s_len = s_bytes.len();
        let matches = bytes_start_with(self.remaining.as_bytes(), s_bytes);
        proof {
            let bytes = encode_utf8(rest);
            let sb = encode_utf8(s@);
            if matches {
                lemma_prefix_boundary(bytes, sb);
                lemma_chars_in_bytes(rest, sb.len() as int);
                let k = chars_in_bytes(rest, sb.len() as int)->Some_0 as int;
                lemma_encode_split(rest, k);
                assert(encode_utf8(rest.take(k)) == bytes.subrange(0, sb.len() as int));
                lemma_encode_injective(rest.take(k), s@);
            }
            if s@.len() <= rest.len() && rest.take(s@.len() as int) == s@ {
                lemma_encode_split(rest, s@.len() as int);
                assert(bytes.subrange(0, sb.len() as int) == sb);
            }
        }
        if !matches {
            return false;
        }
        proof {
            lemma_chars_in_bytes_take(rest, s@.len() as int);
            assert(rest.take(s@.len() as int) == s@);
            assert(s_len == byte_len(s@));
        }
        let _ = self.advance(s_len);
        true
    }

    /// Moves `self` on by `len` bytes.
    ///
    /// Returns `None` if either `self` doesn't have this many bytes left to consume, or `len`
    /// bytes doesn't land on the boundary between two UTF-8 code-points.
    pub fn eat_len(&mut self, len: usize) -> (r: Option<&'s str>)
        requires
            old(self).wf(),
        ensures
            final(self).wf(),
            final(self).source() == old(self).source(),
            r is None <==> chars_in_bytes(old(self).rest(), len as int) is None,
            r is None ==> final(self).pos() == old(self).pos(),
            r matches Some(taken) ==> ({
                let k = chars_in_bytes(old(self).rest(), len as int)->Some_0;
                &&& final(self).pos() == old(self).pos() + k
                &&& taken@ == old(self).rest().take(k as int)
            }),
    {
        proof {
            lemma_chars_in_bytes(self.remaining@, len as int);
            lemma_encode_split(self.source_str@, self.pos() as int);
        }
        if len > self.remaining.len() || !self.remaining.is_char_boundary(len) {
            return None;
        }
        Some(self.advance(len))
    }

    /// Consumes [`char`]s from `self` until the predicate returns false or the end of the
    /// source string is reached.  This returns the [`str`] slice which contained these chars.
    pub fn take_chars_while(&mut self, p: impl Fn(char) -> bool) -> (taken: &'s str)
        requires
            old(self).wf(),
            forall|c: char| p.requires((c,)),
        ensures
            final(self).wf(),
            final(self).source() == old(self).source(),
            taken@ == old(self).rest().take(taken@.len() as int),
            final(self).pos() == old(self).pos() + taken@.len(),
            forall|i: int| 0 <= i < taken@.len() ==> p.ensures((old(self).rest()[i],), true),
            taken@.len() < old(self).rest().len() ==> p.ensures((old(self).rest()[taken@.len() as int],), false),
    {
        let start = self.remaining;
        let start_consumed = self.consumed;
        let ghost start_pos = self.pos() as int;
        let ghost rest = self.remaining@;
        loop
            invariant
                self.wf(),
                self.source() == old(self).source(),
                rest == old(self).rest(),
                start@ == rest,
                start_pos == old(self).pos(),
                start_consumed == byte_len(self.source().take(start_pos)),
                start_pos <= self.pos(),
                self.remaining@ == rest.skip(self.pos() - start_pos),
                forall|c: char| p.requires((c,)),
                forall|i: int| 0 <= i < self.pos() - start_pos ==> p.ensures((rest[i],), true),
            ensures
                self.wf(),
                self.source() == old(self).source(),
                start_pos <= self.pos(),
                self.remaining@ == rest.skip(self.pos() - start_pos),
                forall|i: int| 0 <= i < self.pos() - start_pos ==> p.ensures((rest[i],), true),
                self.pos() - start_pos < rest.len() ==> p.ensures((rest[self.pos() - start_pos],), false),
            decreases self.remaining@.len(),
        {
            let mut chars = self.remaining.chars();
            match chars.next() {
                None => {
                    break;
                },
                Some(c) => {
                    if !p(c) {
                        break;
                    }
                    let _ = self.next_char();
                },
            }
        }
        let ghost k = self.pos() - start_pos;
        proof {
            let src = self.source();
            lemma_encode_split(src.take(start_pos + k), start_pos);
            assert(src.take(start_pos + k).take(start_pos) == src.take(start_pos));
            assert(src.take(start_pos + k).skip(start_pos) == rest.take(k));
            lemma_chars_in_bytes_take(rest, k);
            lemma_chars_in_bytes(rest, byte_len(rest.take(k)) as int);
            lemma_encode_split(rest, k);
        }
        let len = self.consumed - start_consumed;
        let (taken, _) = start.split_at(len);
        proof {
            let bytes = encode_utf8(rest);
            assert(encode_utf8(taken@) == encode_utf8(rest.take(k)));
            lemma_encode_injective(taken@, rest.take(k));
        }
        taken
    }

    /// Attempts to parse the next `len` bytes as a number in a given `radix`, and returns the
    /// [`char`] with that code-point.
    pub fn eat_numeral(&mut self, len: usize, radix: u32) -> (r: Result<char, BadUnicodeEscapeError>)
        requires
            old(self).wf(),
            2 <= radix <= 36,
        ensures
            final(self).wf(),
            final(self).source() == old(self).source(),
            chars_in_bytes(old(self).rest(), len as int) is None ==> (r matches Err(
                BadUnicodeEscapeError::SliceFailed,
            ) && final(self).pos() == old(self).pos()),
            chars_in_bytes(old(self).rest(), len as int) matches Some(k) ==> ({
                let digits = old(self).rest().take(k as int);
                &&& final(self).pos() == old(self).pos() + k
                &&& match parse_u32_radix(digits, radix) {
                    None => r matches Err(BadUnicodeEscapeError::IntParse(text, _)) && text@ == digits,
                    Some(v) => if is_scalar(v as int) {
                        r == Ok::<char, BadUnicodeEscapeError>((v as int) as char)
                    } else {
                        r matches Err(BadUnicodeEscapeError::NoSuchChar(n)) && n == v
                    },
                }
            }),
    {
        // Read the next `len` bytes
        let radix_str = match self.eat_len(len) {
            Some(s) => s,
            None => {
                return Err(BadUnicodeEscapeError::SliceFailed);
            },
        };
        // Read them as a `u32` in the appropriate radix
        let codepoint_u32 = match u32_from_str_radix(radix_str, radix) {
            Ok(v) => v,
            Err(e) => {
                return Err(BadUnicodeEscapeError::IntParse(radix_str.to_owned(), e));
            },
        };
        // Generate a `char` with that code-point
        match char_from_u32(codepoint_u32) {
            Some(c) => Ok(c),
            None => Err(BadUnicodeEscapeError::NoSuchChar(codepoint_u32)),
        }
    }

    /// The offset in bytes, within what `self` has left, of the first occurrence of `d`.
    pub fn find(&self, d: &str) -> (r: Option<usize>)
        requires
            self.wf(),
        ensures
            match find_from(self.rest(), d@, 0) {
                Some(k) => r matches Some(n) && n == byte_len(self.rest().take(k as int)),
                None => r is None,
            },
    {
        let ghost s = self.rest();
        let ghost pos = self.pos() as int;
        let mut probe = *self;
        let ghost mut k: int = 0;
        proof {
            self.law_consumed_and_remaining();
        }
        loop
            invariant_except_break
                probe.wf(),
                probe.source() == self.source(),
                s == self.rest(),
                pos == self.pos(),
                pos <= self.source().len(),
                probe.pos() == pos + k,
                0 <= k <= s.len(),
                find_from(s, d@, 0) == find_from(s, d@, k),
            ensures
                probe.wf(),
                probe.source() == self.source(),
                probe.pos() == pos + k,
                0 <= k <= s.len(),
                find_from(s, d@, 0) == Some(k as nat),
            decreases s.len() - k,
        {
            proof {
                assert(probe.rest() =~= s.skip(k));
            }
            let mut attempt = probe;
            if attempt.eat(d) {
                proof {
                    assert(s.subrange(k, k + d@.len()) =~= probe.rest().take(d@.len() as int));
                }
                break;
            }
            proof {
                if k + d@.len() <= s.len() {
                    assert(s.subrange(k, k + d@.len()) =~= probe.rest().take(d@.len() as int));
                }
            }
            match probe.next_char() {
                Some(_) => {
                    proof {
                        k = k + 1;
                    }
                },
                None => {
                    proof {
                        if d@.len() == 0 {
                            assert(probe.rest().take(0) =~= d@);
                        }
                    }
                    return None;
                },
            }
        }
        proof {
            let src = self.source();
            lemma_encode_split(src.take(pos + k), pos);
            assert(src.take(pos + k).take(pos) =~= src.take(pos));
            assert(src.take(pos + k).skip(pos) =~= s.take(k));
        }
        Some(probe.consumed - self.consumed)
    }

    /// The number of bytes of `self` which have been consumed
    pub fn consumed_length(&self) -> (n: usize)
        requires
            self.wf(),
        ensures
            n == byte_len(self.source().take(self.pos() as int)),
    {
        self.consumed
    }

    /// Returns `true` if `self` has no more string to consume
    pub fn is_done(&self) -> (b: bool)
        requires
            self.wf(),
        ensures
            b == (self.pos() == self.source().len()),
    {
        self.remaining.is_empty()
    }

    /// The full string slice being tokenized
    pub fn source_str(&self) -> (s: &'s str)
        ensures
            s@ == self.source(),
    {
        self.source_str
    }

    /// The string slice yet to be consumed
    pub fn str_remaining(&self) -> (s: &'s str)
        requires
            self.wf(),
        ensures
            s@ == self.rest(),
    {
        self.remaining
    }
}

} // verus!
