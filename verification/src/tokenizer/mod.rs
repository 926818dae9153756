//! Tokenizing strings.

pub mod str_iter;

use std::num::ParseIntError;

use vstd::prelude::*;
use vstd::string::*;

use self::str_iter::{byte_len, chars_in_bytes, find_from, lemma_chars_in_bytes, StrIter};
use crate::base::string_push;
use crate::char_set::is_scalar;
use crate::grammar::{regex_find, regex_first_match, 
    bimap_pairs, bimap_pairs_in_some_order, entry_views, pair_views, Grammar, Stringy, Type, TypeInner,
};
use crate::grammar::{TypeId, TokenId, Whitespace};

verus! {

#[verifier::external_type_specification]
#[verifier::external_body]
pub struct ExParseIntError(ParseIntError);

/// `ParseIntError::clone`: a copy of the error.  Nothing is stated of it, the error being opaque.
pub assume_specification[ <ParseIntError as Clone>::clone ](e: &ParseIntError) -> (r: ParseIntError);

/// Reasons why parsing a unicode escape sequence could fail
#[derive(Debug, Clone)]
pub enum BadUnicodeEscapeError {
    /// Couldn't slice the correct number of bytes.  There are two root causes (which [`str`]'s
    /// API doesn't let us distinguish):
    /// - there wasn't enough input string left
    /// - the expected end of the bytes was not on the border between two UTF-8 code-points.
    SliceFailed,
    /// The string sliced correctly, but the bytes could not be parsed as an integer in the
    /// designated radix
    IntParse(String, ParseIntError),
    /// The number parsed correctly, but does not correspond to a unicode code-point
    NoSuchChar(u32),
}

/// The value of `c` as a digit in base `radix`, as `char::to_digit` gives it: `0`-`9`, then
/// `a`-`z` or `A`-`Z` for the digits from ten on.
pub open spec fn digit_in_radix(c: char, radix: u32) -> Option<nat> {
    let v: int = if '0' <= c <= '9' {
        c as int - '0' as int
    } else if 'a' <= c <= 'z' {
        c as int - 'a' as int + 10
    } else if 'A' <= c <= 'Z' {
        c as int - 'A' as int + 10
    } else {
        36
    };
    if v < radix {
        Some(v as nat)
    } else {
        None
    }
}

/// The number that the digits `s` write in base `radix`, if they are all digits.
pub open spec fn digits_in_radix(s: Seq<char>, radix: u32) -> Option<nat>
    decreases s.len(),
{
    if s.len() == 0 {
        Some(0)
    } else {
        match (digits_in_radix(s.drop_last(), radix), digit_in_radix(s.last(), radix)) {
            (Some(a), Some(d)) => Some(a * (radix as nat) + d),
            _ => None,
        }
    }
}

/// The number that `u32::from_str_radix` reads in `s`: an optional `+`, then at least one digit
/// in base `radix`, with a value that fits in a `u32`.
pub open spec fn parse_u32_radix(s: Seq<char>, radix: u32) -> Option<u32> {
    let digits = if s.len() > 0 && s[0] == '+' {
        s.drop_first()
    } else {
        s
    };
    if digits.len() == 0 {
        None
    } else {
        match digits_in_radix(digits, radix) {
            Some(v) => if v <= u32::MAX {
                Some(v as u32)
            } else {
                None
            },
            None => None,
        }
    }
}

/// `u32::from_str_radix`: reads `s` as an optional `+` followed by digits in base `radix`.  It
/// fails on anything else, on no digits and on a value above `u32::MAX`, and it panics when
/// `radix` is not in `2..=36`.  The error's kind is left unsaid.
#[verifier::external_body]
pub(crate) fn u32_from_str_radix(s: &str, radix: u32) -> (r: Result<u32, ParseIntError>)
    requires
        2 <= radix <= 36,
    ensures
        r is Ok <==> parse_u32_radix(s@, radix) is Some,
        r matches Ok(v) ==> parse_u32_radix(s@, radix) == Some(v),
{
    u32::from_str_radix(s, radix)
}

/// A token read from a string: a static token of the grammar, or the de-escaped contents of a
/// stringy node of some type.
#[derive(Debug, Clone, Eq, PartialEq, Hash)]
pub enum ParsedToken {
    Static(TokenId),
    Stringy(TypeId, String),
}

/// The reasons why tokenizing can fail.
#[derive(Debug, Clone)]
pub enum TokenizeError {
    /// No token matches the string pattern following a given index
    NoToken { start_idx: usize },
    /// No end delimiter was found for the start delimiter of a stringy node starting at
    /// `start_idx`
    UnfinishedStringy { start_idx: usize, type_id: TypeId },
    /// An escape sequence was started but not followed by any legal value
    BadEscape { start_idx: usize, type_id: TypeId },
    /// An unicode escape sequence was started but not followed by a legal numeral
    BadUnicodeValue { start_idx: usize, type_id: TypeId, inner: BadUnicodeEscapeError },
}

/// `s` starts with `p`.
pub open spec fn starts_with(s: Seq<char>, p: Seq<char>) -> bool {
    p.len() <= s.len() && s.take(p.len() as int) == p
}

/// `taken` is the longest prefix of `s` whose chars all occur in `set`.
pub open spec fn is_leading_run(taken: Seq<char>, s: Seq<char>, set: Seq<char>) -> bool {
    &&& starts_with(s, taken)
    &&& forall|i: int| 0 <= i < taken.len() ==> set.contains(#[trigger] taken[i])
    &&& taken.len() < s.len() ==> !set.contains(s[taken.len() as int])
}

/// Consumes the whitespace at the start of what `iter` has left, and returns it.
pub fn consume_whitespace<'s>(iter: &mut StrIter<'s>, whitespace: &Whitespace) -> (taken: &'s str)
    requires
        old(iter).wf(),
        whitespace.charset().wf(),
    ensures
        final(iter).wf(),
        final(iter).source() == old(iter).source(),
        is_leading_run(taken@, old(iter).rest(), whitespace.charset().chars()),
        final(iter).pos() == old(iter).pos() + taken@.len(),
{
    let is_ws = |ch: char| -> (b: bool)
        requires
            whitespace.charset().wf(),
        ensures
            b == whitespace.charset().chars().contains(ch),
        { whitespace.is(ch) };
    let taken = iter.take_chars_while(is_ws);
    proof {
        let set = whitespace.charset().chars();
        iter.law_consumed_and_remaining();
        assert forall|i: int| 0 <= i < taken@.len() implies set.contains(#[trigger] taken@[i]) by {
            assert(taken@[i] == old(iter).rest()[i]);
        }
    }
    taken
}

/// Consumes the match `found` (byte offsets into what `iter` has left) of a regex anchored at
/// the start, and returns the matched text.  A regex anchored at the start only matches from
/// offset `0`: a match found elsewhere is taken as no match.
pub fn eat_regex_match(iter: &mut StrIter<'_>, found: Option<(usize, usize)>) -> (r: Option<String>)
    requires
        old(iter).wf(),
        found matches Some((start, end)) ==> chars_in_bytes(old(iter).rest(), end as int) is Some,
    ensures
        final(iter).wf(),
        final(iter).source() == old(iter).source(),
        match found {
            Some((start, end)) if start == 0 => {
                let k = chars_in_bytes(old(iter).rest(), end as int)->Some_0;
                &&& r matches Some(c) && c@ == old(iter).rest().take(k as int)
                &&& final(iter).pos() == old(iter).pos() + k
            },
            _ => r is None && final(iter).pos() == old(iter).pos(),
        },
{
    match found {
        Some((start, end)) => {
            if start != 0 {
                return None;
            }
            match iter.eat_len(end) {
                Some(text) => Some(text.to_string()),
                None => None,
            }
        },
        None => None,
    }
}

/// What [`eat_delimited`] does with `old` into `new`, returning `r`: if the rest starts with
/// `ds`, it consumes the text up to and including the first `de` after it and returns the text
/// between them; it fails if no `de` follows, and consumes nothing when the rest does not start
/// with `ds`.
pub open spec fn eats_delimited(
    old: StrIter,
    new: StrIter,
    r: Result<Option<String>, TokenizeError>,
    ds: Seq<char>,
    de: Seq<char>,
    type_id: TypeId,
) -> bool {
    let rest = old.rest();
    &&& new.wf()
    &&& new.source() == old.source()
    &&& if !starts_with(rest, ds) {
        r matches Ok(None) && new.pos() == old.pos()
    } else {
        match find_from(rest.skip(ds.len() as int), de, 0) {
            Some(k) => r matches Ok(Some(c)) && c@ == rest.skip(ds.len() as int).take(k as int)
                && new.pos() == old.pos() + ds.len() + k + de.len(),
            None => r == Err::<Option<String>, TokenizeError>(
                TokenizeError::UnfinishedStringy { start_idx: old.consumed_bytes() as usize, type_id },
            ),
        }
    }
}

/// Reads a token between the delimiters `delim_start` and `delim_end`, with no escaping.
pub fn eat_delimited(iter: &mut StrIter<'_>, delim_start: &str, delim_end: &str, type_id: TypeId) -> (r: Result<Option<String>, TokenizeError>)
    requires
        old(iter).wf(),
    ensures
        eats_delimited(*old(iter), *final(iter), r, delim_start@, delim_end@, type_id),
{
    let start_idx = iter.consumed_length();
    if !iter.eat(delim_start) {
        return Ok(None);
    }
    let ghost s = iter.rest();
    proof {
        iter.law_consumed_and_remaining();
        assert(s =~= old(iter).rest().skip(delim_start@.len() as int));
    }
    // Search for the end delimiter
    let len = match iter.find(delim_end) {
        Some(len) => len,
        None => {
            return Err(TokenizeError::UnfinishedStringy { start_idx, type_id });
        },
    };
    let ghost k = find_from(s, delim_end@, 0)->Some_0;
    proof {
        str_iter::lemma_find_from_bounds(s, delim_end@, 0);
        str_iter::lemma_chars_in_bytes_take(s, k as int);
    }
    let contents = match iter.eat_len(len) {
        Some(text) => text.to_string(),
        None => {
            return Ok(None);
        },
    };
    proof {
        iter.law_consumed_and_remaining();
        assert(iter.rest() =~= s.skip(k as int));
        assert(s.subrange(k as int, (k + delim_end@.len()) as int) =~= iter.rest().take(delim_end@.len() as int));
    }
    let ate = iter.eat(delim_end);
    Ok(Some(contents))
}

/// Why a unicode escape sequence fails.
pub enum UnicodeFault {
    /// The digits do not lie in the rest of the string
    SliceFailed,
    /// These digits are not a number in base 16
    IntParse(Seq<char>),
    /// The number is no unicode code-point
    NoSuchChar(u32),
}

/// What scanning the contents of an escaped stringy token gives.
pub enum Scan {
    /// The end char was found: the token takes `len` chars, which de-escape to `contents`
    Closed { len: nat, contents: Seq<char> },
    /// The string ended before the end char
    Unfinished,
    /// The escape char at `at` is followed by no escape sequence
    BadEscape { at: nat },
    /// The unicode escape sequence whose escape char is at `at` fails for the reason `fault`
    BadUnicode { at: nat, fault: UnicodeFault },
}

/// The index of the first rule, from `i` on, whose escaped text `after` starts with.
pub open spec fn first_rule_from(after: Seq<char>, rules: Seq<(Seq<char>, Seq<char>)>, i: int) -> Option<nat>
    decreases rules.len() - i,
{
    if i < 0 || i >= rules.len() {
        None
    } else if starts_with(after, rules[i].0) {
        Some(i as nat)
    } else {
        first_rule_from(after, rules, i + 1)
    }
}

/// The rule that [`first_rule_from`] finds is one from `i` on whose text `after` starts with.
pub proof fn lemma_first_rule_from(after: Seq<char>, rules: Seq<(Seq<char>, Seq<char>)>, i: int)
    ensures
        first_rule_from(after, rules, i) matches Some(j) ==> i <= j < rules.len() && starts_with(
            after,
            rules[j as int].0,
        ),
    decreases rules.len() - i,
{
    if 0 <= i < rules.len() && !starts_with(after, rules[i].0) {
        lemma_first_rule_from(after, rules, i + 1);
    }
}

/// What the text `after` an escape char de-escapes to.
pub enum EscapeStep {
    /// The first `len` chars de-escape to `text`
    Deescaped { len: nat, text: Seq<char> },
    /// No escape sequence starts `after`
    Bad,
    /// A unicode escape sequence starts `after`, but fails for the reason given
    BadUnicode(UnicodeFault),
}

/// What the text `after` an escape char de-escapes to: the de-escaped text of the first of
/// `rules` whose escaped text starts `after`, or else, when `after` starts with `uni`, the char
/// whose code-point the next four bytes write in hex.
pub open spec fn escape_step(after: Seq<char>, rules: Seq<(Seq<char>, Seq<char>)>, uni: Option<Seq<char>>) -> EscapeStep {
    match first_rule_from(after, rules, 0) {
        Some(i) => EscapeStep::Deescaped { len: rules[i as int].0.len(), text: rules[i as int].1 },
        None => match uni {
            Some(u) => if starts_with(after, u) {
                let hex = after.skip(u.len() as int);
                match chars_in_bytes(hex, 4) {
                    None => EscapeStep::BadUnicode(UnicodeFault::SliceFailed),
                    Some(k) => {
                        let digits = hex.take(k as int);
                        match parse_u32_radix(digits, 16) {
                            None => EscapeStep::BadUnicode(UnicodeFault::IntParse(digits)),
                            Some(v) => if is_scalar(v as int) {
                                EscapeStep::Deescaped { len: u.len() + k, text: seq![(v as int) as char] }
                            } else {
                                EscapeStep::BadUnicode(UnicodeFault::NoSuchChar(v))
                            },
                        }
                    },
                }
            } else {
                EscapeStep::Bad
            },
            None => EscapeStep::Bad,
        },
    }
}

/// An escape sequence lies in the text after the escape char.
pub proof fn lemma_escape_step_len(after: Seq<char>, rules: Seq<(Seq<char>, Seq<char>)>, uni: Option<Seq<char>>)
    ensures
        escape_step(after, rules, uni) matches EscapeStep::Deescaped { len, text } ==> len <= after.len(),
{
    lemma_first_rule_from(after, rules, 0);
    if let Some(u) = uni {
        if u.len() <= after.len() {
            lemma_chars_in_bytes(after.skip(u.len() as int), 4);
        }
    }
}

/// Scans the contents of an escaped stringy token `s` from position `p`, having de-escaped
/// `contents` so far: every char stands for itself up to the `end` char, except the `esc`
/// char, which starts an escape sequence (see [`escape_step`]).
pub open spec fn scan_escaped(
    s: Seq<char>,
    p: int,
    contents: Seq<char>,
    end: char,
    esc: char,
    rules: Seq<(Seq<char>, Seq<char>)>,
    uni: Option<Seq<char>>,
) -> Scan
    decreases s.len() - p,
{
    if p < 0 || p >= s.len() {
        Scan::Unfinished
    } else if s[p] == end {
        Scan::Closed { len: (p + 1) as nat, contents }
    } else if s[p] == esc {
        match escape_step(s.skip(p + 1), rules, uni) {
            EscapeStep::Deescaped { len, text } => {
                proof {
                    lemma_escape_step_len(s.skip(p + 1), rules, uni);
                }
                scan_escaped(s, p + 1 + len, contents + text, end, esc, rules, uni)
            },
            EscapeStep::Bad => Scan::BadEscape { at: p as nat },
            EscapeStep::BadUnicode(fault) => Scan::BadUnicode { at: p as nat, fault },
        }
    } else {
        scan_escaped(s, p + 1, contents.push(s[p]), end, esc, rules, uni)
    }
}

/// `inner` is the error that `fault` describes.
pub open spec fn fault_matches(inner: BadUnicodeEscapeError, fault: UnicodeFault) -> bool {
    match fault {
        UnicodeFault::SliceFailed => inner is SliceFailed,
        UnicodeFault::IntParse(digits) => inner matches BadUnicodeEscapeError::IntParse(text, _) && text@ == digits,
        UnicodeFault::NoSuchChar(v) => inner == BadUnicodeEscapeError::NoSuchChar(v),
    }
}

/// The view of an optional string.
pub open spec fn opt_view(o: Option<String>) -> Option<Seq<char>> {
    match o {
        Some(s) => Some(s@),
        None => None,
    }
}

/// Reads the escape sequence at the start of what `iter` has left (just after an escape char),
/// and returns what it de-escapes to.  It fails with `None` when no escape sequence starts
/// there, and with the reason when a unicode escape sequence is malformed.
pub fn eat_escape(iter: &mut StrIter<'_>, rules: &Vec<(&String, &String)>, unicode_hex_4: &Option<String>) -> (r: Result<String, Option<BadUnicodeEscapeError>>)
    requires
        old(iter).wf(),
    ensures
        final(iter).wf(),
        final(iter).source() == old(iter).source(),
        match escape_step(old(iter).rest(), pair_views(rules@), opt_view(*unicode_hex_4)) {
            EscapeStep::Deescaped { len, text } => r matches Ok(t) && t@ == text && final(iter).pos()
                == old(iter).pos() + len,
            EscapeStep::Bad => r matches Err(None),
            EscapeStep::BadUnicode(fault) => r matches Err(Some(inner)) && fault_matches(inner, fault),
        },
{
    let ghost rs = pair_views(rules@);
    let ghost after = iter.rest();
    // Consume explicit escapes if needed
    let mut i: usize = 0;
    while i < rules.len()
        invariant
            iter.source() == old(iter).source(),
            iter.pos() == old(iter).pos(),
            iter.wf(),
            after == iter.rest(),
            i <= rules@.len(),
            rs == pair_views(rules@),
            first_rule_from(after, rs, 0) == first_rule_from(after, rs, i as int),
        decreases rules@.len() - i,
    {
        let (escaped, deescaped) = rules[i];
        proof {
            assert(rs[i as int] == (escaped@, deescaped@));
        }
        if iter.eat(escaped.as_str()) {
            proof {
                assert(first_rule_from(after, rs, i as int) == Some(i as nat));
            }
            return Ok(deescaped.as_str().to_string());
        }
        i = i + 1;
    }
    // Consume 4-digit hex unicode
    if let Some(seq) = unicode_hex_4 {
        if iter.eat(seq.as_str()) {
            proof {
                iter.law_consumed_and_remaining();
                old(iter).law_consumed_and_remaining();
                assert(iter.rest() =~= after.skip(seq@.len() as int));
            }
            return match iter.eat_numeral(4, 16) {
                Ok(c) => {
                    let mut text = String::new();
                    string_push(&mut text, c);
                    proof {
                        assert(text@ =~= seq![c]);
                    }
                    Ok(text)
                },
                Err(inner) => Err(Some(inner)),
            };
        }
    }
    Err(None)
}

/// What [`eat_escaped`] does with `old` into `new`, returning `r`: if the rest starts with `ds`,
/// it scans the escaped contents after it (see [`scan_escaped`]), consuming the token when the
/// end char closes it; errors give the byte index of the token's start or of the failing
/// escape char.  It consumes nothing when the rest does not start with `ds`.
pub open spec fn eats_escaped(
    old: StrIter,
    new: StrIter,
    r: Result<Option<String>, TokenizeError>,
    ds: Seq<char>,
    end: char,
    esc: char,
    rules: Seq<(Seq<char>, Seq<char>)>,
    uni: Option<Seq<char>>,
    type_id: TypeId,
) -> bool {
    let rest = old.rest();
    let base = old.pos() + ds.len();
    &&& new.wf()
    &&& new.source() == old.source()
    &&& if !starts_with(rest, ds) {
        r matches Ok(None) && new.pos() == old.pos()
    } else {
        match scan_escaped(rest.skip(ds.len() as int), 0, Seq::empty(), end, esc, rules, uni) {
            Scan::Closed { len, contents } => r matches Ok(Some(c)) && c@ == contents && new.pos()
                == base + len,
            Scan::Unfinished => r == Err::<Option<String>, TokenizeError>(
                TokenizeError::UnfinishedStringy { start_idx: old.consumed_bytes() as usize, type_id },
            ),
            Scan::BadEscape { at } => r == Err::<Option<String>, TokenizeError>(
                TokenizeError::BadEscape {
                    start_idx: byte_len(old.source().take((base + at) as int)) as usize,
                    type_id,
                },
            ),
            Scan::BadUnicode { at, fault } => r matches Err(
                TokenizeError::BadUnicodeValue { start_idx, type_id: t, inner },
            ) && start_idx == byte_len(old.source().take((base + at) as int)) && t == type_id
                && fault_matches(inner, fault),
        }
    }
}

/// Reads a token which starts with `delim_start` and ends with the char `end_char`, de-escaping
/// its contents: `esc_char` starts an escape sequence, which is one of the escaped texts of
/// `rules` (tried in the order given), or `unicode_hex_4` followed by four hex digits.
#[verifier::rlimit(100)]
pub fn eat_escaped(
    iter: &mut StrIter<'_>,
    delim_start: &str,
    end_char: char,
    esc_char: char,
    rules: &Vec<(&String, &String)>,
    unicode_hex_4: &Option<String>,
    type_id: TypeId,
) -> (r: Result<Option<String>, TokenizeError>)
    requires
        old(iter).wf(),
    ensures
        eats_escaped(
            *old(iter),
            *final(iter),
            r,
            delim_start@,
            end_char,
            esc_char,
            pair_views(rules@),
            opt_view(*unicode_hex_4),
            type_id,
        ),
{
    let ghost rs = pair_views(rules@);
    let ghost uni = opt_view(*unicode_hex_4);
    let start_idx = iter.consumed_length();
    if !iter.eat(delim_start) {
        return Ok(None);
    }
    let ghost s = iter.rest();
    let ghost base = iter.pos() as int;
    proof {
        iter.law_consumed_and_remaining();
        assert(s =~= old(iter).rest().skip(delim_start@.len() as int));
    }
    let mut contents = String::new();
    let ghost mut p: int = 0;
    loop
        invariant
            iter.wf(),
            iter.source() == old(iter).source(),
            base == old(iter).pos() + delim_start@.len(),
            base <= iter.source().len(),
            s == old(iter).rest().skip(delim_start@.len() as int),
            s == iter.source().skip(base),
            starts_with(old(iter).rest(), delim_start@),
            start_idx == old(iter).consumed_bytes(),
            rs == pair_views(rules@),
            uni == opt_view(*unicode_hex_4),
            0 <= p <= s.len(),
            iter.pos() == base + p,
            scan_escaped(s, p, contents@, end_char, esc_char, rs, uni) == scan_escaped(
                s,
                0,
                Seq::empty(),
                end_char,
                esc_char,
                rs,
                uni,
            ),
        decreases s.len() - p,
    {
        proof {
            iter.law_consumed_and_remaining();
            assert(iter.rest() =~= s.skip(p));
        }
        let ghost c0 = contents@;
        let (idx, ch) = match iter.next_char() {
            Some(x) => x,
            None => {
                proof {
                    assert(scan_escaped(s, p, c0, end_char, esc_char, rs, uni) == Scan::Unfinished);
                }
                return Err(TokenizeError::UnfinishedStringy { start_idx, type_id });
            },
        };
        proof {
            assert(ch == s[p]);
            assert(idx == byte_len(old(iter).source().take(base + p)));
        }
        if ch == end_char {
            proof {
                assert(scan_escaped(s, p, c0, end_char, esc_char, rs, uni) == Scan::Closed {
                    len: (p + 1) as nat,
                    contents: c0,
                });
            }
            return Ok(Some(contents));
        }
        if ch == esc_char {
            let ghost after = s.skip(p + 1);
            proof {
                iter.law_consumed_and_remaining();
                assert(iter.rest() =~= after);
                lemma_escape_step_len(after, rs, uni);
            }
            match eat_escape(iter, rules, unicode_hex_4) {
                Ok(text) => {
                    contents.append(text.as_str());
                    proof {
                        let len = escape_step(after, rs, uni)->Deescaped_len;
                        assert(scan_escaped(s, p, c0, end_char, esc_char, rs, uni) == scan_escaped(
                            s,
                            p + 1 + len,
                            contents@,
                            end_char,
                            esc_char,
                            rs,
                            uni,
                        ));
                        p = p + 1 + len;
                    }
                    continue;
                },
                Err(None) => {
                    proof {
                        assert(scan_escaped(s, p, c0, end_char, esc_char, rs, uni) == Scan::BadEscape {
                            at: p as nat,
                        });
                    }
                    return Err(TokenizeError::BadEscape { start_idx: idx, type_id });
                },
                Err(Some(inner)) => {
                    proof {
                        let fault = escape_step(after, rs, uni)->BadUnicode_0;
                        assert(scan_escaped(s, p, c0, end_char, esc_char, rs, uni) == Scan::BadUnicode {
                            at: p as nat,
                            fault,
                        });
                    }
                    return Err(TokenizeError::BadUnicodeValue { start_idx: idx, type_id, inner });
                },
            }
        }
        // Otherwise, add this char to `contents`
        string_push(&mut contents, ch);
        proof {
            assert(scan_escaped(s, p, c0, end_char, esc_char, rs, uni) == scan_escaped(
                s,
                p + 1,
                contents@,
                end_char,
                esc_char,
                rs,
                uni,
            ));
            p = p + 1;
        }
    }
}

/// `st` is a stringy type whose tokens [`eat_stringy`] can read: either it has no delimiters,
/// a regex and no escape rules, or it has both delimiters and no regex, and, when it has escape
/// rules, its end delimiter and its escape start sequence are single chars.
pub open spec fn stringy_supported(st: Stringy) -> bool {
    let ds = st.delim_start@;
    let de = st.delim_end@;
    ||| ds.len() == 0 && de.len() == 0 && st.regexes is Some && st.escape_rules is None
    ||| ds.len() > 0 && de.len() > 0 && st.regexes is None && match st.escape_rules {
        None => true,
        Some(e) => de.len() == 1 && e.start_sequence@.len() == 1,
    }
}

/// Whether the tokens of `st` can be read (see [`stringy_supported`]).
pub fn is_stringy_supported(st: &Stringy) -> (b: bool)
    ensures
        b == stringy_supported(*st),
{
    let ds = st.delim_start.as_str().unicode_len();
    let de = st.delim_end.as_str().unicode_len();
    if ds == 0 && de == 0 {
        st.regexes.is_some() && st.escape_rules.is_none()
    } else if ds > 0 && de > 0 && st.regexes.is_none() {
        match &st.escape_rules {
            None => true,
            Some(e) => de == 1 && e.start_sequence.as_str().unicode_len() == 1,
        }
    } else {
        false
    }
}

/// What [`eat_stringy`] does with `old` into `new`, returning `r`, for the stringy type `st`.
/// With no delimiters, it consumes the text up to the end of the first match of the
/// start-anchored regex, where that match starts at the start of the text, and else nothing.  With delimiters and no escape rules, see
/// [`eats_delimited`]; with escape rules, see [`eats_escaped`], where the rules are tried in
/// some order (that of the bimap holding them).
pub open spec fn eats_stringy(old: StrIter, new: StrIter, r: Result<Option<String>, TokenizeError>, st: Stringy, type_id: TypeId) -> bool {
    let ds = st.delim_start@;
    let de = st.delim_end@;
    if ds.len() == 0 {
        &&& new.wf()
        &&& new.source() == old.source()
        &&& match st.regexes {
            Some(rs) => match regex_first_match(rs.anchored_start@, old.rest()) {
                Some((start, end)) => if start == 0 {
                    match chars_in_bytes(old.rest(), end) {
                        Some(k) => r matches Ok(Some(c)) && k <= old.rest().len() && c@ == old.rest().take(
                            k as int,
                        ) && new.pos() == old.pos() + k,
                        None => false,
                    }
                } else {
                    r matches Ok(None) && new.pos() == old.pos()
                },
                None => r matches Ok(None) && new.pos() == old.pos(),
            },
            None => r matches Ok(None) && new.pos() == old.pos(),
        }
    } else {
        match st.escape_rules {
            None => eats_delimited(old, new, r, ds, de, type_id),
            Some(e) => exists|order: Seq<(Seq<char>, Seq<char>)>|
                #[trigger] order.to_multiset() == bimap_pairs(e.rules) && eats_escaped(
                    old,
                    new,
                    r,
                    ds,
                    de[0],
                    e.start_sequence@[0],
                    order,
                    opt_view(e.unicode_hex_4),
                    type_id,
                ),
        }
    }
}

/// Eat as much of the [`StrIter`] as possible whilst still generating a valid
/// [`ParsedToken::Stringy`] of the type `stringy`.
pub fn eat_stringy(iter: &mut StrIter<'_>, stringy: &Stringy, type_id: TypeId) -> (r: Result<Option<String>, TokenizeError>)
    requires
        old(iter).wf(),
        stringy_supported(*stringy),
    ensures
        eats_stringy(*old(iter), *final(iter), r, *stringy, type_id),
{
    let delim_start = stringy.delim_start.as_str();
    let delim_end = stringy.delim_end.as_str();
    if delim_start.unicode_len() == 0 {
        // With no delimiters, the contents are what the start-anchored regex matches
        return match &stringy.regexes {
            Some(regexes) => {
                let found = regex_find(&regexes.anchored_start, iter.str_remaining());
                let contents = eat_regex_match(iter, found);
                proof {
                    if let Some((start, end)) = found {
                        if start == 0 {
                            lemma_chars_in_bytes(old(iter).rest(), end as int);
                        }
                    }
                }
                Ok(contents)
            },
            None => Ok(None),
        };
    }
    let end_char = delim_end.get_char(0);
    match &stringy.escape_rules {
        None => eat_delimited(iter, delim_start, delim_end, type_id),
        Some(escape_rules) => {
            let esc_char = escape_rules.start_sequence.as_str().get_char(0);
            let rules = bimap_pairs_in_some_order(&escape_rules.rules);
            let r = eat_escaped(
                iter,
                delim_start,
                end_char,
                esc_char,
                &rules,
                &escape_rules.unicode_hex_4,
                type_id,
            );
            proof {
                assert(pair_views(rules@).to_multiset() == bimap_pairs(escape_rules.rules));
            }
            r
        },
    }
}

/// The first error among the outcomes of reading stringy types, from `i` on.
pub open spec fn first_error(os: Seq<(TypeId, Result<Option<String>, TokenizeError>, StrIter)>, i: int) -> Option<TokenizeError>
    decreases os.len() - i,
{
    if i < 0 || i >= os.len() {
        None
    } else {
        match os[i].1 {
            Err(e) => Some(e),
            _ => first_error(os, i + 1),
        }
    }
}

/// The index of the first of the longest tokens among the first `n` outcomes of reading
/// stringy types, by where they end.
pub open spec fn longest_match(os: Seq<(TypeId, Result<Option<String>, TokenizeError>, StrIter)>, n: int) -> Option<int>
    decreases n,
{
    if n <= 0 || n > os.len() {
        None
    } else {
        let prev = longest_match(os, n - 1);
        if os[n - 1].1 matches Ok(Some(_)) {
            match prev {
                None => Some(n - 1),
                Some(b) => if os[n - 1].2.consumed_bytes() > os[b].2.consumed_bytes() {
                    Some(n - 1)
                } else {
                    prev
                },
            }
        } else {
            prev
        }
    }
}

/// The longest match lies among the first `n` outcomes, and is a token.
pub proof fn lemma_longest_match(os: Seq<(TypeId, Result<Option<String>, TokenizeError>, StrIter)>, n: int)
    ensures
        longest_match(os, n) matches Some(b) ==> 0 <= b < n && b < os.len() && os[b].1 matches Ok(Some(_)),
    decreases n,
{
    if 0 < n <= os.len() {
        lemma_longest_match(os, n - 1);
    }
}

/// The index of the first static token, from `j` on, which `rest` starts with, among those
/// before the first one shorter than `min_len` bytes.
pub open spec fn static_match(rest: Seq<char>, statics: Seq<(Seq<char>, TokenId)>, min_len: int, j: int) -> Option<int>
    decreases statics.len() - j,
{
    if j < 0 || j >= statics.len() || byte_len(statics[j].0) < min_len {
        None
    } else if starts_with(rest, statics[j].0) {
        Some(j)
    } else {
        static_match(rest, statics, min_len, j + 1)
    }
}

/// The static token found is one that the rest starts with.
pub proof fn lemma_static_match(rest: Seq<char>, statics: Seq<(Seq<char>, TokenId)>, min_len: int, j: int)
    requires
        0 <= j,
    ensures
        static_match(rest, statics, min_len, j) matches Some(k) ==> j <= k < statics.len() && starts_with(
            rest,
            statics[k].0,
        ),
    decreases statics.len() - j,
{
    if j < statics.len() && byte_len(statics[j].0) >= min_len && !starts_with(rest, statics[j].0) {
        lemma_static_match(rest, statics, min_len, j + 1);
    }
}

/// Reading a token loses no text: what was left is the text of the token, then the whitespace
/// after it, then what is left after them; the text of a static token is its text among the
/// static tokens, and the whitespace is made of whitespace chars.
pub proof fn law_tokens_cover_the_text(
    it: StrIter,
    os: Seq<(TypeId, Result<Option<String>, TokenizeError>, StrIter)>,
    statics: Seq<(Seq<char>, TokenId)>,
    ws: Seq<char>,
    tok: ParsedToken,
    w: &str,
    new: StrIter,
)
    requires
        it.wf(),
        outcomes_consistent(it, os),
        selects(it, os, statics, ws, Ok((tok, w)), new),
    ensures
        new.wf(),
        new.source() == it.source(),
        it.pos() + w@.len() <= new.pos(),
        forall|i: int| 0 <= i < w@.len() ==> ws.contains(#[trigger] w@[i]),
        ({
            let text = it.rest().take(new.pos() - it.pos() - w@.len());
            &&& it.rest() == text + w@ + new.rest()
            &&& tok matches ParsedToken::Static(id) ==> exists|j: int|
                0 <= j < statics.len() && #[trigger] statics[j] == (text, id)
        }),
{
    it.law_consumed_and_remaining();
    new.law_consumed_and_remaining();
    let best = longest_match(os, os.len() as int);
    let min_len = match best {
        Some(b) => os[b].2.consumed_bytes() - it.consumed_bytes(),
        None => 0,
    };
    lemma_static_match(it.rest(), statics, min_len, 0);
    lemma_longest_match(os, os.len() as int);
    match static_match(it.rest(), statics, min_len, 0) {
        Some(j) => {
            let text = statics[j].0;
            let k = new.pos() - it.pos() - w@.len();
            assert(k == text.len());
            assert(it.rest().take(k) =~= text);
            assert(it.rest() =~= text + w@ + new.rest()) by {
                assert(w@ =~= it.rest().skip(text.len() as int).take(w@.len() as int));
            }
        },
        None => {
            let b = best->Some_0;
            let after = os[b].2;
            after.law_consumed_and_remaining();
            let k = new.pos() - it.pos() - w@.len();
            assert(k == after.pos() - it.pos());
            assert(it.rest() =~= it.rest().take(k) + w@ + new.rest()) by {
                assert(after.rest() =~= it.rest().skip(k));
                assert(w@ =~= after.rest().take(w@.len() as int));
            }
        },
    }
}

/// The outcomes of reading stringy types from `it` are consistent: each token read ends in the
/// same string, at or after `it`.
pub open spec fn outcomes_consistent(it: StrIter, os: Seq<(TypeId, Result<Option<String>, TokenizeError>, StrIter)>) -> bool {
    forall|i: int|
        0 <= i < os.len() && ((#[trigger] os[i]).1 matches Ok(Some(_))) ==> os[i].2.wf() && os[i].2.source()
            == it.source() && os[i].2.pos() >= it.pos()
}

/// Which token follows `it`, given the outcomes `os` of reading the stringy types there (in
/// order, up to the first error): the first error if any; else the longest static token at
/// least as long as the longest stringy token; else the first longest stringy token; else no
/// token.  The token is returned with the whitespace after it, which is consumed too.
pub open spec fn selects(
    it: StrIter,
    os: Seq<(TypeId, Result<Option<String>, TokenizeError>, StrIter)>,
    statics: Seq<(Seq<char>, TokenId)>,
    ws: Seq<char>,
    r: Result<(ParsedToken, &str), TokenizeError>,
    new: StrIter,
) -> bool {
    match first_error(os, 0) {
        Some(e) => r == Err::<(ParsedToken, &str), TokenizeError>(e) && new == it,
        None => {
            let best = longest_match(os, os.len() as int);
            let min_len = match best {
                Some(b) => os[b].2.consumed_bytes() - it.consumed_bytes(),
                None => 0,
            };
            match static_match(it.rest(), statics, min_len, 0) {
                Some(j) => {
                    let text = statics[j].0;
                    &&& r matches Ok((ParsedToken::Static(id), w)) && id == statics[j].1
                        && is_leading_run(w@, it.rest().skip(text.len() as int), ws)
                        && new.pos() == it.pos() + text.len() + w@.len()
                    &&& new.wf()
                    &&& new.source() == it.source()
                },
                None => match best {
                    Some(b) => {
                        let after = os[b].2;
                        &&& r matches Ok((ParsedToken::Stringy(id, c), w)) && id == os[b].0
                            && (os[b].1 matches Ok(Some(contents)) && c@ == contents@)
                            && is_leading_run(w@, after.rest(), ws) && new.pos() == after.pos()
                            + w@.len()
                        &&& new.wf()
                        &&& new.source() == it.source()
                    },
                    None => r == Err::<(ParsedToken, &str), TokenizeError>(
                        TokenizeError::NoToken { start_idx: it.consumed_bytes() as usize },
                    ) && new == it,
                },
            }
        },
    }
}

/// Decides which token follows `iter`, given the outcomes of reading each stringy type there
/// (see [`selects`]), and returns it with the whitespace after it and the iterator after both.
pub fn select_token<'s>(
    iter: StrIter<'s>,
    whitespace: &Whitespace,
    tokens_decreasing: &Vec<(String, TokenId)>,
    outcomes: Vec<(TypeId, Result<Option<String>, TokenizeError>, StrIter<'s>)>,
) -> (r: (Result<(ParsedToken, &'s str), TokenizeError>, StrIter<'s>))
    requires
        iter.wf(),
        whitespace.charset().wf(),
        outcomes_consistent(iter, outcomes@),
    ensures
        selects(iter, outcomes@, entry_views(tokens_decreasing@), whitespace.charset().chars(), r.0, r.1),
        r.1.wf(),
        r.1.source() == iter.source(),
        r.1.pos() >= iter.pos(),
{
    let ghost os = outcomes@;
    let ghost statics = entry_views(tokens_decreasing@);
    // The first error, and the first longest stringy token
    let mut best: Option<usize> = None;
    let mut i: usize = 0;
    while i < outcomes.len()
        invariant
            i <= os.len(),
            os == outcomes@,
            outcomes_consistent(iter, os),
            iter.wf(),
            first_error(os, 0) == first_error(os, i as int),
            best == match longest_match(os, i as int) {
                Some(b) => Some(b as usize),
                None => None::<usize>,
            },
            longest_match(os, i as int) matches Some(b) ==> 0 <= b < i,
        decreases os.len() - i,
    {
        if outcomes[i].1.is_err() {
            let mut outcomes = outcomes;
            let (_, result, _) = outcomes.remove(i);
            return match result {
                Err(e) => {
                    proof {
                        assert(first_error(os, i as int) == Some(e));
                    }
                    (Err(e), iter)
                },
                Ok(_) => (Err(TokenizeError::NoToken { start_idx: iter.consumed_length() }), iter),
            };
        }
        match &outcomes[i].1 {
            Err(_) => {},
            Ok(None) => {},
            Ok(Some(_)) => {
                proof {
                    assert(os[i as int].1 matches Ok(Some(_)));
                    lemma_longest_match(os, i as int);
                    if let Some(b) = best {
                        assert(os[b as int].1 matches Ok(Some(_)));
                    }
                }
                let longer = match best {
                    None => true,
                    Some(b) => outcomes[i].2.consumed_length() > outcomes[b].2.consumed_length(),
                };
                if longer {
                    best = Some(i);
                }
            },
        }
        i = i + 1;
    }
    proof {
        assert(first_error(os, 0) is None);
    }
    let ghost min_len: int = match longest_match(os, os.len() as int) {
        Some(b) => os[b].2.consumed_bytes() - iter.consumed_bytes(),
        None => 0,
    };
    // The length of the longest stringy token (or `0` if none were matched)
    let longest_stringy_len = match best {
        Some(b) => {
            proof {
                lemma_longest_match(os, os.len() as int);
                assert(os[b as int].1 matches Ok(Some(_)));
                outcomes@[b as int].2.law_consumed_and_remaining();
                str_iter::lemma_encode_split(iter.source().take(outcomes@[b as int].2.pos() as int), iter.pos() as int);
                assert(iter.source().take(outcomes@[b as int].2.pos() as int).take(iter.pos() as int) =~= iter.source().take(iter.pos() as int));
            }
            outcomes[b].2.consumed_length() - iter.consumed_length()
        },
        None => 0,
    };
    proof {
        assert(longest_stringy_len == min_len);
    }
    // Test static tokens.  Static tokens take precedence over stringy tokens, so one at least
    // as long as the longest stringy token is returned at once.
    let mut j: usize = 0;
    while j < tokens_decreasing.len()
        invariant_except_break
            j <= statics.len(),
            statics == entry_views(tokens_decreasing@),
            os == outcomes@,
            first_error(os, 0) is None,
            longest_stringy_len == min_len,
            min_len == match longest_match(os, os.len() as int) {
                Some(b) => os[b].2.consumed_bytes() - iter.consumed_bytes(),
                None => 0,
            },
            iter.wf(),
            whitespace.charset().wf(),
            static_match(iter.rest(), statics, longest_stringy_len as int, 0) == static_match(
                iter.rest(),
                statics,
                longest_stringy_len as int,
                j as int,
            ),
        ensures
            static_match(iter.rest(), statics, longest_stringy_len as int, 0) is None,
        decreases statics.len() - j,
    {
        let (text, id) = &tokens_decreasing[j];
        proof {
            assert(statics[j as int] == (text@, *id));
        }
        let text_len = text.as_str().as_bytes().len();
        if text_len < longest_stringy_len {
            break;
        }
        let mut after = iter;
        if after.eat(text.as_str()) {
            proof {
                assert(static_match(iter.rest(), statics, longest_stringy_len as int, j as int) == Some(j as int));
                iter.law_consumed_and_remaining();
                after.law_consumed_and_remaining();
                assert(after.rest() =~= iter.rest().skip(text@.len() as int));
            }
            let whitespace_str = consume_whitespace(&mut after, whitespace);
            return (Ok((ParsedToken::Static(*id), whitespace_str)), after);
        }
        j = j + 1;
    }
    proof {
        lemma_longest_match(os, os.len() as int);
    }
    match best {
        Some(b) => {
            let mut outcomes = outcomes;
            let (id, result, mut after) = outcomes.swap_remove(b);
            match result {
                Ok(Some(contents)) => {
                    let whitespace_str = consume_whitespace(&mut after, whitespace);
                    (Ok((ParsedToken::Stringy(id, contents), whitespace_str)), after)
                },
                _ => (Err(TokenizeError::NoToken { start_idx: iter.consumed_length() }), iter),
            }
        },
        None => (Err(TokenizeError::NoToken { start_idx: iter.consumed_length() }), iter),
    }
}

/// The stringy types among the first `n` types, with their ids, in order.
pub open spec fn stringy_types_in(types: Seq<Type>, n: int) -> Seq<(TypeId, Stringy)>
    decreases n,
{
    if n <= 0 || n > types.len() {
        Seq::empty()
    } else {
        let prev = stringy_types_in(types, n - 1);
        match types[n - 1].inner {
            TypeInner::Stringy(s) => prev.push((TypeId((n - 1) as usize), s)),
            _ => prev,
        }
    }
}

/// `os` are outcomes of reading the stringy types `sts` from `it`, in order, up to the first
/// error: each is what [`eat_stringy`] may give there.
pub open spec fn valid_outcomes(
    it: StrIter,
    sts: Seq<(TypeId, Stringy)>,
    os: Seq<(TypeId, Result<Option<String>, TokenizeError>, StrIter)>,
) -> bool {
    &&& os.len() <= sts.len()
    &&& forall|i: int|
        0 <= i < os.len() ==> (#[trigger] os[i]).0 == sts[i].0 && eats_stringy(it, os[i].2, os[i].1, sts[i].1, sts[i].0)
    &&& forall|i: int| 0 <= i < os.len() - 1 ==> (#[trigger] os[i]).1 is Ok
    &&& os.len() < sts.len() ==> os.len() > 0 && os.last().1 is Err
}

/// A token read by [`eat_stringy`] ends at or after where it started.
pub proof fn lemma_eats_stringy_forward(old: StrIter, new: StrIter, r: Result<Option<String>, TokenizeError>, st: Stringy, type_id: TypeId)
    requires
        eats_stringy(old, new, r, st, type_id),
        r matches Ok(Some(_)),
    ensures
        new.wf(),
        new.source() == old.source(),
        new.pos() >= old.pos(),
{
    if st.delim_start@.len() > 0 {
        if let Some(e) = st.escape_rules {
            let order = choose|order: Seq<(Seq<char>, Seq<char>)>|
                #[trigger] order.to_multiset() == bimap_pairs(e.rules) && eats_escaped(
                    old,
                    new,
                    r,
                    st.delim_start@,
                    st.delim_end@[0],
                    e.start_sequence@[0],
                    order,
                    opt_view(e.unicode_hex_4),
                    type_id,
                );
            assert(eats_escaped(
                old,
                new,
                r,
                st.delim_start@,
                st.delim_end@[0],
                e.start_sequence@[0],
                order,
                opt_view(e.unicode_hex_4),
                type_id,
            ));
        }
    }
}

/// An iterator over the tokens contained in a string, read according to a grammar.
#[derive(Debug, Clone)]
pub struct Tokenizer<'s, 'g> {
    /// Between calls to `next`, `iter` will have just finished consuming a string of
    /// whitespace.
    iter: StrIter<'s>,
    whitespace: &'g Whitespace,
    tokens_decreasing: &'g Vec<(String, TokenId)>,
    stringy_types: Vec<(TypeId, &'g Stringy)>,
}

impl<'s, 'g> Tokenizer<'s, 'g> {
    /// Where the tokenizer stands in the string.
    pub closed spec fn spec_iter(&self) -> StrIter<'s> {
        self.iter
    }

    /// The whitespace of the grammar.
    pub closed spec fn spec_whitespace(&self) -> Whitespace {
        *self.whitespace
    }

    /// The static tokens of the grammar, longest first.
    pub closed spec fn statics(&self) -> Seq<(Seq<char>, TokenId)> {
        entry_views(self.tokens_decreasing@)
    }

    /// The stringy types of the grammar, with their ids.
    pub closed spec fn stringies(&self) -> Seq<(TypeId, Stringy)> {
        self.stringy_types@.map_values(|p: (TypeId, &'g Stringy)| (p.0, *p.1))
    }

    /// The internal invariant of a tokenizer.
    pub open spec fn wf(&self) -> bool {
        &&& self.spec_iter().wf()
        &&& self.spec_whitespace().charset().wf()
    }

    /// Every stringy type of the grammar is one whose tokens can be read.
    pub open spec fn stringies_supported(&self) -> bool {
        forall|i: int| 0 <= i < self.stringies().len() ==> stringy_supported(#[trigger] self.stringies()[i].1)
    }

    /// Creates a new [`Tokenizer`] which tokenizes `string` according to `grammar`.  The
    /// whitespace at the start of `string` is consumed and returned.
    pub fn new(grammar: &'g Grammar, string: &'s str) -> (r: (&'s str, Self))
        requires
            grammar.spec_whitespace().charset().wf(),
        ensures
            r.1.wf(),
            r.1.spec_iter().source() == string@,
            is_leading_run(r.0@, string@, grammar.spec_whitespace().charset().chars()),
            r.1.spec_iter().pos() == r.0@.len(),
            r.1.spec_whitespace() == grammar.spec_whitespace(),
            r.1.statics() == grammar.spec_static_tokens_decreasing(),
            r.1.stringies() == stringy_types_in(grammar.spec_types(), grammar.spec_types().len() as int),
    {
        let mut iter = StrIter::new(string);
        // Consume the leading whitespace before creating `self`
        let whitespace = grammar.whitespace();
        proof {
            assert(string@.skip(0) =~= string@);
        }
        let leading_whitespace = consume_whitespace(&mut iter, whitespace);
        let types = grammar.types();
        let mut stringy_types: Vec<(TypeId, &'g Stringy)> = Vec::new();
        let mut i: usize = 0;
        while i < types.len()
            invariant
                i <= types@.len(),
                types@ == grammar.spec_types(),
                stringy_types@.map_values(|p: (TypeId, &'g Stringy)| (p.0, *p.1)) == stringy_types_in(
                    types@,
                    i as int,
                ),
            decreases types@.len() - i,
        {
            let ghost prev = stringy_types@;
            match &types[i].inner {
                TypeInner::Stringy(s) => {
                    stringy_types.push((TypeId(i), s));
                    proof {
                        assert(stringy_types@.map_values(|p: (TypeId, &'g Stringy)| (p.0, *p.1)) =~= prev.map_values(
                            |p: (TypeId, &'g Stringy)| (p.0, *p.1),
                        ).push((TypeId(i), *s)));
                    }
                },
                _ => {},
            }
            i = i + 1;
        }
        let tokenizer = Tokenizer {
            iter,
            whitespace,
            tokens_decreasing: grammar.static_tokens_decreasing(),
            stringy_types,
        };
        (leading_whitespace, tokenizer)
    }

    /// The number of bytes of the string read so far.
    pub fn consumed_length(&self) -> (n: usize)
        requires
            self.wf(),
        ensures
            n == self.spec_iter().consumed_bytes(),
    {
        self.iter.consumed_length()
    }

    /// Reads the next token and the whitespace after it, or returns `None` at the end of the
    /// string.  The token is chosen as [`selects`] says, from outcomes of reading each stringy
    /// type at the current position (see [`eat_stringy`]); on an error nothing is consumed.
    pub fn next(&mut self) -> (r: Option<Result<(ParsedToken, &'s str), TokenizeError>>)
        requires
            old(self).wf(),
            old(self).stringies_supported(),
        ensures
            final(self).wf(),
            final(self).spec_whitespace() == old(self).spec_whitespace(),
            final(self).statics() == old(self).statics(),
            final(self).stringies() == old(self).stringies(),
            final(self).spec_iter().source() == old(self).spec_iter().source(),
            final(self).spec_iter().pos() >= old(self).spec_iter().pos(),
            old(self).spec_iter().rest().len() == 0 ==> r is None && final(self).spec_iter() == old(
                self,
            ).spec_iter(),
            old(self).spec_iter().rest().len() > 0 ==> (r matches Some(result) && exists|
                os: Seq<(TypeId, Result<Option<String>, TokenizeError>, StrIter)>,
            |
                #[trigger] valid_outcomes(old(self).spec_iter(), old(self).stringies(), os) && selects(
                    old(self).spec_iter(),
                    os,
                    old(self).statics(),
                    old(self).spec_whitespace().charset().chars(),
                    result,
                    final(self).spec_iter(),
                )),
    {
        // A `Tokenizer` always starts having just finished consuming whitespace so, if the
        // string is a valid token string, the remainder must start with a token.
        if self.iter.is_done() {
            proof {
                self.iter.law_consumed_and_remaining();
            }
            return None;
        }
        proof {
            self.iter.law_consumed_and_remaining();
            assert(old(self).spec_iter().rest().len() > 0);
        }
        let ghost sts = self.stringies();
        // Read each stringy type (string literals, numbers, identifiers, etc.) on a copy of
        // `self.iter`, stopping at the first error
        let mut outcomes: Vec<(TypeId, Result<Option<String>, TokenizeError>, StrIter<'s>)> = Vec::new();
        let mut i: usize = 0;
        while i < self.stringy_types.len()
            invariant_except_break
                i <= sts.len(),
                sts == self.stringies(),
                self.stringies_supported(),
                self.iter.wf(),
                outcomes@.len() == i,
                forall|k: int|
                    0 <= k < i ==> (#[trigger] outcomes@[k]).0 == sts[k].0 && eats_stringy(
                        self.iter,
                        outcomes@[k].2,
                        outcomes@[k].1,
                        sts[k].1,
                        sts[k].0,
                    ) && outcomes@[k].1 is Ok,
                outcomes_consistent(self.iter, outcomes@),
            ensures
                valid_outcomes(self.iter, sts, outcomes@),
                outcomes_consistent(self.iter, outcomes@),
            decreases sts.len() - i,
        {
            let (id, stringy) = self.stringy_types[i];
            proof {
                assert(sts[i as int] == (id, *stringy));
            }
            let mut it = self.iter;
            let result = eat_stringy(&mut it, stringy, id);
            let failed = result.is_err();
            proof {
                if result matches Ok(Some(_)) {
                    lemma_eats_stringy_forward(self.iter, it, result, *stringy, id);
                }
            }
            let ghost prev = outcomes@;
            outcomes.push((id, result, it));
            proof {
                assert forall|k: int| 0 <= k < outcomes@.len() && ((#[trigger] outcomes@[k]).1 matches Ok(Some(_))) implies outcomes@[k].2.wf()
                    && outcomes@[k].2.source() == self.iter.source() && outcomes@[k].2.pos() >= self.iter.pos() by {
                    if k < i {
                        assert(outcomes@[k] == prev[k]);
                    }
                }
            }
            if failed {
                break;
            }
            i = i + 1;
        }
        let (result, iter) = select_token(self.iter, self.whitespace, self.tokens_decreasing, outcomes);
        self.iter = iter;
        Some(result)
    }
}

} // verus!
