//! A set of `char`s, optimised for sets where adjacent `char`s are very likely to either both be
//! included or both excluded.

use std::ops::RangeInclusive;

use rand::rngs::StdRng;
use rand::Rng;
use vstd::prelude::*;
use vstd::std_specs::range::RangeInclusiveView;

verus! {

/// The first code-point that is not stored in the ASCII bit-mask.
pub const FIRST_NON_ASCII_CHAR: char = '\u{80}';

/// `true` if bit `i` of `mask` is set.
pub open spec fn has_bit(mask: u128, i: u128) -> bool {
    (mask >> i) & 1u128 == 1u128
}

/// The code-point of a `char`.
pub open spec fn code(c: char) -> int {
    c as int
}

/// `true` if the integer `v` is the code-point of some `char` (i.e. a Unicode scalar value).
pub open spec fn is_scalar(v: int) -> bool {
    (0 <= v <= 0xD7FF) || (0xE000 <= v <= 0x10FFFF)
}

/// The chars below `n` (at most 128) whose bits are set in `mask`, in increasing order.
pub open spec fn ascii_chars(mask: u128, n: nat) -> Seq<char>
    decreases n,
{
    if n == 0 {
        Seq::empty()
    } else {
        let rest = ascii_chars(mask, (n - 1) as nat);
        if has_bit(mask, (n - 1) as u128) {
            rest.push(((n - 1) as int) as char)
        } else {
            rest
        }
    }
}

/// `true` if `c` lies in the inclusive range `r`.
pub open spec fn in_range(r: (char, char), c: char) -> bool {
    code(r.0) <= code(c) <= code(r.1)
}

/// The number of code-points in the inclusive range `r`.
pub open spec fn range_len(r: (char, char)) -> int {
    code(r.1) - code(r.0) + 1
}

/// The chars of the inclusive range `r`, in increasing order.
pub open spec fn range_chars(r: (char, char)) -> Seq<char> {
    Seq::new(range_len(r) as nat, |k: int| (code(r.0) + k) as char)
}

/// The chars of a list of ranges, range after range.
pub open spec fn ranges_chars(rs: Seq<(char, char)>) -> Seq<char>
    decreases rs.len(),
{
    if rs.len() == 0 {
        Seq::empty()
    } else {
        ranges_chars(rs.drop_last()) + range_chars(rs.last())
    }
}

/// The total number of code-points of a list of ranges.
pub open spec fn ranges_len(rs: Seq<(char, char)>) -> int
    decreases rs.len(),
{
    if rs.len() == 0 {
        0
    } else {
        ranges_len(rs.drop_last()) + range_len(rs.last())
    }
}

/// A range that may be stored outside the ASCII bit-mask: it is non-empty, lies above the
/// ASCII chars and does not span the surrogate code-points (so every code-point in it is a
/// `char`).
pub open spec fn valid_range(r: (char, char)) -> bool {
    &&& 128 <= code(r.0) <= code(r.1)
    &&& !(code(r.0) <= 0xD7FF && 0xE000 <= code(r.1))
}

/// Valid ranges, sorted and non-overlapping.
pub open spec fn valid_ranges(rs: Seq<(char, char)>) -> bool {
    &&& forall|i: int| 0 <= i < rs.len() ==> valid_range(#[trigger] rs[i])
    &&& forall|i: int, j: int| 0 <= i < j < rs.len() ==> code(#[trigger] rs[i].1) < code(#[trigger] rs[j].0)
}

/// `true` if the code-points of `s` are strictly increasing.
pub open spec fn increasing(s: Seq<char>) -> bool {
    forall|i: int, j: int| 0 <= i < j < s.len() ==> code(#[trigger] s[i]) < code(#[trigger] s[j])
}

/// Every `char` has a scalar code-point.
pub proof fn lemma_char_scalar(c: char)
    ensures
        is_scalar(code(c)),
{
}

proof fn lemma_concat_contains(a: Seq<char>, b: Seq<char>, c: char)
    ensures
        (a + b).contains(c) <==> a.contains(c) || b.contains(c),
{
    if a.contains(c) {
        let i = choose|i: int| 0 <= i < a.len() && a[i] == c;
        assert((a + b)[i] == c);
    }
    if b.contains(c) {
        let i = choose|i: int| 0 <= i < b.len() && b[i] == c;
        assert((a + b)[a.len() + i] == c);
    }
    if (a + b).contains(c) {
        let i = choose|i: int| 0 <= i < (a + b).len() && (a + b)[i] == c;
        if i < a.len() {
            assert(a[i] == c);
        } else {
            assert(b[i - a.len()] == c);
        }
    }
}

proof fn lemma_ascii_chars(mask: u128, n: nat)
    requires
        n <= 128,
    ensures
        increasing(ascii_chars(mask, n)),
        forall|k: int| 0 <= k < ascii_chars(mask, n).len() ==> code(#[trigger] ascii_chars(mask, n)[k]) < n,
        forall|c: char| ascii_chars(mask, n).contains(c) <==> code(c) < n && has_bit(mask, code(c) as u128),
        ascii_chars(mask, n).len() <= n,
    decreases n,
{
    if n == 0 {
        assert forall|c: char| !ascii_chars(mask, n).contains(c) && !(code(c) < n) by {
            lemma_char_scalar(c);
        }
    } else {
        lemma_ascii_chars(mask, (n - 1) as nat);
        let rest = ascii_chars(mask, (n - 1) as nat);
        let last = ((n - 1) as int) as char;
        assert forall|c: char| ascii_chars(mask, n).contains(c) <==> code(c) < n && has_bit(
            mask,
            code(c) as u128,
        ) by {
            lemma_char_scalar(c);
            if has_bit(mask, (n - 1) as u128) {
                lemma_concat_contains(rest, seq![last], c);
                assert(rest.push(last) == rest + seq![last]);
                assert(seq![last].contains(c) <==> c == last) by {
                    if seq![last].contains(c) {
                        assert(seq![last][0] == c);
                    }
                    if c == last {
                        assert(seq![last][0] == c);
                    }
                }
                if c == last {
                    assert(code(c) as u128 == (n - 1) as u128);
                }
            } else {
                if code(c) == n - 1 {
                    assert(code(c) as u128 == (n - 1) as u128);
                    assert(!rest.contains(c));
                }
            }
        }
    }
}

proof fn lemma_range_chars(r: (char, char))
    requires
        valid_range(r),
    ensures
        range_chars(r).len() == range_len(r),
        forall|k: int| 0 <= k < range_len(r) ==> code(#[trigger] range_chars(r)[k]) == code(r.0) + k,
        increasing(range_chars(r)),
        forall|c: char| range_chars(r).contains(c) <==> in_range(r, c),
{
    assert forall|k: int| 0 <= k < range_len(r) implies code(#[trigger] range_chars(r)[k]) == code(r.0)
        + k by {
        lemma_char_scalar(r.0);
        lemma_char_scalar(r.1);
        assert(is_scalar(code(r.0) + k));
    }
    assert forall|c: char| in_range(r, c) implies range_chars(r).contains(c) by {
        let k = code(c) - code(r.0);
        assert(code(range_chars(r)[k]) == code(r.0) + k);
        assert(range_chars(r)[k] == c);
    }
}

proof fn lemma_ranges_concat(a: Seq<(char, char)>, b: Seq<(char, char)>)
    ensures
        ranges_chars(a + b) == ranges_chars(a) + ranges_chars(b),
        ranges_len(a + b) == ranges_len(a) + ranges_len(b),
    decreases b.len(),
{
    if b.len() == 0 {
        assert(a + b == a);
        assert(ranges_chars(a) + ranges_chars(b) == ranges_chars(a));
    } else {
        lemma_ranges_concat(a, b.drop_last());
        assert((a + b).drop_last() == a + b.drop_last());
        assert((a + b).last() == b.last());
        assert(ranges_chars(a) + ranges_chars(b.drop_last()) + range_chars(b.last()) == ranges_chars(a) + (
        ranges_chars(b.drop_last()) + range_chars(b.last())));
    }
}

proof fn lemma_ranges_chars(rs: Seq<(char, char)>)
    requires
        valid_ranges(rs),
    ensures
        ranges_chars(rs).len() == ranges_len(rs),
        increasing(ranges_chars(rs)),
        forall|c: char| ranges_chars(rs).contains(c) <==> exists|i: int| 0 <= i < rs.len() && in_range(#[trigger] rs[i], c),
        rs.len() > 0 ==> forall|k: int| 0 <= k < ranges_chars(rs).len() ==> code(rs[0].0) <= code(#[trigger] ranges_chars(rs)[k]) <= code(rs.last().1),
    decreases rs.len(),
{
    if rs.len() > 0 {
        let init = rs.drop_last();
        let last = rs.last();
        assert(valid_ranges(init));
        assert(valid_range(rs[rs.len() - 1]));
        lemma_ranges_chars(init);
        lemma_range_chars(last);
        let a = ranges_chars(init);
        let b = range_chars(last);
        assert forall|k: int| 0 <= k < a.len() implies code(#[trigger] a[k]) < code(last.0) by {
            assert(code(rs[0].0) <= code(a[k]) <= code(init.last().1));
            assert(code(rs[rs.len() - 2].1) < code(rs[rs.len() - 1].0));
        }
        assert forall|k: int| 0 <= k < b.len() implies code(rs[0].0) <= code(#[trigger] b[k]) <= code(last.1) by {
            if rs.len() > 1 {
                assert(code(rs[0].1) < code(rs[rs.len() - 1].0));
            }
        }
        assert forall|i: int, j: int| 0 <= i < j < (a + b).len() implies code(#[trigger] (a + b)[i]) < code(#[trigger] (a + b)[j]) by {
            if j < a.len() {
            } else if i < a.len() {
                assert(code(a[i]) < code(last.0));
                assert(code(last.0) <= code(b[j - a.len()]));
            } else {
                assert(code(b[i - a.len()]) < code(b[j - a.len()]));
            }
        }
        assert forall|c: char| ranges_chars(rs).contains(c) <==> exists|i: int| 0 <= i < rs.len() && in_range(#[trigger] rs[i], c) by {
            lemma_concat_contains(a, b, c);
            if exists|i: int| 0 <= i < rs.len() && in_range(#[trigger] rs[i], c) {
                let i = choose|i: int| 0 <= i < rs.len() && in_range(#[trigger] rs[i], c);
                if i < rs.len() - 1 {
                    assert(init[i] == rs[i]);
                }
            }
            if exists|i: int| 0 <= i < init.len() && in_range(#[trigger] init[i], c) {
                let i = choose|i: int| 0 <= i < init.len() && in_range(#[trigger] init[i], c);
                assert(rs[i] == init[i]);
            }
        }
    }
}

/// The number of bits below `n` that are set in `mask`.
pub open spec fn ones_below(mask: u128, n: nat) -> nat
    decreases n,
{
    if n == 0 {
        0
    } else {
        ones_below(mask, (n - 1) as nat) + if has_bit(mask, (n - 1) as u128) {
            1nat
        } else {
            0nat
        }
    }
}

/// `true` if some range of `rs` contains `c`.
pub open spec fn covered(rs: Seq<(char, char)>, c: char) -> bool {
    exists|j: int| 0 <= j < rs.len() && in_range(#[trigger] rs[j], c)
}

proof fn lemma_bit_or(a: u128, b: u128, i: u128)
    requires
        i < 128,
    ensures
        has_bit(a | b, i) == (has_bit(a, i) || has_bit(b, i)),
{
    assert(has_bit(a | b, i) == (has_bit(a, i) || has_bit(b, i))) by (bit_vector);
}

proof fn lemma_single_bit(b: u128, i: u128)
    requires
        b < 128,
        i < 128,
    ensures
        has_bit(1u128 << b, i) == (i == b),
{
    assert(has_bit(1u128 << b, i) == (i == b)) by (bit_vector)
        requires
            b < 128,
            i < 128,
    ;
}

proof fn lemma_test_bit(mask: u128, b: u128)
    requires
        b < 128,
    ensures
        (mask & (1u128 << b) != 0) == has_bit(mask, b),
{
    assert((mask & (1u128 << b) != 0) == has_bit(mask, b)) by (bit_vector)
        requires
            b < 128,
    ;
}

proof fn lemma_clear_bit(mask: u128, b: u128, i: u128)
    requires
        b < 128,
        i < 128,
    ensures
        has_bit(mask & !(1u128 << b), i) == (has_bit(mask, i) && i != b),
{
    assert(has_bit(mask & !(1u128 << b), i) == (has_bit(mask, i) && i != b)) by (bit_vector)
        requires
            b < 128,
            i < 128,
    ;
}

proof fn lemma_all_and_no_bits(i: u128)
    requires
        i < 128,
    ensures
        has_bit(!0u128, i),
        !has_bit(0u128, i),
{
    assert(has_bit(!0u128, i) && !has_bit(0u128, i)) by (bit_vector)
        requires
            i < 128,
    ;
}

proof fn lemma_low_ones(start: u128)
    requires
        start < 128,
    ensures
        (1u128 << start) >= 1,
{
    assert((1u128 << start) >= 1) by (bit_vector)
        requires
            start < 128,
    ;
}

/// The bits from `start` to `end` inclusive (`start <= 127`, `end <= 127`).
proof fn lemma_bit_span(start: u128, end: u128, ones_to_end: u128, i: u128)
    requires
        start < 128,
        end < 128,
        i < 128,
        end == 127 ==> ones_to_end == !0u128,
        end < 127 ==> ones_to_end == ((1u128 << ((end + 1) as u128)) - 1) as u128,
    ensures
        has_bit(ones_to_end & !(((1u128 << start) - 1) as u128), i) == (start <= i && i <= end),
{
    assert(has_bit(ones_to_end & !(((1u128 << start) - 1) as u128), i) == (start <= i && i <= end))
        by (bit_vector)
        requires
            start < 128,
            end < 128,
            i < 128,
            end == 127 ==> ones_to_end == !0u128,
            end < 127 ==> ones_to_end == ((1u128 << ((end + 1) as u128)) - 1) as u128,
    ;
}

proof fn lemma_ones_below(mask: u128, n: nat)
    requires
        n <= 128,
    ensures
        ascii_chars(mask, n).len() == ones_below(mask, n),
    decreases n,
{
    if n > 0 {
        lemma_ones_below(mask, (n - 1) as nat);
    }
}

/// Two masks whose bits agree below `n`, except that `b` has the extra bit `p`.
proof fn lemma_ones_below_extra_bit(a: u128, b: u128, p: u128, n: nat)
    requires
        n <= 128,
        p < 128,
        !has_bit(a, p),
        has_bit(b, p),
        forall|i: u128| i < 128 && i != p ==> has_bit(a, i) == has_bit(b, i),
    ensures
        ones_below(b, n) == ones_below(a, n) + if p < n {
            1nat
        } else {
            0nat
        },
    decreases n,
{
    if n > 0 {
        lemma_ones_below_extra_bit(a, b, p, (n - 1) as nat);
        let q = (n - 1) as u128;
        if q != p {
            assert(has_bit(a, q) == has_bit(b, q));
        }
    }
}

proof fn lemma_ones_below_mono(a: u128, b: u128, n: nat)
    requires
        n <= 128,
        forall|i: u128| i < 128 && has_bit(a, i) ==> has_bit(b, i),
    ensures
        ones_below(a, n) <= ones_below(b, n),
    decreases n,
{
    if n > 0 {
        lemma_ones_below_mono(a, b, (n - 1) as nat);
        let q = (n - 1) as u128;
        if has_bit(a, q) {
            assert(has_bit(b, q));
        }
    }
}

proof fn lemma_ones_below_same(a: u128, b: u128, n: nat)
    requires
        n <= 128,
        forall|i: u128| i < 128 ==> has_bit(a, i) == has_bit(b, i),
    ensures
        ascii_chars(a, n) == ascii_chars(b, n),
    decreases n,
{
    if n > 0 {
        lemma_ones_below_same(a, b, (n - 1) as nat);
        assert(has_bit(a, (n - 1) as u128) == has_bit(b, (n - 1) as u128));
    }
}

proof fn lemma_ones_below_all(n: nat)
    requires
        n <= 128,
    ensures
        ones_below(!0u128, n) == n,
        ones_below(0u128, n) == 0,
    decreases n,
{
    if n > 0 {
        lemma_ones_below_all((n - 1) as nat);
        lemma_all_and_no_bits((n - 1) as u128);
    }
}

/// A strictly increasing sequence of chars has at most as many elements as there are
/// code-points.
proof fn lemma_increasing_len(s: Seq<char>)
    requires
        increasing(s),
    ensures
        s.len() > 0 ==> s.len() <= code(s.last()) + 1,
        s.len() <= 0x110000,
    decreases s.len(),
{
    if s.len() > 0 {
        lemma_char_scalar(s.last());
        let init = s.drop_last();
        assert(increasing(init));
        lemma_increasing_len(init);
        if init.len() > 0 {
            assert(code(s[init.len() - 1]) < code(s[s.len() - 1]));
        }
    }
}

/// Two strictly increasing sequences with the same elements are equal.
pub proof fn lemma_increasing_unique(s1: Seq<char>, s2: Seq<char>)
    requires
        increasing(s1),
        increasing(s2),
        forall|c: char| s1.contains(c) <==> s2.contains(c),
    ensures
        s1 == s2,
    decreases s1.len() + s2.len(),
{
    if s1.len() == 0 {
        if s2.len() > 0 {
            assert(s2.contains(s2[0]));
        }
        assert(s1 == s2);
    } else if s2.len() == 0 {
        assert(s1.contains(s1[0]));
    } else {
        let m1 = s1.last();
        let m2 = s2.last();
        assert(s1.contains(m1));
        assert(s2.contains(m2));
        let i2 = choose|i: int| 0 <= i < s2.len() && s2[i] == m1;
        let i1 = choose|i: int| 0 <= i < s1.len() && s1[i] == m2;
        if i2 < s2.len() - 1 {
            assert(code(s2[i2]) < code(m2));
            assert(code(m2) <= code(m1)) by {
                if i1 < s1.len() - 1 {
                    assert(code(s1[i1]) < code(m1));
                }
            }
        }
        assert(m1 == m2) by {
            if i1 < s1.len() - 1 {
                assert(code(s1[i1]) < code(m1));
            }
            if i2 < s2.len() - 1 {
                assert(code(s2[i2]) < code(m2));
            }
        }
        let t1 = s1.drop_last();
        let t2 = s2.drop_last();
        assert(increasing(t1));
        assert(increasing(t2));
        assert forall|c: char| t1.contains(c) <==> t2.contains(c) by {
            if t1.contains(c) {
                let i = choose|i: int| 0 <= i < t1.len() && t1[i] == c;
                assert(code(s1[i]) < code(m1));
                assert(s1.contains(c));
                let j = choose|j: int| 0 <= j < s2.len() && s2[j] == c;
                if j == s2.len() - 1 {
                    assert(c == m2);
                }
                assert(t2[j] == c);
            }
            if t2.contains(c) {
                let i = choose|i: int| 0 <= i < t2.len() && t2[i] == c;
                assert(code(s2[i]) < code(m2));
                assert(s2.contains(c));
                let j = choose|j: int| 0 <= j < s1.len() && s1[j] == c;
                if j == s1.len() - 1 {
                    assert(c == m1);
                }
                assert(t1[j] == c);
            }
        }
        lemma_increasing_unique(t1, t2);
        assert(s1 == t1.push(m1));
        assert(s2 == t2.push(m2));
    }
}

proof fn lemma_single_range(r: (char, char))
    ensures
        ranges_len(seq![r]) == range_len(r),
        ranges_chars(seq![r]) == range_chars(r),
{
    assert(seq![r].drop_last() == Seq::<(char, char)>::empty());
    assert(seq![r].last() == r);
    assert(ranges_len(Seq::<(char, char)>::empty()) == 0);
    assert(ranges_chars(Seq::<(char, char)>::empty()) == Seq::<char>::empty());
    assert(Seq::<char>::empty() + range_chars(r) == range_chars(r));
}

proof fn lemma_ranges_len_update(rs: Seq<(char, char)>, i: int, r: (char, char))
    requires
        0 <= i < rs.len(),
    ensures
        ranges_len(rs.update(i, r)) == ranges_len(rs) - range_len(rs[i]) + range_len(r),
{
    let pre = rs.take(i);
    let post = rs.skip(i + 1);
    assert(rs == pre + seq![rs[i]] + post);
    assert(rs.update(i, r) == pre + seq![r] + post);
    lemma_ranges_concat(pre + seq![rs[i]], post);
    lemma_ranges_concat(pre, seq![rs[i]]);
    lemma_ranges_concat(pre + seq![r], post);
    lemma_ranges_concat(pre, seq![r]);
    lemma_single_range(r);
    lemma_single_range(rs[i]);
}

proof fn lemma_ranges_len_insert(rs: Seq<(char, char)>, i: int, r: (char, char))
    requires
        0 <= i <= rs.len(),
    ensures
        ranges_len(rs.insert(i, r)) == ranges_len(rs) + range_len(r),
{
    let pre = rs.take(i);
    let post = rs.skip(i);
    assert(rs == pre + post);
    assert(rs.insert(i, r) == pre + seq![r] + post);
    lemma_ranges_concat(pre + seq![r], post);
    lemma_ranges_concat(pre, seq![r]);
    lemma_ranges_concat(pre, post);
    lemma_single_range(r);
}

proof fn lemma_covered_update(rs: Seq<(char, char)>, i: int, r2: (char, char), ch: char)
    requires
        0 <= i < rs.len(),
        forall|c: char| in_range(r2, c) <==> (in_range(rs[i], c) || c == ch),
    ensures
        forall|c: char| covered(rs.update(i, r2), c) <==> (covered(rs, c) || c == ch),
{
    let rs2 = rs.update(i, r2);
    assert forall|c: char| covered(rs2, c) <==> (covered(rs, c) || c == ch) by {
        if covered(rs2, c) {
            let j = choose|j: int| 0 <= j < rs2.len() && in_range(#[trigger] rs2[j], c);
            if j != i {
                assert(in_range(rs[j], c));
            }
        }
        if covered(rs, c) {
            let j = choose|j: int| 0 <= j < rs.len() && in_range(#[trigger] rs[j], c);
            if j != i {
                assert(in_range(rs2[j], c));
            } else {
                assert(in_range(rs2[i], c));
            }
        }
        if c == ch {
            assert(in_range(rs2[i], c));
        }
    }
}

proof fn lemma_covered_insert(rs: Seq<(char, char)>, i: int, ch: char)
    requires
        0 <= i <= rs.len(),
    ensures
        forall|c: char| covered(rs.insert(i, (ch, ch)), c) <==> (covered(rs, c) || c == ch),
{
    let rs2 = rs.insert(i, (ch, ch));
    assert forall|c: char| covered(rs2, c) <==> (covered(rs, c) || c == ch) by {
        if covered(rs2, c) {
            let j = choose|j: int| 0 <= j < rs2.len() && in_range(#[trigger] rs2[j], c);
            if j < i {
                assert(in_range(rs[j], c));
            } else if j > i {
                assert(in_range(rs[j - 1], c));
            } else {
                lemma_char_scalar(c);
                lemma_char_scalar(ch);
            }
        }
        if covered(rs, c) {
            let j = choose|j: int| 0 <= j < rs.len() && in_range(#[trigger] rs[j], c);
            if j < i {
                assert(in_range(rs2[j], c));
            } else {
                assert(in_range(rs2[j + 1], c));
            }
        }
        if c == ch {
            assert(in_range(rs2[i], c));
        }
    }
}

#[verifier::external_type_specification]
#[verifier::external_body]
pub struct ExStdRng(StdRng);

/// `Rng::gen_range` on the range `0..n`: a random index below `n`.  `gen_range` panics on an
/// empty range, so `n` may not be zero.  Nothing is stated of which index comes out.
#[verifier::external_body]
fn gen_index(rng: &mut StdRng, n: usize) -> (i: usize)
    requires
        n > 0,
    ensures
        i < n,
{
    rng.gen_range(0..n)
}

/// `char::from_u32`: the `char` whose code-point is `v`, or `None` when `v` is a surrogate
/// code-point or lies above `char::MAX`.
#[verifier::external_body]
pub(crate) fn char_from_u32(v: u32) -> (c: Option<char>)
    ensures
        is_scalar(v as int) ==> c == Some((v as int) as char),
        !is_scalar(v as int) ==> c is None,
{
    char::from_u32(v)
}

/// The number of bits set in `x` (as `u128::count_ones` gives it).
fn count_ones(x: u128) -> (n: u32)
    ensures
        n == ones_below(x, 128),
{
    let mut n: u32 = 0;
    let mut i: u32 = 0;
    while i < 128
        invariant
            i <= 128,
            n == ones_below(x, i as nat),
            n <= i,
        decreases 128 - i,
    {
        let k = i as u128;
        if (x >> k) & 1u128 == 1u128 {
            n = n + 1;
        }
        i = i + 1;
    }
    n
}

/// `RangeInclusive::start`: the lower bound of the range.
#[verifier::external_body]
fn range_start(r: &RangeInclusive<char>) -> (c: char)
    ensures
        c == r@.start,
{
    *r.start()
}

/// `RangeInclusive::end`: the upper bound of the range.
#[verifier::external_body]
fn range_end(r: &RangeInclusive<char>) -> (c: char)
    ensures
        c == r@.end,
{
    *r.end()
}

/// `RangeInclusive::clone`: a range with the same bounds and the same exhaustion flag.
#[verifier::external_body]
fn range_clone(r: &RangeInclusive<char>) -> (c: RangeInclusive<char>)
    ensures
        c@ == r@,
{
    r.clone()
}

/// The part of `range` below `boundary`, as [`split_range`] returns it.
pub open spec fn split_left(range: RangeInclusiveView<char>, boundary: char) -> Option<RangeInclusiveView<char>> {
    if code(range.start) < code(boundary) {
        Some(
            RangeInclusiveView {
                start: range.start,
                end: if code(range.end) < code(boundary) {
                    range.end
                } else {
                    (code(boundary) - 1) as char
                },
                exhausted: false,
            },
        )
    } else {
        None
    }
}

/// The part of `range` from `boundary` upwards, as [`split_range`] returns it.
pub open spec fn split_right(range: RangeInclusiveView<char>, boundary: char) -> Option<RangeInclusiveView<char>> {
    if code(boundary) == 0 {
        Some(range)
    } else if code(boundary) <= code(range.end) {
        Some(
            RangeInclusiveView {
                start: if code(range.start) < code(boundary) {
                    boundary
                } else {
                    range.start
                },
                end: range.end,
                exhausted: false,
            },
        )
    } else {
        None
    }
}

/// Splits a [`RangeInclusive`] into two [`RangeInclusive`]s, where `boundary` is contained in the
/// right-hand [`RangeInclusive`].  The chars of the two parts together are those of `range`.
/// The code-point just below `boundary` must be a `char`, so `boundary` may not be `'\u{E000}'`.
pub fn split_range(range: &RangeInclusive<char>, boundary: char) -> (parts: (
    Option<RangeInclusive<char>>,
    Option<RangeInclusive<char>>,
))
    requires
        code(boundary) != 0xE000,
    ensures
        parts.0 is None <==> split_left(range@, boundary) is None,
        parts.0 is Some ==> Some(parts.0->0@) == split_left(range@, boundary),
        parts.1 is None <==> split_right(range@, boundary) is None,
        parts.1 is Some ==> Some(parts.1->0@) == split_right(range@, boundary),
{
    proof {
        lemma_char_scalar(boundary);
        lemma_char_scalar(range@.start);
    }
    let b = boundary as u32;
    if b == 0 {
        // If `boundary` is '\0', then the left range must be empty
        return (None, Some(range_clone(range)));
    }
    let char_before_boundary = char_from_u32(b - 1).unwrap();
    let start = range_start(range);
    let end = range_end(range);
    proof {
        lemma_char_scalar(start);
        lemma_char_scalar(end);
    }
    let left = if (start as u32) < b {
        let left_end = if (end as u32) < b {
            end
        } else {
            char_before_boundary
        };
        Some(RangeInclusive::new(start, left_end))
    } else {
        None
    };
    let right = if (end as u32) >= b {
        let right_start = if (start as u32) < b {
            boundary
        } else {
            start
        };
        Some(RangeInclusive::new(right_start, end))
    } else {
        None
    };
    (left, right)
}

proof fn lemma_ranges_take_last(rs: Seq<(char, char)>, k: int)
    requires
        0 <= k < rs.len(),
    ensures
        ranges_len(rs.take(k + 1)) == ranges_len(rs.take(k)) + range_len(rs[k]),
        ranges_chars(rs.take(k + 1)) == ranges_chars(rs.take(k)) + range_chars(rs[k]),
{
    assert(rs.take(k + 1).drop_last() == rs.take(k));
    assert(rs.take(k + 1).last() == rs[k]);
}

/// Cumulative lengths grow by at least one per range.
proof fn lemma_ranges_take_mono(rs: Seq<(char, char)>, i: int, j: int)
    requires
        valid_ranges(rs),
        0 <= i <= j <= rs.len(),
    ensures
        ranges_len(rs.take(i)) + (j - i) <= ranges_len(rs.take(j)),
    decreases j - i,
{
    if i < j {
        lemma_ranges_take_mono(rs, i, j - 1);
        lemma_ranges_take_last(rs, j - 1);
        assert(valid_range(rs[j - 1]));
    }
}

proof fn lemma_ranges_take_bound(rs: Seq<(char, char)>, j: int)
    requires
        valid_ranges(rs),
        0 <= j <= rs.len(),
    ensures
        ranges_len(rs.take(j)) <= ranges_len(rs),
{
    lemma_ranges_take_mono(rs, j, rs.len() as int);
    assert(rs.take(rs.len() as int) == rs);
}

/// The char at position `ranges_len(rs.take(k)) + off` of `ranges_chars(rs)` is the `off`th char
/// of range `k`.
proof fn lemma_ranges_index(rs: Seq<(char, char)>, k: int, off: int)
    requires
        valid_ranges(rs),
        0 <= k < rs.len(),
        0 <= off < range_len(rs[k]),
    ensures
        ranges_len(rs.take(k)) + off < ranges_len(rs),
        code(ranges_chars(rs)[ranges_len(rs.take(k)) + off]) == code(rs[k].0) + off,
{
    let pre = rs.take(k + 1);
    let post = rs.skip(k + 1);
    assert(rs == pre + post);
    lemma_ranges_concat(pre, post);
    lemma_ranges_take_last(rs, k);
    assert(valid_ranges(rs.take(k)));
    assert(valid_ranges(post));
    assert(valid_range(rs[k]));
    lemma_ranges_chars(rs.take(k));
    lemma_ranges_chars(post);
    lemma_range_chars(rs[k]);
    let n = ranges_len(rs.take(k));
    assert(ranges_chars(rs)[n + off] == ranges_chars(pre)[n + off]);
    assert(ranges_chars(pre)[n + off] == range_chars(rs[k])[off]);
}

proof fn lemma_ranges_len_remove(rs: Seq<(char, char)>, i: int)
    requires
        0 <= i < rs.len(),
    ensures
        ranges_len(rs.remove(i)) == ranges_len(rs) - range_len(rs[i]),
{
    let pre = rs.take(i);
    let post = rs.skip(i + 1);
    assert(rs == pre + seq![rs[i]] + post);
    assert(rs.remove(i) == pre + post);
    lemma_ranges_concat(pre + seq![rs[i]], post);
    lemma_ranges_concat(pre, seq![rs[i]]);
    lemma_ranges_concat(pre, post);
    lemma_single_range(rs[i]);
}

/// A set of [`char`]s, optimised for sets where adjacent [`char`]s are very likely to either both
/// be included or both excluded.
#[derive(Debug, Clone)]
pub struct CharSet {
    /// A bit-mask for the first 128 code-points, i.e. ASCII values
    ascii_bitmask: u128,
    /// List of inclusive ranges of [`char`]s which this set includes.  They are sorted and
    /// non-overlapping, and lie above the ASCII chars.  Adjacent ranges are not necessarily
    /// merged.
    ranges: Vec<(char, char)>,
    /// Cached value for the number of [`char`]s in `self`
    len: usize,
}

impl CharSet {
    /// The chars of this set, in increasing order.
    pub closed spec fn chars(&self) -> Seq<char> {
        ascii_chars(self.ascii_bitmask, 128) + ranges_chars(self.ranges@)
    }

    /// The internal invariant of a `CharSet`.
    pub closed spec fn wf(&self) -> bool {
        &&& valid_ranges(self.ranges@)
        &&& self.len == self.chars().len()
    }

    proof fn lemma_chars(&self)
        requires
            valid_ranges(self.ranges@),
        ensures
            increasing(self.chars()),
            self.chars().len() <= 0x110000,
            self.chars().len() == ones_below(self.ascii_bitmask, 128) + ranges_len(self.ranges@),
            forall|c: char| #[trigger]
                self.chars().contains(c) <==> ((code(c) < 128 && has_bit(
                    self.ascii_bitmask,
                    code(c) as u128,
                )) || covered(self.ranges@, c)),
    {
        let a = ascii_chars(self.ascii_bitmask, 128);
        let b = ranges_chars(self.ranges@);
        lemma_ascii_chars(self.ascii_bitmask, 128);
        lemma_ones_below(self.ascii_bitmask, 128);
        lemma_ranges_chars(self.ranges@);
        assert forall|c: char| #[trigger]
            self.chars().contains(c) <==> ((code(c) < 128 && has_bit(
                self.ascii_bitmask,
                code(c) as u128,
            )) || covered(self.ranges@, c)) by {
            lemma_concat_contains(a, b, c);
        }
        assert forall|i: int, j: int| 0 <= i < j < (a + b).len() implies code(#[trigger] (a + b)[i])
            < code(#[trigger] (a + b)[j]) by {
            if j < a.len() {
            } else if i < a.len() {
                let k = j - a.len();
                assert(code(a[i]) < 128);
                assert(code(b[k]) >= code(self.ranges@[0].0));
                assert(valid_range(self.ranges@[0]));
            } else {
                assert(code(b[i - a.len()]) < code(b[j - a.len()]));
            }
        }
        lemma_increasing_len(self.chars());
    }

    /// Every state of a `CharSet` lists its chars in strictly increasing order, so that
    /// [`CharSet::len`] is the number of distinct chars in the set.
    pub proof fn lemma_sorted(&self)
        requires
            self.wf(),
        ensures
            increasing(self.chars()),
            self.chars().no_duplicates(),
    {
        self.lemma_chars();
    }

    /// A `CharSet` is determined by its members: two sets holding the same chars list them
    /// identically and have the same length, whichever operations built them.
    pub proof fn law_same_members(a: CharSet, b: CharSet)
        requires
            a.wf(),
            b.wf(),
            forall|c: char| a.chars().contains(c) <==> b.chars().contains(c),
        ensures
            a.chars() == b.chars(),
    {
        a.lemma_chars();
        b.lemma_chars();
        lemma_increasing_unique(a.chars(), b.chars());
    }

    /// Inserting a char that is absent and then removing it gives back the set it started from.
    pub proof fn law_insert_then_remove(s0: CharSet, s1: CharSet, s2: CharSet, ch: char)
        requires
            s0.wf(),
            s1.wf(),
            s2.wf(),
            !s0.chars().contains(ch),
            forall|c: char| s1.chars().contains(c) <==> (s0.chars().contains(c) || c == ch),
            forall|c: char| s2.chars().contains(c) <==> (s1.chars().contains(c) && c != ch),
        ensures
            s2.chars() == s0.chars(),
    {
        Self::law_same_members(s2, s0);
    }

    /// Removing a char that is present and then inserting it again gives back the set it started from.
    pub proof fn law_remove_then_insert(s0: CharSet, s1: CharSet, s2: CharSet, ch: char)
        requires
            s0.wf(),
            s1.wf(),
            s2.wf(),
            s0.chars().contains(ch),
            forall|c: char| s1.chars().contains(c) <==> (s0.chars().contains(c) && c != ch),
            forall|c: char| s2.chars().contains(c) <==> (s1.chars().contains(c) || c == ch),
        ensures
            s2.chars() == s0.chars(),
    {
        Self::law_same_members(s2, s0);
    }

    /// Creates a `CharSet` which contains no [`char`]s.  Same as [`CharSet::none`].
    pub fn empty() -> (s: Self)
        ensures
            s.wf(),
            s.chars() == Seq::<char>::empty(),
    {
        Self::none()
    }

    /// Creates a `CharSet` which contains no [`char`]s.
    pub fn none() -> (s: Self)
        ensures
            s.wf(),
            s.chars() == Seq::<char>::empty(),
    {
        let s = CharSet { ascii_bitmask: 0, ranges: Vec::new(), len: 0 };
        proof {
            lemma_ones_below_all(128);
            lemma_ones_below(0u128, 128);
            assert(ranges_chars(s.ranges@) == Seq::<char>::empty());
            assert(s.chars() == Seq::<char>::empty());
        }
        s
    }

    /// The number of [`char`]s in this [`CharSet`].
    pub fn len(&self) -> (n: usize)
        requires
            self.wf(),
        ensures
            n == self.chars().len(),
    {
        self.len
    }

    /// Returns the index of the first range `r` for which `ch <= r.end`, or
    /// `self.ranges.len()` if ch is too big to fit into any range.
    fn range_idx_including_char(&self, ch: char) -> (idx: usize)
        requires
            valid_ranges(self.ranges@),
        ensures
            idx <= self.ranges@.len(),
            forall|j: int| 0 <= j < idx ==> code(#[trigger] self.ranges@[j].1) < code(ch),
            forall|j: int| idx <= j < self.ranges@.len() ==> code(ch) <= code(#[trigger] self.ranges@[j].1),
    {
        let mut lo: usize = 0;
        let mut hi: usize = self.ranges.len();
        while lo < hi
            invariant
                lo <= hi <= self.ranges@.len(),
                valid_ranges(self.ranges@),
                forall|j: int| 0 <= j < lo ==> code(#[trigger] self.ranges@[j].1) < code(ch),
                forall|j: int| hi <= j < self.ranges@.len() ==> code(ch) <= code(#[trigger] self.ranges@[j].1),
            decreases hi - lo,
        {
            let mid = lo + (hi - lo) / 2;
            let end = self.ranges[mid].1;
            proof {
                lemma_char_scalar(end);
                lemma_char_scalar(ch);
            }
            if (end as u32) < (ch as u32) {
                proof {
                    assert forall|j: int| 0 <= j < mid + 1 implies code(#[trigger] self.ranges@[j].1) < code(ch) by {
                        if j < mid {
                            assert(code(self.ranges@[j].1) < code(self.ranges@[mid as int].0));
                            assert(valid_range(self.ranges@[mid as int]));
                        }
                    }
                }
                lo = mid + 1;
            } else {
                proof {
                    assert forall|j: int| mid <= j < self.ranges@.len() implies code(ch) <= code(#[trigger] self.ranges@[j].1) by {
                        if j > mid {
                            assert(code(self.ranges@[mid as int].1) < code(self.ranges@[j].0));
                            assert(valid_range(self.ranges@[j]));
                        }
                    }
                }
                hi = mid;
            }
        }
        lo
    }

    /// Returns `true` if this set contains a given [`char`].
    pub fn contains(&self, ch: char) -> (b: bool)
        requires
            self.wf(),
        ensures
            b == self.chars().contains(ch),
    {
        proof {
            self.lemma_chars();
            lemma_char_scalar(ch);
        }
        let codepoint = ch as u32;
        if codepoint < 128 {
            proof {
                lemma_test_bit(self.ascii_bitmask, codepoint as u128);
                if covered(self.ranges@, ch) {
                    let j = choose|j: int| 0 <= j < self.ranges@.len() && in_range(#[trigger] self.ranges@[j], ch);
                    assert(valid_range(self.ranges@[j]));
                }
            }
            self.ascii_bitmask & (1u128 << codepoint) != 0
        } else {
            let idx = self.range_idx_including_char(ch);
            if idx < self.ranges.len() {
                let r = self.ranges[idx];
                proof {
                    lemma_char_scalar(r.0);
                    if covered(self.ranges@, ch) {
                        let j = choose|j: int| 0 <= j < self.ranges@.len() && in_range(#[trigger] self.ranges@[j], ch);
                        if j > idx {
                            assert(code(self.ranges@[idx as int].1) < code(self.ranges@[j].0));
                        }
                    }
                }
                (r.0 as u32) <= codepoint
            } else {
                false
            }
        }
    }

    /// Inserts a [`char`] into this set.  Returns `true` if the value was already in the set.
    pub fn insert(&mut self, ch: char) -> (was_present: bool)
        requires
            old(self).wf(),
        ensures
            final(self).wf(),
            was_present == old(self).chars().contains(ch),
            forall|c: char|
                final(self).chars().contains(c) <==> (old(self).chars().contains(c) || c == ch),
    {
        proof {
            self.lemma_chars();
            lemma_char_scalar(ch);
        }
        let codepoint = ch as u32;
        if codepoint < 128 {
            let bit: u128 = 1u128 << codepoint;
            proof {
                lemma_test_bit(self.ascii_bitmask, codepoint as u128);
                if covered(self.ranges@, ch) {
                    let j = choose|j: int| 0 <= j < self.ranges@.len() && in_range(#[trigger] self.ranges@[j], ch);
                    assert(valid_range(self.ranges@[j]));
                }
            }
            let is_contained = self.ascii_bitmask & bit != 0;
            if !is_contained {
                let ghost old_mask = self.ascii_bitmask;
                self.ascii_bitmask = self.ascii_bitmask | bit;
                proof {
                    assert forall|i: u128| i < 128 implies has_bit(self.ascii_bitmask, i) == (has_bit(old_mask, i) || i == codepoint) by {
                        lemma_bit_or(old_mask, bit, i);
                        lemma_single_bit(codepoint as u128, i);
                    }
                    lemma_ones_below_extra_bit(old_mask, self.ascii_bitmask, codepoint as u128, 128);
                    self.lemma_chars();
                    assert forall|c: char| self.chars().contains(c) <==> (old(self).chars().contains(c) || c == ch) by {
                        lemma_char_scalar(c);
                        if code(c) < 128 {
                            assert(has_bit(self.ascii_bitmask, code(c) as u128) == (has_bit(old_mask, code(c) as u128) || code(c) as u128 == codepoint));
                        }
                    }
                }
                self.len = self.len + 1;
            }
            is_contained
        } else {
            let ghost rs = self.ranges@;
            let range_idx = self.range_idx_including_char(ch);
            proof {
                assert forall|c: char| old(self).chars().contains(c) && code(c) >= 128 implies covered(rs, c) by {}
            }
            if range_idx < self.ranges.len() {
                let r = self.ranges[range_idx];
                proof {
                    lemma_char_scalar(r.0);
                    lemma_char_scalar(r.1);
                    assert(valid_range(rs[range_idx as int]));
                }
                if (r.0 as u32) <= codepoint {
                    return true;
                }
                // `ch` lies strictly between the range before `r` and `r`, so it is not in the set
                proof {
                    if covered(rs, ch) {
                        let j = choose|j: int| 0 <= j < rs.len() && in_range(#[trigger] rs[j], ch);
                        if j > range_idx {
                            assert(code(rs[range_idx as int].1) < code(rs[j].0));
                        }
                    }
                }
                if codepoint + 1 == r.0 as u32 {
                    let new_r = (ch, r.1);
                    self.ranges.set(range_idx, new_r);
                    proof {
                        assert forall|c: char| in_range(new_r, c) <==> (in_range(r, c) || c == ch) by {
                            lemma_char_scalar(c);
                        }
                        lemma_covered_update(rs, range_idx as int, new_r, ch);
                        lemma_ranges_len_update(rs, range_idx as int, new_r);
                        assert(self.ranges@ == rs.update(range_idx as int, new_r));
                        assert forall|i: int, j: int| 0 <= i < j < self.ranges@.len() implies code(#[trigger] self.ranges@[i].1) < code(#[trigger] self.ranges@[j].0) by {
                            if j == range_idx {
                                assert(code(rs[i].1) < code(ch));
                            } else {
                                assert(code(rs[i].1) < code(rs[j].0));
                            }
                        }
                        assert forall|i: int| 0 <= i < self.ranges@.len() implies valid_range(#[trigger] self.ranges@[i]) by {
                            assert(valid_range(rs[i]));
                        }
                        self.lemma_chars();
                    }
                    self.len = self.len + 1;
                    return false;
                }
                if range_idx > 0 {
                    let before = self.ranges[range_idx - 1];
                    proof {
                        lemma_char_scalar(before.0);
                        lemma_char_scalar(before.1);
                        assert(valid_range(rs[range_idx - 1]));
                    }
                    if before.1 as u32 + 1 == codepoint {
                        let new_r = (before.0, ch);
                        let bi = range_idx - 1;
                        self.ranges.set(bi, new_r);
                        proof {
                            assert forall|c: char| in_range(new_r, c) <==> (in_range(before, c) || c == ch) by {
                                lemma_char_scalar(c);
                            }
                            lemma_covered_update(rs, bi as int, new_r, ch);
                            lemma_ranges_len_update(rs, bi as int, new_r);
                            assert(self.ranges@ == rs.update(bi as int, new_r));
                            assert forall|i: int, j: int| 0 <= i < j < self.ranges@.len() implies code(#[trigger] self.ranges@[i].1) < code(#[trigger] self.ranges@[j].0) by {
                                if i == bi {
                                    if j > range_idx {
                                        assert(code(rs[range_idx as int].1) < code(rs[j].0));
                                    }
                                } else {
                                    assert(code(rs[i].1) < code(rs[j].0));
                                }
                            }
                            assert forall|i: int| 0 <= i < self.ranges@.len() implies valid_range(#[trigger] self.ranges@[i]) by {
                                assert(valid_range(rs[i]));
                            }
                            self.lemma_chars();
                        }
                        self.len = self.len + 1;
                        return false;
                    }
                }
            } else {
                proof {
                    if covered(rs, ch) {
                        let j = choose|j: int| 0 <= j < rs.len() && in_range(#[trigger] rs[j], ch);
                    }
                }
            }
            // `ch` can't be merged into any ranges, so insert a new range for it
            self.ranges.insert(range_idx, (ch, ch));
            proof {
                lemma_covered_insert(rs, range_idx as int, ch);
                lemma_ranges_len_insert(rs, range_idx as int, (ch, ch));
                assert(self.ranges@ == rs.insert(range_idx as int, (ch, ch)));
                assert forall|i: int, j: int| 0 <= i < j < self.ranges@.len() implies code(#[trigger] self.ranges@[i].1) < code(#[trigger] self.ranges@[j].0) by {
                    if i == range_idx {
                        assert(code(ch) < code(rs[j - 1].0)) by {
                            if j - 1 > range_idx {
                                assert(code(rs[range_idx as int].1) < code(rs[j - 1].0));
                                assert(valid_range(rs[range_idx as int]));
                            }
                        }
                    } else if j == range_idx {
                    } else if i < range_idx && j > range_idx {
                        assert(code(rs[i].1) < code(rs[j - 1].0));
                    } else if j < range_idx {
                        assert(code(rs[i].1) < code(rs[j].0));
                    } else {
                        assert(code(rs[i - 1].1) < code(rs[j - 1].0));
                    }
                }
                assert forall|i: int| 0 <= i < self.ranges@.len() implies valid_range(#[trigger] self.ranges@[i]) by {
                    if i < range_idx {
                        assert(valid_range(rs[i]));
                    } else if i > range_idx {
                        assert(valid_range(rs[i - 1]));
                    }
                }
                self.lemma_chars();
            }
            self.len = self.len + 1;
            false
        }
    }

    /// Creates a `CharSet` which contains every [`char`].
    pub fn all() -> (s: Self)
        ensures
            s.wf(),
            forall|c: char| s.chars().contains(c),
            s.chars().len() == 0x10F800,
    {
        let mut ranges: Vec<(char, char)> = Vec::new();
        ranges.push((FIRST_NON_ASCII_CHAR, '\u{D7FF}'));
        ranges.push(('\u{E000}', '\u{10FFFF}'));
        let s = CharSet { ascii_bitmask: !0u128, ranges, len: 0x10F800 };
        proof {
            let rs = s.ranges@;
            assert(rs.drop_last() == seq![rs[0]]);
            lemma_single_range(rs[0]);
            assert(ranges_len(rs) == 0xD7FF - 0x80 + 1 + 0x10FFFF - 0xE000 + 1);
            assert(valid_ranges(rs));
            lemma_ones_below_all(128);
            s.lemma_chars();
            assert forall|c: char| s.chars().contains(c) by {
                lemma_char_scalar(c);
                if code(c) < 128 {
                    lemma_all_and_no_bits(code(c) as u128);
                } else if code(c) <= 0xD7FF {
                    assert(in_range(rs[0], c));
                } else {
                    assert(in_range(rs[1], c));
                }
            }
        }
        s
    }

    /// Insert all `char`s from a [`RangeInclusive`] into `self`
    pub fn insert_range(&mut self, range: RangeInclusive<char>)
        requires
            old(self).wf(),
        ensures
            final(self).wf(),
            forall|c: char|
                final(self).chars().contains(c) <==> (old(self).chars().contains(c) || (code(
                    range@.start,
                ) <= code(c) <= code(range@.end))),
    {
        proof {
            self.lemma_chars();
            lemma_char_scalar(range@.start);
            lemma_char_scalar(range@.end);
        }
        let (ascii_range, non_ascii_range) = split_range(&range, FIRST_NON_ASCII_CHAR);
        if let Some(r) = ascii_range {
            // We want to set all the bits whose indices are `start <= idx <= end`
            let start = range_start(&r) as u128;
            let end = range_end(&r) as u128;
            proof {
                lemma_low_ones(start);
            }
            // 1 bits up to but not including the `start`th bit
            let ones_up_to_start = (1u128 << start) - 1;
            // 1 bits up to and including the `end`th bit
            let ones_to_end = if end == 127 {
                !0u128
            } else {
                proof {
                    lemma_low_ones((end + 1) as u128);
                }
                (1u128 << (end + 1)) - 1
            };
            // 1 bits from the `start`th bit to the `end`th bit
            let ones_in_range = ones_to_end & !ones_up_to_start;
            let prev_num_ascii_chars = count_ones(self.ascii_bitmask) as usize;
            let ghost old_mask = self.ascii_bitmask;
            self.ascii_bitmask = self.ascii_bitmask | ones_in_range;
            let num_ascii_chars = count_ones(self.ascii_bitmask) as usize;
            let ghost new_mask = self.ascii_bitmask;
            proof {
                assert forall|i: u128| i < 128 implies has_bit(new_mask, i) == (has_bit(old_mask, i) || (start <= i && i <= end)) by {
                    lemma_bit_or(old_mask, ones_in_range, i);
                    lemma_bit_span(start, end, ones_to_end, i);
                }
                lemma_ones_below_mono(old_mask, new_mask, 128);
                lemma_ones_below(old_mask, 128);
                lemma_ones_below(new_mask, 128);
                self.lemma_chars();
            }
            // Can't underflow, because the number of 1s can only have increased
            self.len = self.len + (num_ascii_chars - prev_num_ascii_chars);
            proof {
                assert forall|c: char| self.chars().contains(c) <==> (old(self).chars().contains(c) || (code(range@.start) <= code(c) <= code(range@.end) && code(c) < 128)) by {
                    lemma_char_scalar(c);
                    if code(c) < 128 {
                        let i = code(c) as u128;
                        lemma_bit_or(old_mask, ones_in_range, i);
                        lemma_bit_span(start, end, ones_to_end, i);
                        assert(has_bit(new_mask, i) == (has_bit(old_mask, i) || (start <= i && i <= end)));
                    }
                }
            }
        } else {
            proof {
                assert forall|c: char| self.chars().contains(c) <==> (old(self).chars().contains(c) || (code(range@.start) <= code(c) <= code(range@.end) && code(c) < 128)) by {
                    lemma_char_scalar(c);
                }
            }
        }
        let ghost mid = self.chars();
        if let Some(r) = non_ascii_range {
            let lo_char = range_start(&r);
            let hi_char = range_end(&r);
            proof {
                lemma_char_scalar(lo_char);
                lemma_char_scalar(hi_char);
            }
            let lo = lo_char as u32;
            let hi = hi_char as u32;
            let mut v = lo;
            while v <= hi
                invariant
                    self.wf(),
                    lo <= v,
                    v <= hi + 1 || v == lo,
                    hi <= 0x10FFFF,
                    forall|c: char| #[trigger] self.chars().contains(c) <==> (mid.contains(c) || (lo <= code(c) < v)),
                decreases hi + 1 - v,
            {
                let ghost before = self.chars();
                let next = char_from_u32(v);
                match next {
                    Some(new_char) => {
                        self.insert(new_char);
                        proof {
                            assert forall|c: char| self.chars().contains(c) <==> (mid.contains(c) || (lo <= code(c) < v + 1)) by {
                                lemma_char_scalar(c);
                                assert(self.chars().contains(c) <==> (before.contains(c) || c == new_char));
                                assert(before.contains(c) <==> (mid.contains(c) || (lo <= code(c) < v)));
                                if code(c) == v {
                                    assert(c == new_char);
                                }
                            }
                        }
                    },
                    None => {
                        proof {
                            assert(!is_scalar(v as int));
                            assert forall|c: char| self.chars().contains(c) <==> (mid.contains(c) || (lo <= code(c) < v + 1)) by {
                                lemma_char_scalar(c);
                                assert(self.chars() == before);
                                assert(before.contains(c) <==> (mid.contains(c) || (lo <= code(c) < v)));
                                if code(c) == v {
                                    assert(is_scalar(v as int));
                                }
                            }
                        }
                    },
                }
                v = v + 1;
            }
            proof {
                assert(code(lo_char) == if code(range@.start) < 128 { 128 } else { code(range@.start) });
                assert(hi_char == range@.end);
                assert forall|c: char| self.chars().contains(c) <==> (old(self).chars().contains(c) || (code(range@.start) <= code(c) <= code(range@.end))) by {
                    lemma_char_scalar(c);
                    assert(self.chars().contains(c) <==> (mid.contains(c) || (lo <= code(c) < v)));
                    assert(mid.contains(c) <==> (old(self).chars().contains(c) || (code(range@.start) <= code(c) <= code(range@.end) && code(c) < 128)));
                    if code(c) >= 128 && code(range@.start) <= code(c) <= code(range@.end) {
                        assert(lo <= code(c));
                        assert(code(c) <= hi);
                        assert(v == hi + 1);
                    }
                }
            }
        } else {
            proof {
                assert(code(range@.end) < 128);
            }
        }
        proof {
            assert forall|c: char| self.chars().contains(c) <==> (old(self).chars().contains(c) || (code(range@.start) <= code(c) <= code(range@.end))) by {
                lemma_char_scalar(c);
            }
        }
    }

    /// Removes a [`char`] from `self`, returning `true` if that [`char`] was in the set.
    pub fn remove(&mut self, ch: char) -> (was_present: bool)
        requires
            old(self).wf(),
        ensures
            final(self).wf(),
            was_present == old(self).chars().contains(ch),
            forall|c: char|
                final(self).chars().contains(c) <==> (old(self).chars().contains(c) && c != ch),
    {
        proof {
            self.lemma_chars();
            lemma_char_scalar(ch);
        }
        let codepoint = ch as u32;
        if codepoint < 128 {
            let bit: u128 = 1u128 << codepoint;
            proof {
                lemma_test_bit(self.ascii_bitmask, codepoint as u128);
                if covered(self.ranges@, ch) {
                    let j = choose|j: int| 0 <= j < self.ranges@.len() && in_range(#[trigger] self.ranges@[j], ch);
                    assert(valid_range(self.ranges@[j]));
                }
            }
            let is_contained = self.ascii_bitmask & bit != 0;
            if is_contained {
                let ghost old_mask = self.ascii_bitmask;
                self.ascii_bitmask = self.ascii_bitmask & !bit;
                let ghost new_mask = self.ascii_bitmask;
                proof {
                    assert forall|i: u128| i < 128 implies has_bit(new_mask, i) == (has_bit(old_mask, i) && i != codepoint) by {
                        lemma_clear_bit(old_mask, codepoint as u128, i);
                    }
                    assert forall|i: u128| i < 128 && i != codepoint implies has_bit(new_mask, i) == has_bit(old_mask, i) by {
                        lemma_clear_bit(old_mask, codepoint as u128, i);
                    }
                    lemma_clear_bit(old_mask, codepoint as u128, codepoint as u128);
                    lemma_ones_below_extra_bit(new_mask, old_mask, codepoint as u128, 128);
                    self.lemma_chars();
                    assert forall|c: char| self.chars().contains(c) <==> (old(self).chars().contains(c) && c != ch) by {
                        lemma_char_scalar(c);
                        if code(c) < 128 {
                            lemma_clear_bit(old_mask, codepoint as u128, code(c) as u128);
                        }
                    }
                }
                self.len = self.len - 1;
            }
            is_contained
        } else {
            self.remove_non_ascii(ch)
        }
    }

    /// Removes a [`char`] that lies above the ASCII chars.
    fn remove_non_ascii(&mut self, ch: char) -> (was_present: bool)
        requires
            old(self).wf(),
            code(ch) >= 128,
        ensures
            final(self).wf(),
            was_present == old(self).chars().contains(ch),
            forall|c: char|
                final(self).chars().contains(c) <==> (old(self).chars().contains(c) && c != ch),
    {
        proof {
            self.lemma_chars();
            lemma_char_scalar(ch);
        }
        let codepoint = ch as u32;
        let ghost rs = self.ranges@;
        let range_idx = self.range_idx_including_char(ch);
        if range_idx >= self.ranges.len() {
            proof {
                if covered(rs, ch) {
                    let j = choose|j: int| 0 <= j < rs.len() && in_range(#[trigger] rs[j], ch);
                }
            }
            return false;
        }
        let r = self.ranges[range_idx];
        proof {
            lemma_char_scalar(r.0);
            lemma_char_scalar(r.1);
            assert(valid_range(rs[range_idx as int]));
            if covered(rs, ch) {
                let j = choose|j: int| 0 <= j < rs.len() && in_range(#[trigger] rs[j], ch);
                if j > range_idx {
                    assert(code(rs[range_idx as int].1) < code(rs[j].0));
                }
            }
        }
        if (r.0 as u32) > codepoint {
            return false;
        }
        // `ch` lies in `r`, and in no other range
        proof {
            assert forall|j: int| 0 <= j < rs.len() && j != range_idx implies !in_range(#[trigger] rs[j], ch) by {
                if j < range_idx {
                    assert(code(rs[j].1) < code(ch));
                } else {
                    assert(code(rs[range_idx as int].1) < code(rs[j].0));
                }
            }
        }
        if r.0 == r.1 {
            self.ranges.remove(range_idx);
            proof {
                lemma_ranges_len_remove(rs, range_idx as int);
                self.lemma_after_remove_entry(rs, range_idx as int, ch);
                self.lemma_chars();
            }
        } else if r.0 == ch {
            let next = char_from_u32(codepoint + 1).unwrap();
            let new_r = (next, r.1);
            self.ranges.set(range_idx, new_r);
            proof {
                assert forall|c: char| in_range(new_r, c) <==> (in_range(r, c) && c != ch) by {
                    lemma_char_scalar(c);
                }
                lemma_ranges_len_update(rs, range_idx as int, new_r);
                assert(self.ranges@ == rs.update(range_idx as int, new_r));
                self.lemma_after_shrink(rs, range_idx as int, ch);
                self.lemma_chars();
            }
        } else if r.1 == ch {
            let prev = char_from_u32(codepoint - 1).unwrap();
            let new_r = (r.0, prev);
            self.ranges.set(range_idx, new_r);
            proof {
                assert forall|c: char| in_range(new_r, c) <==> (in_range(r, c) && c != ch) by {
                    lemma_char_scalar(c);
                }
                lemma_ranges_len_update(rs, range_idx as int, new_r);
                assert(self.ranges@ == rs.update(range_idx as int, new_r));
                self.lemma_after_shrink(rs, range_idx as int, ch);
                self.lemma_chars();
            }
        } else {
            // Split `r` around `ch`
            let prev = char_from_u32(codepoint - 1).unwrap();
            let next = char_from_u32(codepoint + 1).unwrap();
            let left = (r.0, prev);
            let right = (next, r.1);
            self.ranges.set(range_idx, left);
            self.ranges.insert(range_idx + 1, right);
            proof {
                let mid = rs.update(range_idx as int, left);
                lemma_ranges_len_update(rs, range_idx as int, left);
                lemma_ranges_len_insert(mid, range_idx as int + 1, right);
                assert(self.ranges@ == mid.insert(range_idx as int + 1, right));
                lemma_char_scalar(prev);
                lemma_char_scalar(next);
                self.lemma_after_split(rs, range_idx as int, ch);
                self.lemma_chars();
            }
        }
        proof {
            assert forall|c: char| self.chars().contains(c) <==> (old(self).chars().contains(c) && c != ch) by {
                lemma_char_scalar(c);
            }
        }
        self.len = self.len - 1;
        true
    }

    /// After removing the range `k` of `rs`, which holds `ch` alone.
    proof fn lemma_after_remove_entry(&self, rs: Seq<(char, char)>, k: int, ch: char)
        requires
            valid_ranges(rs),
            0 <= k < rs.len(),
            self.ranges@ == rs.remove(k),
            in_range(rs[k], ch),
            rs[k].0 == rs[k].1,
            forall|j: int| 0 <= j < rs.len() && j != k ==> !in_range(#[trigger] rs[j], ch),
        ensures
            valid_ranges(self.ranges@),
            forall|c: char| covered(self.ranges@, c) <==> (covered(rs, c) && c != ch),
    {
        assert forall|i: int, j: int| 0 <= i < j < self.ranges@.len() implies code(
            #[trigger] self.ranges@[i].1,
        ) < code(#[trigger] self.ranges@[j].0) by {
            if i < k && j < k {
                assert(code(rs[i].1) < code(rs[j].0));
            } else if i < k {
                assert(code(rs[i].1) < code(rs[j + 1].0));
            } else {
                assert(code(rs[i + 1].1) < code(rs[j + 1].0));
            }
        }
        assert forall|i: int| 0 <= i < self.ranges@.len() implies valid_range(
            #[trigger] self.ranges@[i],
        ) by {
            if i < k {
                assert(valid_range(rs[i]));
            } else {
                assert(valid_range(rs[i + 1]));
            }
        }
        assert forall|c: char| covered(self.ranges@, c) <==> (covered(rs, c) && c != ch) by {
            lemma_char_scalar(c);
            if covered(self.ranges@, c) {
                let j = choose|j: int|
                    0 <= j < self.ranges@.len() && in_range(#[trigger] self.ranges@[j], c);
                if j < k {
                    assert(in_range(rs[j], c));
                } else {
                    assert(in_range(rs[j + 1], c));
                }
            }
            if covered(rs, c) && c != ch {
                let j = choose|j: int| 0 <= j < rs.len() && in_range(#[trigger] rs[j], c);
                if j < k {
                    assert(in_range(self.ranges@[j], c));
                } else if j > k {
                    assert(in_range(self.ranges@[j - 1], c));
                }
            }
        }
    }

    /// After splitting the range `k` of `rs` around `ch`, an interior char of it.
    proof fn lemma_after_split(&self, rs: Seq<(char, char)>, k: int, ch: char)
        requires
            valid_ranges(rs),
            0 <= k < rs.len(),
            self.ranges@.len() == rs.len() + 1,
            code(rs[k].0) < code(ch) < code(rs[k].1),
            forall|j: int| 0 <= j < k ==> self.ranges@[j] == rs[j],
            forall|j: int| k + 1 < j < self.ranges@.len() ==> self.ranges@[j] == rs[j - 1],
            self.ranges@[k].0 == rs[k].0,
            code(self.ranges@[k].1) + 1 == code(ch),
            code(self.ranges@[k + 1].0) == code(ch) + 1,
            self.ranges@[k + 1].1 == rs[k].1,
        ensures
            valid_ranges(self.ranges@),
            forall|c: char| covered(self.ranges@, c) <==> (covered(rs, c) && c != ch),
    {
        lemma_char_scalar(ch);
        assert(valid_range(rs[k]));
        lemma_char_scalar(self.ranges@[k].1);
        lemma_char_scalar(self.ranges@[k + 1].0);
        assert forall|i: int, j: int| 0 <= i < j < self.ranges@.len() implies code(
            #[trigger] self.ranges@[i].1,
        ) < code(#[trigger] self.ranges@[j].0) by {
            if j < k {
                assert(code(rs[i].1) < code(rs[j].0));
            } else if j == k {
                assert(code(rs[i].1) < code(rs[k].0));
            } else if j == k + 1 {
                if i < k {
                    assert(code(rs[i].1) < code(rs[k].0));
                }
            } else if i < k {
                assert(code(rs[i].1) < code(rs[j - 1].0));
            } else if i <= k + 1 {
                assert(code(rs[k].1) < code(rs[j - 1].0));
            } else {
                assert(code(rs[i - 1].1) < code(rs[j - 1].0));
            }
        }
        assert forall|i: int| 0 <= i < self.ranges@.len() implies valid_range(
            #[trigger] self.ranges@[i],
        ) by {
            if i < k {
                assert(valid_range(rs[i]));
            } else if i > k + 1 {
                assert(valid_range(rs[i - 1]));
            }
        }
        assert forall|c: char| covered(self.ranges@, c) <==> (covered(rs, c) && c != ch) by {
            lemma_char_scalar(c);
            if covered(self.ranges@, c) {
                let j = choose|j: int|
                    0 <= j < self.ranges@.len() && in_range(#[trigger] self.ranges@[j], c);
                if j < k {
                    assert(in_range(rs[j], c));
                } else if j <= k + 1 {
                    assert(in_range(rs[k], c));
                    if j > k + 1 {
                    }
                } else {
                    assert(in_range(rs[j - 1], c));
                    assert(code(rs[k].1) < code(rs[j - 1].0));
                }
            }
            if covered(rs, c) && c != ch {
                let j = choose|j: int| 0 <= j < rs.len() && in_range(#[trigger] rs[j], c);
                if j < k {
                    assert(in_range(self.ranges@[j], c));
                } else if j > k {
                    assert(in_range(self.ranges@[j + 1], c));
                } else if code(c) < code(ch) {
                    assert(in_range(self.ranges@[k], c));
                } else {
                    assert(in_range(self.ranges@[k + 1], c));
                }
            }
        }
    }

    /// After shrinking range `k` of `rs` by the char `ch` at one of its ends.
    proof fn lemma_after_shrink(&self, rs: Seq<(char, char)>, k: int, ch: char)
        requires
            valid_ranges(rs),
            0 <= k < rs.len(),
            self.ranges@.len() == rs.len(),
            forall|j: int| 0 <= j < rs.len() && j != k ==> self.ranges@[j] == rs[j],
            in_range(rs[k], ch),
            forall|c: char| in_range(self.ranges@[k], c) <==> (in_range(rs[k], c) && c != ch),
            range_len(self.ranges@[k]) == range_len(rs[k]) - 1,
            range_len(self.ranges@[k]) >= 1,
            code(rs[k].0) <= code(self.ranges@[k].0),
            code(self.ranges@[k].1) <= code(rs[k].1),
        ensures
            valid_ranges(self.ranges@),
            forall|c: char| covered(self.ranges@, c) <==> (covered(rs, c) && c != ch),
    {
        assert forall|i: int, j: int| 0 <= i < j < self.ranges@.len() implies code(#[trigger] self.ranges@[i].1) < code(#[trigger] self.ranges@[j].0) by {
            assert(code(rs[i].1) < code(rs[j].0));
        }
        assert forall|i: int| 0 <= i < self.ranges@.len() implies valid_range(#[trigger] self.ranges@[i]) by {
            assert(valid_range(rs[i]));
            if i == k {
                lemma_char_scalar(self.ranges@[k].0);
                lemma_char_scalar(self.ranges@[k].1);
            }
        }
        assert forall|c: char| covered(self.ranges@, c) <==> (covered(rs, c) && c != ch) by {
            if covered(self.ranges@, c) {
                let j = choose|j: int| 0 <= j < self.ranges@.len() && in_range(#[trigger] self.ranges@[j], c);
                assert(in_range(rs[j], c));
                if j != k {
                    assert(c != ch) by {
                        if c == ch {
                            assert(in_range(rs[k], ch));
                            if j < k {
                                assert(code(rs[j].1) < code(rs[k].0));
                            } else {
                                assert(code(rs[k].1) < code(rs[j].0));
                            }
                        }
                    }
                }
            }
            if covered(rs, c) && c != ch {
                let j = choose|j: int| 0 <= j < rs.len() && in_range(#[trigger] rs[j], c);
                assert(in_range(self.ranges@[j], c));
            }
        }
    }

    /// The set of the chars of `chars`.
    pub fn from_chars(chars: &Vec<char>) -> (set: Self)
        ensures
            set.wf(),
            forall|c: char| set.chars().contains(c) <==> chars@.contains(c),
    {
        let mut set = CharSet::empty();
        let mut i: usize = 0;
        while i < chars.len()
            invariant
                i <= chars@.len(),
                set.wf(),
                forall|c: char| set.chars().contains(c) <==> chars@.take(i as int).contains(c),
            decreases chars@.len() - i,
        {
            let ghost before = set.chars();
            set.insert(chars[i]);
            proof {
                assert forall|c: char| set.chars().contains(c) <==> chars@.take(i + 1).contains(c) by {
                    assert(chars@.take(i + 1) == chars@.take(i as int).push(chars@[i as int]));
                    if chars@.take(i + 1).contains(c) {
                        let t = chars@.take(i + 1);
                        let j = choose|j: int| 0 <= j < t.len() && t[j] == c;
                        if j < i {
                            assert(chars@.take(i as int)[j] == c);
                        }
                    }
                    if chars@.take(i as int).contains(c) {
                        let t = chars@.take(i as int);
                        let j = choose|j: int| 0 <= j < t.len() && t[j] == c;
                        assert(chars@.take(i + 1)[j] == c);
                    }
                    if c == chars@[i as int] {
                        assert(chars@.take(i + 1)[i as int] == c);
                    }
                }
            }
            i = i + 1;
        }
        assert(chars@.take(i as int) == chars@);
        set
    }

    /// The set of the chars of all the ranges of `ranges`.
    pub fn from_ranges(ranges: Vec<RangeInclusive<char>>) -> (set: Self)
        ensures
            set.wf(),
            forall|c: char|
                set.chars().contains(c) <==> exists|j: int|
                    0 <= j < ranges@.len() && code(#[trigger] ranges@[j]@.start) <= code(c) <= code(
                        ranges@[j]@.end,
                    ),
    {
        let mut set = CharSet::empty();
        let mut rest = ranges;
        let ghost all = rest@;
        let n = rest.len();
        let mut i: usize = 0;
        while rest.len() > 0
            invariant
                set.wf(),
                n == all.len(),
                i + rest@.len() == all.len(),
                rest@ == all.skip(i as int),
                forall|c: char|
                    set.chars().contains(c) <==> exists|j: int|
                        0 <= j < i && code(#[trigger] all[j]@.start) <= code(c) <= code(all[j]@.end),
            decreases rest@.len(),
        {
            let r = rest.remove(0);
            proof {
                assert(r == all[i as int]);
                assert(rest@ == all.skip(i + 1));
            }
            set.insert_range(r);
            proof {
                assert forall|c: char|
                    set.chars().contains(c) <==> exists|j: int|
                        0 <= j < i + 1 && code(#[trigger] all[j]@.start) <= code(c) <= code(all[j]@.end) by {
                    if code(all[i as int]@.start) <= code(c) <= code(all[i as int]@.end) {
                        assert(0 <= i < i + 1);
                    }
                }
            }
            i = i + 1;
        }
        set
    }

    /// A [`Sampler`] that picks chars uniformly from `self`.
    pub fn sampler(&self) -> (s: Sampler<'_>)
        requires
            self.wf(),
        ensures
            s.wf(),
            s.charset() == *self,
    {
        Sampler::new(self)
    }
}

/// Add some offset to the unicode code-point of a [`char`], saturating at `ch` itself
/// when the sum is no `char`.
fn saturating_add_char(ch: char, offset: u32) -> (c: char)
    ensures
        is_scalar(code(ch) + offset) ==> code(c) == code(ch) + offset,
        !is_scalar(code(ch) + offset) ==> c == ch,
{
    proof {
        lemma_char_scalar(ch);
    }
    match (ch as u32).checked_add(offset) {
        Some(v) => match char_from_u32(v) {
            Some(c) => c,
            None => ch,
        },
        None => ch,
    }
}

/// The chars whose bits are set in `mask`, in increasing order.
fn ascii_values_from_bitmask(mask: u128) -> (chars: Vec<char>)
    ensures
        chars@ == ascii_chars(mask, 128),
{
    let mut chars: Vec<char> = Vec::new();
    let mut i: u32 = 0;
    while i < 128
        invariant
            i <= 128,
            chars@ == ascii_chars(mask, i as nat),
        decreases 128 - i,
    {
        proof {
            lemma_test_bit(mask, i as u128);
        }
        if mask & (1u128 << i) != 0 {
            let c = char_from_u32(i).unwrap();
            chars.push(c);
        }
        i = i + 1;
    }
    chars
}

/// Persistent state for uniformly sampling [`char`]s from a [`CharSet`]
#[derive(Debug, Clone)]
pub struct Sampler<'s> {
    /// The [`CharSet`] whose contents we're sampling.
    set: &'s CharSet,
    /// The [`char`]s contained within the `self.set.ascii_bitmask`
    ascii_values: Vec<char>,
    /// The cumulative index of the first `char` of each range in `self.set` (assuming that the
    /// chars are listed from left-to-right).
    cumulative_start_indices: Vec<usize>,
}

impl<'s> Sampler<'s> {
    /// The set being sampled.
    pub closed spec fn charset(&self) -> CharSet {
        *self.set
    }

    /// The internal invariant of a `Sampler`.
    pub closed spec fn wf(&self) -> bool {
        &&& self.set.wf()
        &&& self.ascii_values@ == ascii_chars(self.set.ascii_bitmask, 128)
        &&& self.cumulative_start_indices@.len() == self.set.ranges@.len()
        &&& forall|k: int|
            0 <= k < self.cumulative_start_indices@.len() ==> #[trigger] self.cumulative_start_indices@[k]
                == self.ascii_values@.len() + ranges_len(self.set.ranges@.take(k))
    }

    /// Creates a sampler for `set`.
    pub fn new(set: &'s CharSet) -> (s: Sampler<'s>)
        requires
            set.wf(),
        ensures
            s.wf(),
            s.charset() == *set,
    {
        let ascii_values = ascii_values_from_bitmask(set.ascii_bitmask);
        proof {
            set.lemma_chars();
            lemma_ascii_chars(set.ascii_bitmask, 128);
            lemma_ones_below(set.ascii_bitmask, 128);
        }
        let ghost rs = set.ranges@;
        let ghost a = ascii_values@.len();
        // The first range starts after all the ASCII chars
        let mut start_idx = ascii_values.len();
        let mut cumulative_start_indices: Vec<usize> = Vec::new();
        let mut i: usize = 0;
        while i < set.ranges.len()
            invariant
                i <= rs.len(),
                rs == set.ranges@,
                valid_ranges(rs),
                set.wf(),
                a == ascii_values@.len(),
                set.chars().len() == a + ranges_len(rs),
                set.chars().len() <= 0x110000,
                start_idx == a + ranges_len(rs.take(i as int)),
                cumulative_start_indices@.len() == i,
                forall|k: int|
                    0 <= k < i ==> #[trigger] cumulative_start_indices@[k] == a + ranges_len(rs.take(k)),
            decreases rs.len() - i,
        {
            let r = set.ranges[i];
            proof {
                lemma_char_scalar(r.0);
                lemma_char_scalar(r.1);
                assert(valid_range(rs[i as int]));
                lemma_ranges_take_last(rs, i as int);
                lemma_ranges_take_bound(rs, i as int + 1);
            }
            let range_len = r.1 as usize + 1 - r.0 as usize;
            cumulative_start_indices.push(start_idx);
            start_idx = start_idx + range_len;
            i = i + 1;
        }
        Sampler { set, ascii_values, cumulative_start_indices }
    }

    /// The last range whose first char has an index no greater than `idx`.
    fn range_of_index(&self, idx: usize) -> (k: usize)
        requires
            self.wf(),
            self.ascii_values@.len() <= idx,
            self.set.ranges@.len() > 0,
        ensures
            k < self.set.ranges@.len(),
            self.cumulative_start_indices@[k as int] <= idx,
            k + 1 < self.set.ranges@.len() ==> idx < self.cumulative_start_indices@[k + 1],
    {
        let ghost rs = self.set.ranges@;
        let cum = &self.cumulative_start_indices;
        proof {
            assert(rs.take(0) == Seq::<(char, char)>::empty());
            assert(cum@[0] == self.ascii_values@.len() + ranges_len(rs.take(0)));
        }
        let mut lo: usize = 0;
        let mut hi: usize = cum.len();
        while hi - lo > 1
            invariant
                self.wf(),
                rs == self.set.ranges@,
                cum == &self.cumulative_start_indices,
                valid_ranges(rs),
                0 <= lo < hi <= cum@.len(),
                cum@.len() == rs.len(),
                cum@[lo as int] <= idx,
                forall|j: int| hi <= j < cum@.len() ==> idx < #[trigger] cum@[j],
            decreases hi - lo,
        {
            let mid = lo + (hi - lo) / 2;
            if cum[mid] <= idx {
                lo = mid;
            } else {
                proof {
                    assert forall|j: int| mid <= j < cum@.len() implies idx < #[trigger] cum@[j] by {
                        lemma_ranges_take_mono(rs, mid as int, j);
                    }
                }
                hi = mid;
            }
        }
        lo
    }

    /// The `idx`th char of the set, in increasing order.
    pub fn sample_at(&self, idx: usize) -> (c: char)
        requires
            self.wf(),
            idx < self.charset().chars().len(),
        ensures
            c == self.charset().chars()[idx as int],
    {
        let ghost set = *self.set;
        let ghost rs = set.ranges@;
        let ghost a = self.ascii_values@.len();
        proof {
            set.lemma_chars();
            lemma_ascii_chars(set.ascii_bitmask, 128);
            lemma_ones_below(set.ascii_bitmask, 128);
        }
        if idx < self.ascii_values.len() {
            return self.ascii_values[idx];
        }
        proof {
            assert(rs.len() > 0) by {
                if rs.len() == 0 {
                    assert(ranges_len(rs) == 0);
                }
            }
        }
        let lo = self.range_of_index(idx);
        let cum = &self.cumulative_start_indices;
        let range_start_idx = cum[lo];
        let off = idx - range_start_idx;
        let start = self.set.ranges[lo].0;
        proof {
            let k = lo as int;
            if k + 1 < rs.len() {
                assert(idx < cum@[k + 1]);
                lemma_ranges_take_last(rs, k);
            } else {
                assert(rs.take(k + 1) == rs);
                lemma_ranges_take_last(rs, k);
            }
            assert(off < range_len(rs[k]));
            lemma_ranges_index(rs, k, off as int);
            lemma_ranges_chars(rs);
            assert(valid_range(rs[k]));
            lemma_char_scalar(rs[k].0);
            lemma_char_scalar(rs[k].1);
            assert(is_scalar(code(start) + off));
            assert(set.chars()[idx as int] == ranges_chars(rs)[idx - a]);
        }
        let c = saturating_add_char(start, off as u32);
        proof {
            lemma_char_scalar(set.chars()[idx as int]);
        }
        c
    }

    /// Pick a new [`char`] uniformly from the [`CharSet`], or [`None`] if the [`CharSet`] is
    /// empty.
    pub fn sample(&self, rng: &mut StdRng) -> (c: Option<char>)
        requires
            self.wf(),
        ensures
            c is None <==> self.charset().chars().len() == 0,
            c is Some ==> self.charset().chars().contains(c->0),
    {
        if self.set.len == 0 {
            return None;
        }
        let char_idx = gen_index(rng, self.set.len);
        let c = self.sample_at(char_idx);
        proof {
            assert(self.charset().chars()[char_idx as int] == c);
        }
        Some(c)
    }
}

} // verus!
