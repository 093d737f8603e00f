//! Strings as UTF-8 bytes: boundaries between characters, and walking from
//! one character to the next in either direction.
//!
//! A position in a string is a *boundary* when a character starts there or the
//! string ends there.

use vstd::prelude::*;
use vstd::string::*;
use vstd::utf8::*;

verus! {

broadcast use {vstd::utf8::encode_utf8_valid_utf8, vstd::utf8::encode_utf8_decode_utf8};

/// Whether `c` carries the Unicode `White_Space` property.
pub uninterp spec fn char_is_whitespace(c: char) -> bool;

/// `char::is_whitespace` of the standard library. Its answer depends on the
/// character alone; the contract gives that answer a name and claims nothing
/// about which characters it holds for.
pub assume_specification[ char::is_whitespace ](c: char) -> (r: bool)
    ensures
        r == char_is_whitespace(c),
;

/// Whether `k` is a boundary of `bytes`: one of the two ends, or a position
/// that holds no byte of the form `10xxxxxx`.
pub open spec fn is_boundary(bytes: Seq<u8>, k: int) -> bool {
    k == 0 || k == bytes.len() || (0 < k < bytes.len() && !is_continuation_byte(bytes[k]))
}

/// The bytes from `k` to the end.
pub open spec fn tail(bytes: Seq<u8>, k: int) -> Seq<u8> {
    bytes.subrange(k, bytes.len() as int)
}

/// The character that starts at boundary `k`.
pub open spec fn char_at(bytes: Seq<u8>, k: int) -> char {
    decode_first_scalar(tail(bytes, k)) as char
}

/// The number of bytes of the character that starts at boundary `k`.
pub open spec fn width_at(bytes: Seq<u8>, k: int) -> int {
    length_of_first_scalar(tail(bytes, k))
}

/// The greatest boundary of `bytes` that is at most `budget`.
pub open spec fn floor_boundary(bytes: Seq<u8>, budget: int) -> int
    decreases budget,
{
    if budget <= 0 {
        0
    } else if is_boundary(bytes, budget) {
        budget
    } else {
        floor_boundary(bytes, budget - 1)
    }
}

/// The first boundary in `lo..hi` whose character is whitespace (`ws`) or is
/// not (`!ws`); `hi` when there is none.
pub open spec fn first_char_start(bytes: Seq<u8>, lo: int, hi: int, ws: bool) -> int
    decreases hi - lo,
{
    if lo >= hi {
        hi
    } else if is_boundary(bytes, lo) && char_is_whitespace(char_at(bytes, lo)) == ws {
        lo
    } else {
        first_char_start(bytes, lo + 1, hi, ws)
    }
}

/// The end of the last character that starts in `lo..hi` and is whitespace
/// (`ws`) or is not (`!ws`); `lo` when there is none.
pub open spec fn last_char_end(bytes: Seq<u8>, lo: int, hi: int, ws: bool) -> int
    decreases hi - lo,
{
    if hi <= lo {
        lo
    } else if is_boundary(bytes, hi - 1) && char_is_whitespace(char_at(bytes, hi - 1)) == ws {
        hi - 1 + width_at(bytes, hi - 1)
    } else {
        last_char_end(bytes, lo, hi - 1, ws)
    }
}

/// The first position in `lo..hi` that does not hold `byte`; `hi` when all do.
pub open spec fn skip_byte(bytes: Seq<u8>, lo: int, hi: int, byte: u8) -> int
    decreases hi - lo,
{
    if lo < hi && bytes[lo] == byte {
        skip_byte(bytes, lo + 1, hi, byte)
    } else {
        lo
    }
}

/// The end of `lo..hi` once the run of `byte` at its end is dropped.
pub open spec fn skip_byte_back(bytes: Seq<u8>, lo: int, hi: int, byte: u8) -> int
    decreases hi - lo,
{
    if lo < hi && bytes[hi - 1] == byte {
        skip_byte_back(bytes, lo, hi - 1, byte)
    } else {
        hi
    }
}

/// On valid UTF-8 the boundaries are the positions that hold no continuation
/// byte, and the two ends.
pub proof fn lemma_boundary(bytes: Seq<u8>, k: int)
    requires
        valid_utf8(bytes),
    ensures
        is_char_boundary(bytes, k) == is_boundary(bytes, k),
{
    is_char_boundary_start_end_of_seq(bytes);
    if 0 < k < bytes.len() {
        is_char_boundary_iff_not_is_continuation_byte(bytes, k);
    }
}

/// What follows a boundary is valid UTF-8 again, and so is what precedes it.
pub proof fn lemma_cut_valid(bytes: Seq<u8>, k: int)
    requires
        valid_utf8(bytes),
        is_boundary(bytes, k),
    ensures
        valid_utf8(tail(bytes, k)),
        valid_utf8(bytes.subrange(0, k)),
{
    lemma_boundary(bytes, k);
    valid_utf8_split(bytes, k);
}

/// The character at a boundary before the end takes one to four bytes, the
/// next boundary lies right behind it, and none lies inside it.
pub proof fn lemma_char_width(bytes: Seq<u8>, k: int)
    requires
        valid_utf8(bytes),
        is_boundary(bytes, k),
        0 <= k < bytes.len(),
    ensures
        valid_first_scalar(tail(bytes, k)),
        1 <= width_at(bytes, k) <= 4,
        k + width_at(bytes, k) <= bytes.len(),
        is_boundary(bytes, k + width_at(bytes, k)),
        forall|q: int| k < q < k + width_at(bytes, k) ==> !is_boundary(bytes, q),
        is_leading_byte_width_1(bytes[k]) ==> width_at(bytes, k) == 1,
{
    lemma_cut_valid(bytes, k);
    let t = tail(bytes, k);
    let w = length_of_first_scalar(t);
    let rest = pop_first_scalar(t);
    assert(valid_utf8(rest));
    assert forall|q: int| k < q < k + w implies !is_boundary(bytes, q) by {}
}

/// `floor_boundary` returns a boundary within the string and the budget.
pub proof fn lemma_floor_boundary(bytes: Seq<u8>, budget: int)
    requires
        budget <= bytes.len(),
    ensures
        0 <= floor_boundary(bytes, budget) <= bytes.len(),
        floor_boundary(bytes, budget) <= budget || budget < 0,
        is_boundary(bytes, floor_boundary(bytes, budget)),
        forall|q: int| floor_boundary(bytes, budget) < q <= budget ==> !is_boundary(bytes, q),
        budget > 0 && floor_boundary(bytes, budget) == 0 ==> !is_boundary(bytes, budget),
    decreases budget,
{
    if budget > 0 && !is_boundary(bytes, budget) {
        lemma_floor_boundary(bytes, budget - 1);
    }
}

/// A prefix that ends on a boundary has the boundaries of the whole string up
/// to its end, and the same characters there.
pub proof fn lemma_prefix_chars(bytes: Seq<u8>, end: int, k: int)
    requires
        valid_utf8(bytes),
        is_boundary(bytes, end),
        0 <= end <= bytes.len(),
        0 <= k < end,
        is_boundary(bytes, k),
    ensures
        is_boundary(bytes.subrange(0, end), k),
        char_at(bytes.subrange(0, end), k) == char_at(bytes, k),
        width_at(bytes.subrange(0, end), k) == width_at(bytes, k),
        k + width_at(bytes, k) <= end,
{
    let p = bytes.subrange(0, end);
    lemma_cut_valid(bytes, end);
    lemma_char_width(bytes, k);
    let w = width_at(bytes, k);
    let t = tail(bytes, k);
    let tp = tail(p, k);
    assert forall|i: int| 0 <= i < w implies tp[i] == t[i] by {}
}

/// With a budget at or past the end, `floor_boundary` is the end.
pub proof fn lemma_floor_at_end(bytes: Seq<u8>, budget: int)
    requires
        budget >= bytes.len(),
    ensures
        floor_boundary(bytes, budget) == bytes.len(),
    decreases budget,
{
    if budget > bytes.len() && budget > 0 {
        lemma_floor_at_end(bytes, budget - 1);
    }
}

/// Positions inside a character do not count for `last_char_end`.
pub proof fn lemma_last_char_skip(bytes: Seq<u8>, lo: int, k: int, hi: int, ws: bool)
    requires
        lo <= k < hi,
        forall|q: int| k < q < hi ==> !is_boundary(bytes, q),
    ensures
        last_char_end(bytes, lo, hi, ws) == last_char_end(bytes, lo, k + 1, ws),
    decreases hi - k,
{
    if hi > k + 1 {
        lemma_last_char_skip(bytes, lo, k, hi - 1, ws);
    }
}

/// `last_char_end`, one character at a time: at a boundary it looks at the
/// character that ends there.
pub proof fn lemma_last_char_step(bytes: Seq<u8>, lo: int, hi: int, ws: bool)
    requires
        valid_utf8(bytes),
        is_boundary(bytes, lo),
        is_boundary(bytes, hi),
        0 <= lo < hi <= bytes.len(),
    ensures
        ({
            let k = floor_boundary(bytes, hi - 1);
            &&& lo <= k < hi
            &&& is_boundary(bytes, k)
            &&& k + width_at(bytes, k) == hi
            &&& last_char_end(bytes, lo, hi, ws) == if char_is_whitespace(char_at(bytes, k))
                == ws {
                hi
            } else {
                last_char_end(bytes, lo, k, ws)
            }
        }),
{
    lemma_floor_boundary(bytes, hi - 1);
    let k = floor_boundary(bytes, hi - 1);
    lemma_last_char_skip(bytes, lo, k, hi, ws);
    lemma_char_width(bytes, k);
}

/// `last_char_end` stays within its window and lands on a boundary.
pub proof fn lemma_last_char_end(bytes: Seq<u8>, lo: int, hi: int, ws: bool)
    requires
        valid_utf8(bytes),
        is_boundary(bytes, lo),
        is_boundary(bytes, hi),
        0 <= lo <= hi <= bytes.len(),
    ensures
        lo <= last_char_end(bytes, lo, hi, ws) <= hi,
        is_boundary(bytes, last_char_end(bytes, lo, hi, ws)),
    decreases hi,
{
    if hi > lo {
        lemma_last_char_step(bytes, lo, hi, ws);
        let k = floor_boundary(bytes, hi - 1);
        if char_is_whitespace(char_at(bytes, k)) != ws {
            lemma_last_char_end(bytes, lo, k, ws);
        }
    }
}

/// Below a boundary, a prefix that ends there has the same last characters
/// as the whole string.
pub proof fn lemma_last_char_prefix(bytes: Seq<u8>, end: int, e: int, ws: bool)
    requires
        valid_utf8(bytes),
        is_boundary(bytes, end),
        0 <= end <= bytes.len(),
        0 <= e <= end,
    ensures
        last_char_end(bytes.subrange(0, end), 0, e, ws) == last_char_end(bytes, 0, e, ws),
    decreases e,
{
    if e > 0 {
        let k = e - 1;
        if is_boundary(bytes, k) {
            lemma_prefix_chars(bytes, end, k);
        }
        lemma_last_char_prefix(bytes, end, k, ws);
    }
}

/// Positions inside a character do not count for `first_char_start`.
pub proof fn lemma_first_char_skip(bytes: Seq<u8>, lo: int, next: int, hi: int, ws: bool)
    requires
        lo <= next <= hi,
        forall|q: int| lo <= q < next ==> !is_boundary(bytes, q),
    ensures
        first_char_start(bytes, lo, hi, ws) == first_char_start(bytes, next, hi, ws),
    decreases next - lo,
{
    if lo < next {
        lemma_first_char_skip(bytes, lo + 1, next, hi, ws);
    }
}

/// `first_char_start`, one character at a time.
pub proof fn lemma_first_char_step(bytes: Seq<u8>, lo: int, hi: int, ws: bool)
    requires
        valid_utf8(bytes),
        is_boundary(bytes, lo),
        is_boundary(bytes, hi),
        0 <= lo < hi <= bytes.len(),
    ensures
        lo + width_at(bytes, lo) <= hi,
        first_char_start(bytes, lo, hi, ws) == if char_is_whitespace(char_at(bytes, lo)) == ws {
            lo
        } else {
            first_char_start(bytes, lo + width_at(bytes, lo), hi, ws)
        },
{
    lemma_char_width(bytes, lo);
    let next = lo + width_at(bytes, lo);
    lemma_first_char_skip(bytes, lo + 1, next, hi, ws);
}

/// `first_char_start` stays within its window and lands on a boundary.
pub proof fn lemma_first_char_start(bytes: Seq<u8>, lo: int, hi: int, ws: bool)
    requires
        valid_utf8(bytes),
        is_boundary(bytes, lo),
        is_boundary(bytes, hi),
        0 <= lo <= hi <= bytes.len(),
    ensures
        lo <= first_char_start(bytes, lo, hi, ws) <= hi,
        is_boundary(bytes, first_char_start(bytes, lo, hi, ws)),
    decreases hi - lo,
{
    if lo < hi {
        lemma_first_char_step(bytes, lo, hi, ws);
        if char_is_whitespace(char_at(bytes, lo)) != ws {
            lemma_char_width(bytes, lo);
            lemma_first_char_start(bytes, lo + width_at(bytes, lo), hi, ws);
        }
    }
}

/// The number of bytes of `s`.
pub fn byte_len(s: &str) -> (n: usize)
    ensures
        n == s.spec_bytes().len(),
{
    s.as_bytes().len()
}

/// Cuts `s` at boundary `k`.
pub fn cut_at<'a>(s: &'a str, k: usize) -> (r: (&'a str, &'a str))
    requires
        is_boundary(s.spec_bytes(), k as int),
        k <= s.spec_bytes().len(),
    ensures
        r.0.spec_bytes() == s.spec_bytes().subrange(0, k as int),
        r.1.spec_bytes() == tail(s.spec_bytes(), k as int),
{
    proof {
        lemma_boundary(s.spec_bytes(), k as int);
    }
    s.split_at(k)
}

/// Whether the character that starts at boundary `k` of `s` is whitespace.
pub fn is_whitespace_at(s: &str, k: usize) -> (r: bool)
    requires
        is_boundary(s.spec_bytes(), k as int),
        k < s.spec_bytes().len(),
    ensures
        r == char_is_whitespace(char_at(s.spec_bytes(), k as int)),
{
    let (_, rest) = cut_at(s, k);
    proof {
        let t = rest.spec_bytes();
        assert(decode_utf8(t) == rest@);
    }
    let c = rest.get_char(0);
    c.is_whitespace()
}

/// The greatest boundary of `s` that is at most `budget`.
pub fn boundary_at_most(s: &str, budget: usize) -> (k: usize)
    requires
        budget <= s.spec_bytes().len(),
    ensures
        k == floor_boundary(s.spec_bytes(), budget as int),
        k <= budget,
        is_boundary(s.spec_bytes(), k as int),
{
    let mut k = budget;
    proof {
        lemma_floor_boundary(s.spec_bytes(), budget as int);
    }
    while !s.is_char_boundary(k)
        invariant
            k <= budget <= s.spec_bytes().len(),
            floor_boundary(s.spec_bytes(), k as int) == floor_boundary(
                s.spec_bytes(),
                budget as int,
            ),
        decreases k,
    {
        proof {
            lemma_boundary(s.spec_bytes(), k as int);
        }
        k -= 1;
    }
    proof {
        lemma_boundary(s.spec_bytes(), k as int);
        lemma_floor_boundary(s.spec_bytes(), k as int);
    }
    k
}

/// The number of bytes of the character that starts at boundary `k` of `s`.
pub fn char_width(s: &str, k: usize) -> (w: usize)
    requires
        is_boundary(s.spec_bytes(), k as int),
        k < s.spec_bytes().len(),
    ensures
        w == width_at(s.spec_bytes(), k as int),
        1 <= w <= 4,
        k + w <= s.spec_bytes().len(),
        is_boundary(s.spec_bytes(), k + w),
{
    proof {
        lemma_char_width(s.spec_bytes(), k as int);
    }
    let b = s.as_bytes()[k];
    if b <= 0x7f {
        1
    } else if 0xc0 <= b && b <= 0xdf {
        2
    } else if 0xe0 <= b && b <= 0xef {
        3
    } else {
        4
    }
}

/// The first character of `s` in `lo..hi` that is whitespace (`ws`) or is not.
pub fn first_char(s: &str, lo: usize, hi: usize, ws: bool) -> (k: usize)
    requires
        is_boundary(s.spec_bytes(), lo as int),
        is_boundary(s.spec_bytes(), hi as int),
        lo <= hi <= s.spec_bytes().len(),
    ensures
        k == first_char_start(s.spec_bytes(), lo as int, hi as int, ws),
        lo <= k <= hi,
        is_boundary(s.spec_bytes(), k as int),
{
    let mut k = lo;
    proof {
        lemma_first_char_start(s.spec_bytes(), lo as int, hi as int, ws);
    }
    while k < hi
        invariant
            lo <= k <= hi <= s.spec_bytes().len(),
            is_boundary(s.spec_bytes(), k as int),
            is_boundary(s.spec_bytes(), hi as int),
            first_char_start(s.spec_bytes(), k as int, hi as int, ws) == first_char_start(
                s.spec_bytes(),
                lo as int,
                hi as int,
                ws,
            ),
        decreases hi - k,
    {
        proof {
            lemma_first_char_step(s.spec_bytes(), k as int, hi as int, ws);
        }
        if is_whitespace_at(s, k) == ws {
            return k;
        }
        let w = char_width(s, k);
        k = k + w;
    }
    k
}

/// The end of the last character of `s` in `lo..hi` that is whitespace (`ws`)
/// or is not.
pub fn last_char(s: &str, lo: usize, hi: usize, ws: bool) -> (e: usize)
    requires
        is_boundary(s.spec_bytes(), lo as int),
        is_boundary(s.spec_bytes(), hi as int),
        lo <= hi <= s.spec_bytes().len(),
    ensures
        e == last_char_end(s.spec_bytes(), lo as int, hi as int, ws),
        lo <= e <= hi,
        is_boundary(s.spec_bytes(), e as int),
{
    let mut e = hi;
    proof {
        lemma_last_char_end(s.spec_bytes(), lo as int, hi as int, ws);
    }
    while e > lo
        invariant
            lo <= e <= hi <= s.spec_bytes().len(),
            is_boundary(s.spec_bytes(), lo as int),
            is_boundary(s.spec_bytes(), e as int),
            last_char_end(s.spec_bytes(), lo as int, e as int, ws) == last_char_end(
                s.spec_bytes(),
                lo as int,
                hi as int,
                ws,
            ),
        decreases e,
    {
        proof {
            lemma_last_char_step(s.spec_bytes(), lo as int, e as int, ws);
        }
        let k = boundary_at_most(s, e - 1);
        if is_whitespace_at(s, k) == ws {
            return e;
        }
        e = k;
    }
    e
}

/// Skips the run of `byte` (an ASCII byte) at the start of `lo..hi`.
pub fn skip_leading(s: &str, lo: usize, hi: usize, byte: u8) -> (k: usize)
    requires
        is_boundary(s.spec_bytes(), lo as int),
        lo <= hi <= s.spec_bytes().len(),
        byte <= 0x7f,
    ensures
        k == skip_byte(s.spec_bytes(), lo as int, hi as int, byte),
        lo <= k <= hi,
        is_boundary(s.spec_bytes(), k as int),
{
    let bytes = s.as_bytes();
    let mut k = lo;
    while k < hi && bytes[k] == byte
        invariant
            bytes@ == s.spec_bytes(),
            lo <= k <= hi <= s.spec_bytes().len(),
            is_boundary(s.spec_bytes(), k as int),
            byte <= 0x7f,
            skip_byte(s.spec_bytes(), k as int, hi as int, byte) == skip_byte(
                s.spec_bytes(),
                lo as int,
                hi as int,
                byte,
            ),
        decreases hi - k,
    {
        proof {
            lemma_char_width(s.spec_bytes(), k as int);
        }
        k += 1;
    }
    k
}

/// Drops the run of `byte` (an ASCII byte) at the end of `lo..hi`.
pub fn skip_trailing(s: &str, lo: usize, hi: usize, byte: u8) -> (k: usize)
    requires
        is_boundary(s.spec_bytes(), hi as int),
        lo <= hi <= s.spec_bytes().len(),
        byte <= 0x7f,
    ensures
        k == skip_byte_back(s.spec_bytes(), lo as int, hi as int, byte),
        lo <= k <= hi,
        is_boundary(s.spec_bytes(), k as int),
{
    let bytes = s.as_bytes();
    let mut k = hi;
    while lo < k && bytes[k - 1] == byte
        invariant
            bytes@ == s.spec_bytes(),
            lo <= k <= hi <= s.spec_bytes().len(),
            is_boundary(s.spec_bytes(), k as int),
            byte <= 0x7f,
            skip_byte_back(s.spec_bytes(), lo as int, k as int, byte) == skip_byte_back(
                s.spec_bytes(),
                lo as int,
                hi as int,
                byte,
            ),
        decreases k,
    {
        k -= 1;
    }
    k
}

/// Whether `a` and `b` hold the same bytes.
pub fn str_eq(a: &str, b: &str) -> (r: bool)
    ensures
        r == (a.spec_bytes() == b.spec_bytes()),
{
    let x = a.as_bytes();
    let y = b.as_bytes();
    if x.len() != y.len() {
        return false;
    }
    let mut i: usize = 0;
    while i < x.len()
        invariant
            x@ == a.spec_bytes(),
            y@ == b.spec_bytes(),
            x.len() == y.len(),
            i <= x.len(),
            forall|j: int| 0 <= j < i ==> x@[j] == y@[j],
        decreases x.len() - i,
    {
        if x[i] != y[i] {
            return false;
        }
        i += 1;
    }
    assert(x@ =~= y@);
    true
}

} // verus!
