//! Trimming of Unicode white space, done on the UTF-8 bytes.
//!
//! The white space code points are U+0009 to U+000D, U+0020, U+0085, U+00A0,
//! U+1680, U+2000 to U+200A, U+2028, U+2029, U+202F, U+205F and U+3000.

use vstd::prelude::*;
use vstd::utf8::*;
use crate::encoding::{is_boundary, lemma_next_boundary};

verus! {

/// A white space code point of one byte.
pub open spec fn is_narrow_space(a: u8) -> bool {
    0x09 <= a <= 0x0d || a == 0x20
}

/// The encoding of U+0085 or U+00A0.
pub open spec fn is_latin_space(a: u8, b: u8) -> bool {
    a == 0xc2 && (b == 0x85 || b == 0xa0)
}

/// The encoding of a white space code point of three bytes.
pub open spec fn is_wide_space(a: u8, b: u8, c: u8) -> bool {
    ||| (a == 0xe1 && b == 0x9a && c == 0x80)
    ||| (a == 0xe2 && b == 0x80 && (0x80 <= c <= 0x8a || c == 0xa8 || c == 0xa9 || c == 0xaf))
    ||| (a == 0xe2 && b == 0x81 && c == 0x9f)
    ||| (a == 0xe3 && b == 0x80 && c == 0x80)
}

/// The code point `c` is white space.
pub open spec fn is_white_space(c: u32) -> bool {
    ||| 0x09 <= c <= 0x0d
    ||| c == 0x20
    ||| c == 0x85
    ||| c == 0xa0
    ||| c == 0x1680
    ||| 0x2000 <= c <= 0x200a
    ||| c == 0x2028
    ||| c == 0x2029
    ||| c == 0x202f
    ||| c == 0x205f
    ||| c == 0x3000
}

/// Length of the white space code point that `s` begins with, 0 if it
/// begins with none.
pub open spec fn space_prefix(s: Seq<u8>) -> int {
    if s.len() >= 1 && is_narrow_space(s[0]) {
        1
    } else if s.len() >= 2 && is_latin_space(s[0], s[1]) {
        2
    } else if s.len() >= 3 && is_wide_space(s[0], s[1], s[2]) {
        3
    } else {
        0
    }
}

/// Length of the white space code point that `s` ends with, 0 if it ends
/// with none.
pub open spec fn space_suffix(s: Seq<u8>) -> int {
    let n = s.len() as int;
    if n >= 1 && is_narrow_space(s[n - 1]) {
        1
    } else if n >= 2 && is_latin_space(s[n - 2], s[n - 1]) {
        2
    } else if n >= 3 && is_wide_space(s[n - 3], s[n - 2], s[n - 1]) {
        3
    } else {
        0
    }
}

/// Number of bytes of white space that `s` begins with.
pub open spec fn leading_space(s: Seq<u8>) -> int
    decreases s.len(),
{
    let w = space_prefix(s);
    if w == 0 {
        0
    } else {
        w + leading_space(s.skip(w))
    }
}

/// Number of bytes of white space that `s` ends with.
pub open spec fn trailing_space(s: Seq<u8>) -> int
    decreases s.len(),
{
    let w = space_suffix(s);
    if w == 0 {
        0
    } else {
        w + trailing_space(s.take(s.len() - w))
    }
}

/// `s` without the white space around it.
pub open spec fn trimmed(s: Seq<u8>) -> Seq<u8> {
    let rest = s.skip(leading_space(s));
    rest.take(rest.len() - trailing_space(rest))
}

/// Text that neither begins nor ends with white space is its own trimming.
pub proof fn lemma_trimmed_identity(s: Seq<u8>)
    requires
        space_prefix(s) == 0,
        space_suffix(s) == 0,
    ensures
        trimmed(s) == s,
{
    assert(s.skip(0) =~= s);
    assert(s.take(s.len() as int) =~= s);
}

/// Length of the white space code point at `i` in `bytes[..hi]`, 0 if none
/// stands there.
pub fn space_width_at(bytes: &[u8], i: usize, hi: usize) -> (w: usize)
    requires
        i <= hi <= bytes.len(),
    ensures
        w == space_prefix(bytes@.subrange(i as int, hi as int)),
        i + w <= hi,
{
    let n: usize = hi - i;
    if n >= 1 && ((0x09 <= bytes[i] && bytes[i] <= 0x0d) || bytes[i] == 0x20) {
        1
    } else if n >= 2 && bytes[i] == 0xc2 && (bytes[i + 1] == 0x85 || bytes[i + 1] == 0xa0) {
        2
    } else if n >= 3 && wide_space(bytes[i], bytes[i + 1], bytes[i + 2]) {
        3
    } else {
        0
    }
}

fn space_width_before(bytes: &[u8], lo: usize, e: usize) -> (w: usize)
    requires
        lo <= e <= bytes.len(),
    ensures
        w == space_suffix(bytes@.subrange(lo as int, e as int)),
        lo + w <= e,
{
    let n: usize = e - lo;
    if n >= 1 && ((0x09 <= bytes[e - 1] && bytes[e - 1] <= 0x0d) || bytes[e - 1] == 0x20) {
        1
    } else if n >= 2 && bytes[e - 2] == 0xc2 && (bytes[e - 1] == 0x85 || bytes[e - 1] == 0xa0) {
        2
    } else if n >= 3 && wide_space(bytes[e - 3], bytes[e - 2], bytes[e - 1]) {
        3
    } else {
        0
    }
}

fn wide_space(a: u8, b: u8, c: u8) -> (r: bool)
    ensures
        r == is_wide_space(a, b, c),
{
    (a == 0xe1 && b == 0x9a && c == 0x80) || (a == 0xe2 && b == 0x80 && ((0x80 <= c && c <= 0x8a)
        || c == 0xa8 || c == 0xa9 || c == 0xaf)) || (a == 0xe2 && b == 0x81 && c == 0x9f) || (a
        == 0xe3 && b == 0x80 && c == 0x80)
}

/// Where `bytes[lo..hi]` begins once its leading white space is left out.
pub fn trim_start_at(bytes: &[u8], lo: usize, hi: usize) -> (s: usize)
    requires
        lo <= hi <= bytes.len(),
    ensures
        lo <= s <= hi,
        s == lo + leading_space(bytes@.subrange(lo as int, hi as int)),
        valid_utf8(bytes@) && is_boundary(bytes@, lo as int) ==> is_boundary(bytes@, s as int),
{
    let mut i: usize = lo;
    loop
        invariant
            lo <= i <= hi <= bytes.len(),
            (i - lo) + leading_space(bytes@.subrange(i as int, hi as int)) == leading_space(
                bytes@.subrange(lo as int, hi as int),
            ),
            valid_utf8(bytes@) && is_boundary(bytes@, lo as int) ==> is_boundary(bytes@, i as int),
        ensures
            space_prefix(bytes@.subrange(i as int, hi as int)) == 0,
        decreases hi - i,
    {
        let w: usize = space_width_at(bytes, i, hi);
        if w == 0 {
            break ;
        }
        proof {
            let rest = bytes@.subrange(i as int, hi as int);
            assert(rest.skip(w as int) =~= bytes@.subrange(i + w, hi as int));
            assert(rest[0] == bytes@[i as int]);
            if valid_utf8(bytes@) && is_boundary(bytes@, lo as int) {
                lemma_next_boundary(bytes@, i as int);
            }
        }
        i = i + w;
    }
    i
}

/// Where `bytes[lo..hi]` ends once its trailing white space is left out.
pub fn trim_end_at(bytes: &[u8], lo: usize, hi: usize) -> (e: usize)
    requires
        lo <= hi <= bytes.len(),
    ensures
        lo <= e <= hi,
        e == hi - trailing_space(bytes@.subrange(lo as int, hi as int)),
        is_boundary(bytes@, hi as int) ==> is_boundary(bytes@, e as int),
{
    let mut i: usize = hi;
    loop
        invariant
            lo <= i <= hi <= bytes.len(),
            (hi - i) + trailing_space(bytes@.subrange(lo as int, i as int)) == trailing_space(
                bytes@.subrange(lo as int, hi as int),
            ),
            is_boundary(bytes@, hi as int) ==> is_boundary(bytes@, i as int),
        ensures
            space_suffix(bytes@.subrange(lo as int, i as int)) == 0,
        decreases i - lo,
    {
        let w: usize = space_width_before(bytes, lo, i);
        if w == 0 {
            break ;
        }
        proof {
            let rest = bytes@.subrange(lo as int, i as int);
            assert(rest.take(rest.len() - w) =~= bytes@.subrange(lo as int, i - w));
            assert(rest[rest.len() - w] == bytes@[i - w]);
        }
        i = i - w;
    }
    i
}

/// The part of `bytes[lo..hi]` that is left when the white space around it
/// is taken away.
pub fn trim_range(bytes: &[u8], lo: usize, hi: usize) -> (r: (usize, usize))
    requires
        lo <= hi <= bytes.len(),
    ensures
        lo <= r.0 <= r.1 <= hi,
        r.0 == lo + leading_space(bytes@.subrange(lo as int, hi as int)),
        bytes@.subrange(r.0 as int, r.1 as int) == trimmed(bytes@.subrange(lo as int, hi as int)),
        valid_utf8(bytes@) && is_boundary(bytes@, lo as int) ==> is_boundary(bytes@, r.0 as int),
        is_boundary(bytes@, hi as int) ==> is_boundary(bytes@, r.1 as int),
{
    let s: usize = trim_start_at(bytes, lo, hi);
    let e: usize = trim_end_at(bytes, s, hi);
    proof {
        let whole = bytes@.subrange(lo as int, hi as int);
        let rest = whole.skip(leading_space(whole));
        assert(rest =~= bytes@.subrange(s as int, hi as int));
        assert(rest.take(rest.len() - trailing_space(rest)) =~= bytes@.subrange(s as int, e as int));
    }
    (s, e)
}

proof fn lemma_space_of_one_byte(c: u32)
    by (bit_vector)
    requires
        has_width_1_encoding(c),
    ensures
        ({
            let a = leading_byte_width_1(c);
            &&& a <= 0x7f
            &&& is_narrow_space(a) <==> is_white_space(c)
        }),
{
}

proof fn lemma_space_of_two_bytes(c: u32)
    by (bit_vector)
    requires
        has_width_2_encoding(c),
    ensures
        ({
            let a = leading_byte_width_2(c);
            let b = last_continuation_byte(c);
            &&& 0xc0 <= a <= 0xdf
            &&& is_latin_space(a, b) <==> is_white_space(c)
        }),
{
}

proof fn lemma_space_of_three_bytes(c: u32)
    by (bit_vector)
    requires
        has_width_3_encoding(c),
    ensures
        ({
            let a = leading_byte_width_3(c);
            let b = second_last_continuation_byte(c);
            let d = last_continuation_byte(c);
            &&& 0xe0 <= a <= 0xef
            &&& is_wide_space(a, b, d) <==> is_white_space(c)
        }),
{
}

proof fn lemma_space_of_four_bytes(c: u32)
    by (bit_vector)
    requires
        has_width_4_encoding(c),
    ensures
        leading_byte_width_4(c) >= 0xf0,
        !is_white_space(c),
{
}

/// Text begins with white space, as this module finds it on the bytes,
/// when and only when its first code point is white space; what follows
/// the code point does not matter.
pub proof fn lemma_space_prefix_of_scalar(c: u32, rest: Seq<u8>)
    requires
        is_scalar(c),
    ensures
        space_prefix(encode_scalar(c) + rest) == (if is_white_space(c) {
            encode_scalar(c).len() as int
        } else {
            0
        }),
{
    let head = encode_scalar(c);
    let text = head + rest;
    assert forall|j: int| 0 <= j < head.len() implies text[j] == head[j] by {}
    if has_width_1_encoding(c) {
        lemma_space_of_one_byte(c);
        assert(text[0] == head[0]);
    } else if has_width_2_encoding(c) {
        lemma_space_of_two_bytes(c);
        assert(text[0] == head[0] && text[1] == head[1]);
    } else if has_width_3_encoding(c) {
        lemma_space_of_three_bytes(c);
        assert(text[0] == head[0] && text[1] == head[1] && text[2] == head[2]);
    } else {
        lemma_space_of_four_bytes(c);
        assert(text[0] == head[0]);
    }
}

} // verus!
