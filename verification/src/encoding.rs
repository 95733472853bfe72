//! UTF-8 text seen as bytes: code point boundaries, UTF-16 widths, and the
//! few string operations the rest of the library is built from.

use vstd::prelude::*;
use vstd::string::*;
use vstd::utf8::*;

verus! {

/// `i` is the end of `bytes` or the place where a code point starts.
pub open spec fn is_boundary(bytes: Seq<u8>, i: int) -> bool {
    0 <= i <= bytes.len() && (i == bytes.len() || !is_continuation_byte(bytes[i]))
}

/// Number of bytes in the encoding that `lead` opens.
pub open spec fn lead_len(lead: u8) -> int {
    if lead < 0x80 {
        1
    } else if lead < 0xe0 {
        2
    } else if lead < 0xf0 {
        3
    } else {
        4
    }
}

/// UTF-16 code units that the byte `b` accounts for: none for a continuation
/// byte, two for the lead byte of a four-byte encoding (a surrogate pair),
/// one for any other lead byte.
pub open spec fn unit_width(b: u8) -> nat {
    if is_continuation_byte(b) {
        0
    } else if b >= 0xf0 {
        2
    } else {
        1
    }
}

/// UTF-16 length of the code points that start in `bytes[lo..hi]`.
pub open spec fn utf16_units(bytes: Seq<u8>, lo: int, hi: int) -> nat
    decreases hi - lo,
{
    if hi <= lo {
        0
    } else {
        utf16_units(bytes, lo, hi - 1) + unit_width(bytes[hi - 1])
    }
}

/// UTF-16 code units that write the code point `c`: two for a code point
/// beyond U+FFFF, one for any other.
pub open spec fn char_units(c: char) -> nat {
    if c as u32 >= 0x10000 {
        2
    } else {
        1
    }
}

/// UTF-16 length of a sequence of code points.
pub open spec fn utf16_len(chars: Seq<char>) -> nat
    decreases chars.len(),
{
    if chars.len() == 0 {
        0
    } else {
        char_units(chars[0]) + utf16_len(chars.drop_first())
    }
}

/// The text of an optional string.
pub open spec fn text_of(value: Option<String>) -> Option<Seq<char>> {
    match value {
        Some(s) => Some(s@),
        None => None,
    }
}

/// In valid UTF-8 the boundaries of this module are those of `vstd`.
pub proof fn lemma_boundary_is_char_boundary(bytes: Seq<u8>, i: int)
    requires
        valid_utf8(bytes),
        is_boundary(bytes, i),
    ensures
        is_char_boundary(bytes, i),
{
    if i == bytes.len() {
        is_char_boundary_start_end_of_seq(bytes);
    } else {
        is_char_boundary_iff_not_is_continuation_byte(bytes, i);
    }
}

/// In valid UTF-8 a code point that starts at `i` ends at a boundary, and
/// everything between is continuation bytes.
pub proof fn lemma_next_boundary(bytes: Seq<u8>, i: int)
    requires
        valid_utf8(bytes),
        0 <= i < bytes.len(),
        !is_continuation_byte(bytes[i]),
    ensures
        bytes[i] < 0x80 || 0xc0 <= bytes[i] <= 0xf7,
        i + lead_len(bytes[i]) <= bytes.len(),
        is_boundary(bytes, i + lead_len(bytes[i])),
        forall|j: int| i < j < i + lead_len(bytes[i]) ==> is_continuation_byte(#[trigger] bytes[j]),
{
    is_char_boundary_iff_not_is_continuation_byte(bytes, i);
    valid_utf8_split(bytes, i);
    let tail = bytes.subrange(i, bytes.len() as int);
    assert(valid_utf8(tail));
    assert(tail[0] == bytes[i]);
    assert(valid_first_scalar(tail) && valid_utf8(pop_first_scalar(tail)));
    let n = length_of_first_scalar(tail);
    assert(n == lead_len(bytes[i]));
    let rest = pop_first_scalar(tail);
    if rest.len() > 0 {
        assert(valid_first_scalar(rest));
        assert(rest[0] == bytes[i + n]);
    }
    assert forall|j: int| i < j < i + n implies is_continuation_byte(#[trigger] bytes[j]) by {
        assert(bytes[j] == tail[j - i]);
    }
}

/// A byte below 0x80 is a code point of its own.
pub proof fn lemma_ascii_boundaries(bytes: Seq<u8>, i: int)
    requires
        valid_utf8(bytes),
        0 <= i < bytes.len(),
        bytes[i] < 0x80,
    ensures
        is_boundary(bytes, i),
        is_boundary(bytes, i + 1),
{
    lemma_next_boundary(bytes, i);
}

/// The units of a stretch are those of its two parts together.
pub proof fn lemma_units_split(bytes: Seq<u8>, lo: int, mid: int, hi: int)
    requires
        lo <= mid <= hi,
    ensures
        utf16_units(bytes, lo, hi) == utf16_units(bytes, lo, mid) + utf16_units(bytes, mid, hi),
    decreases hi - mid,
{
    if mid < hi {
        lemma_units_split(bytes, lo, mid, hi - 1);
    }
}

/// The units of a stretch of bytes do not depend on where in a text the
/// stretch stands.
pub proof fn lemma_units_shift(a: Seq<u8>, b: Seq<u8>, lo: int, hi: int, shift: int)
    requires
        0 <= lo <= hi <= b.len(),
        0 <= shift,
        shift + b.len() <= a.len(),
        forall|j: int| 0 <= j < b.len() ==> a[shift + j] == b[j],
    ensures
        utf16_units(a, shift + lo, shift + hi) == utf16_units(b, lo, hi),
    decreases hi - lo,
{
    if lo < hi {
        lemma_units_shift(a, b, lo, hi - 1, shift);
    }
}

proof fn lemma_units_of_one(bytes: Seq<u8>, lo: int, hi: int)
    requires
        0 <= lo < hi <= bytes.len(),
        forall|j: int| lo < j < hi ==> is_continuation_byte(#[trigger] bytes[j]),
    ensures
        utf16_units(bytes, lo, hi) == unit_width(bytes[lo]),
    decreases hi - lo,
{
    if lo + 1 < hi {
        lemma_units_of_one(bytes, lo, hi - 1);
    } else {
        assert(utf16_units(bytes, lo, lo) == 0);
    }
}

/// Counted on the bytes of a text, the UTF-16 units are those of its code
/// points.
pub proof fn lemma_units_of_text(chars: Seq<char>)
    ensures
        utf16_units(encode_utf8(chars), 0, encode_utf8(chars).len() as int) == utf16_len(chars),
    decreases chars.len(),
{
    let bytes = encode_utf8(chars);
    if chars.len() > 0 {
        let head = encode_scalar(chars[0] as u32);
        let tail = encode_utf8(chars.drop_first());
        let n = head.len() as int;
        assert(bytes == head + tail);
        encode_utf8_first_scalar(chars);
        char_is_scalar(chars[0]);
        assert(n == length_of_first_scalar(bytes));
        assert(forall|j: int| 0 < j < n ==> is_continuation_byte(#[trigger] bytes[j]));
        lemma_units_of_one(bytes, 0, n);
        lemma_units_split(bytes, 0, n, bytes.len() as int);
        assert forall|j: int| 0 <= j < tail.len() implies bytes[n + j] == tail[j] by {}
        lemma_units_shift(bytes, tail, 0, tail.len() as int, n);
        lemma_units_of_text(chars.drop_first());
    } else {
        assert(utf16_units(bytes, 0, 0) == 0);
    }
}

/// Encoding distributes over concatenation.
pub proof fn lemma_encode_concat(a: Seq<char>, b: Seq<char>)
    ensures
        encode_utf8(a + b) == encode_utf8(a) + encode_utf8(b),
    decreases a.len(),
{
    if a.len() == 0 {
        assert(a + b =~= b);
        assert(encode_utf8(a) + encode_utf8(b) =~= encode_utf8(b));
    } else {
        lemma_encode_concat(a.drop_first(), b);
        assert((a + b).drop_first() =~= a.drop_first() + b);
        assert((a + b)[0] == a[0]);
        assert(encode_utf8(a + b) =~= encode_utf8(a) + encode_utf8(b));
    }
}

/// Text is determined by its bytes.
pub proof fn lemma_encode_injective(a: Seq<char>, b: Seq<char>)
    requires
        encode_utf8(a) == encode_utf8(b),
    ensures
        a == b,
{
    encode_utf8_decode_utf8(a);
    encode_utf8_decode_utf8(b);
}

/// The bytes of ASCII text are its characters, one for one.
pub proof fn lemma_encode_ascii(chars: Seq<char>)
    requires
        is_ascii_chars(chars),
    ensures
        encode_utf8(chars).len() == chars.len(),
        forall|i: int| 0 <= i < chars.len() ==> #[trigger] encode_utf8(chars)[i] == chars[i] as u8,
{
    is_ascii_chars_encode_utf8(chars);
}

/// A text of one ASCII character is one byte.
pub proof fn lemma_single_ascii(s: Seq<char>, c: char)
    requires
        s =~= seq![c],
        c as u32 <= 0x7f,
    ensures
        encode_utf8(s) == seq![c as u8],
{
    assert(is_ascii_chars(s));
    lemma_encode_ascii(s);
    assert(encode_utf8(s) =~= seq![c as u8]);
}

/// Text never has more code points than bytes.
pub proof fn lemma_chars_le_bytes(chars: Seq<char>)
    ensures
        chars.len() <= encode_utf8(chars).len(),
    decreases chars.len(),
{
    if chars.len() > 0 {
        lemma_chars_le_bytes(chars.drop_first());
    }
}

/// The part of `text` between two boundaries.
pub fn slice_str<'a>(text: &'a str, lo: usize, hi: usize) -> (part: &'a str)
    requires
        lo <= hi <= text.spec_bytes().len(),
        is_boundary(text.spec_bytes(), lo as int),
        is_boundary(text.spec_bytes(), hi as int),
    ensures
        part.spec_bytes() == text.spec_bytes().subrange(lo as int, hi as int),
{
    proof {
        encode_utf8_valid_utf8(text@);
        lemma_boundary_is_char_boundary(text.spec_bytes(), hi as int);
    }
    let (head, _) = text.split_at(hi);
    proof {
        encode_utf8_valid_utf8(head@);
        assert(is_boundary(head.spec_bytes(), lo as int));
        lemma_boundary_is_char_boundary(head.spec_bytes(), lo as int);
    }
    let (_, part) = head.split_at(lo);
    assert(part.spec_bytes() =~= text.spec_bytes().subrange(lo as int, hi as int));
    part
}

/// Whether two byte ranges hold the same bytes.
pub fn bytes_equal(a: &[u8], b: &[u8]) -> (same: bool)
    ensures
        same == (a@ == b@),
{
    if a.len() != b.len() {
        return false;
    }
    let mut i: usize = 0;
    while i < a.len()
        invariant
            i <= a.len(),
            a.len() == b.len(),
            forall|k: int| 0 <= k < i ==> a@[k] == b@[k],
        decreases a.len() - i,
    {
        if a[i] != b[i] {
            return false;
        }
        i = i + 1;
    }
    assert(a@ =~= b@);
    true
}

/// Whether two texts are the same.
pub fn str_equal(a: &str, b: &str) -> (same: bool)
    ensures
        same == (a@ == b@),
{
    let same = bytes_equal(a.as_bytes(), b.as_bytes());
    proof {
        if same {
            lemma_encode_injective(a@, b@);
        }
    }
    same
}

/// Appends `piece` to `out`.
pub fn push_str(out: &mut String, piece: &str)
    ensures
        final(out)@ == old(out)@ + piece@,
        encode_utf8(final(out)@) == encode_utf8(old(out)@) + piece.spec_bytes(),
{
    proof {
        lemma_encode_concat(out@, piece@);
    }
    out.append(piece);
}

} // verus!
