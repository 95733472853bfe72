//! Unsigned decimal numbers as ASCII bytes.

use vstd::prelude::*;
use vstd::string::*;
use vstd::utf8::*;
use crate::encoding::{lemma_single_ascii, push_str};

verus! {

/// `b` is an ASCII decimal digit.
pub open spec fn is_digit(b: u8) -> bool {
    0x30 <= b <= 0x39
}

/// `s` holds decimal digits and nothing else.
pub open spec fn all_digits(s: Seq<u8>) -> bool {
    forall|i: int| 0 <= i < s.len() ==> is_digit(#[trigger] s[i])
}

/// The number that a run of decimal digits writes.
pub open spec fn digits_value(s: Seq<u8>) -> nat
    decreases s.len(),
{
    if s.len() == 0 {
        0
    } else {
        digits_value(s.drop_last()) * 10 + (s.last() - 0x30) as nat
    }
}

/// `s` without the one `+` that may stand before the digits.
pub open spec fn unsigned_part(s: Seq<u8>) -> Seq<u8> {
    if s.len() > 0 && s[0] == 0x2b {
        s.skip(1)
    } else {
        s
    }
}

/// The `u32` that `s` writes: an optional `+`, then one or more decimal
/// digits whose value fits. Anything else is no number.
pub open spec fn parse_u32_spec(s: Seq<u8>) -> Option<u32> {
    let d = unsigned_part(s);
    if d.len() > 0 && all_digits(d) && digits_value(d) <= u32::MAX {
        Some(digits_value(d) as u32)
    } else {
        None
    }
}

/// The shortest decimal writing of `n`.
pub open spec fn decimal_digits(n: nat) -> Seq<u8>
    decreases n,
{
    if n < 10 {
        seq![(0x30 + n) as u8]
    } else {
        decimal_digits(n / 10).push((0x30 + n % 10) as u8)
    }
}

/// More digits never write a smaller number.
pub proof fn lemma_value_grows(s: Seq<u8>, k: int)
    requires
        all_digits(s),
        0 <= k <= s.len(),
    ensures
        digits_value(s.take(k)) <= digits_value(s),
    decreases s.len() - k,
{
    if k == s.len() {
        assert(s.take(k) =~= s);
    } else {
        lemma_value_grows(s, k + 1);
        assert(s.take(k + 1).drop_last() =~= s.take(k));
        assert(is_digit(s[k]));
    }
}

/// What `decimal_digits` writes, `parse_u32_spec` reads back.
pub proof fn lemma_decimal_round_trip(n: nat)
    ensures
        decimal_digits(n).len() > 0,
        all_digits(decimal_digits(n)),
        digits_value(decimal_digits(n)) == n,
        n <= u32::MAX ==> parse_u32_spec(decimal_digits(n)) == Some(n as u32),
    decreases n,
{
    let d = decimal_digits(n);
    if n < 10 {
        assert(d.drop_last() =~= Seq::<u8>::empty());
        assert(digits_value(d.drop_last()) == 0);
    } else {
        lemma_decimal_round_trip(n / 10);
        assert(d.drop_last() =~= decimal_digits(n / 10));
        assert(d.last() == (0x30 + n % 10) as u8);
    }
    assert(is_digit(d[0]));
}

/// Reads `bytes[lo..hi]` as a `u32`.
pub fn parse_u32(bytes: &[u8], lo: usize, hi: usize) -> (r: Option<u32>)
    requires
        lo <= hi <= bytes.len(),
    ensures
        r == parse_u32_spec(bytes@.subrange(lo as int, hi as int)),
{
    let ghost whole = bytes@.subrange(lo as int, hi as int);
    let mut i: usize = lo;
    if i < hi && bytes[i] == 0x2b {
        i = i + 1;
    }
    let start: usize = i;
    let ghost d = bytes@.subrange(start as int, hi as int);
    assert(d =~= unsigned_part(whole));
    if i >= hi {
        return None;
    }
    let mut acc: u64 = 0;
    while i < hi
        invariant
            lo <= start <= i <= hi <= bytes.len(),
            d == bytes@.subrange(start as int, hi as int),
            d == unsigned_part(bytes@.subrange(lo as int, hi as int)),
            all_digits(d.take(i - start)),
            acc == digits_value(d.take(i - start)),
            acc <= u32::MAX,
        decreases hi - i,
    {
        let b: u8 = bytes[i];
        assert(d[i - start] == b);
        if b < 0x30 || b > 0x39 {
            return None;
        }
        let next: u64 = acc * 10 + (b - 0x30) as u64;
        proof {
            assert(d.take(i + 1 - start).drop_last() =~= d.take(i - start));
            assert(d.take(i + 1 - start).last() == b);
            assert forall|k: int| 0 <= k < i + 1 - start implies is_digit(
                #[trigger] d.take(i + 1 - start)[k],
            ) by {
                if k < i - start {
                    assert(d.take(i - start)[k] == d.take(i + 1 - start)[k]);
                }
            }
        }
        if next > 0xffff_ffff {
            proof {
                if all_digits(d) {
                    lemma_value_grows(d, i + 1 - start);
                }
            }
            return None;
        }
        acc = next;
        i = i + 1;
    }
    assert(d.take(i - start) =~= d);
    Some(acc as u32)
}

/// Appends the digit `d`.
fn push_digit(out: &mut String, d: u8)
    requires
        d < 10,
    ensures
        encode_utf8(final(out)@) == encode_utf8(old(out)@).push((0x30 + d) as u8),
{
    let piece: &str = if d == 0 {
        proof {
            reveal_strlit("0");
            lemma_single_ascii("0"@, '0');
        }
        "0"
    } else if d == 1 {
        proof {
            reveal_strlit("1");
            lemma_single_ascii("1"@, '1');
        }
        "1"
    } else if d == 2 {
        proof {
            reveal_strlit("2");
            lemma_single_ascii("2"@, '2');
        }
        "2"
    } else if d == 3 {
        proof {
            reveal_strlit("3");
            lemma_single_ascii("3"@, '3');
        }
        "3"
    } else if d == 4 {
        proof {
            reveal_strlit("4");
            lemma_single_ascii("4"@, '4');
        }
        "4"
    } else if d == 5 {
        proof {
            reveal_strlit("5");
            lemma_single_ascii("5"@, '5');
        }
        "5"
    } else if d == 6 {
        proof {
            reveal_strlit("6");
            lemma_single_ascii("6"@, '6');
        }
        "6"
    } else if d == 7 {
        proof {
            reveal_strlit("7");
            lemma_single_ascii("7"@, '7');
        }
        "7"
    } else if d == 8 {
        proof {
            reveal_strlit("8");
            lemma_single_ascii("8"@, '8');
        }
        "8"
    } else {
        proof {
            reveal_strlit("9");
            lemma_single_ascii("9"@, '9');
        }
        "9"
    };
    assert(piece.spec_bytes() == seq![(0x30 + d) as u8]);
    push_str(out, piece);
    assert(encode_utf8(out@) =~= encode_utf8(old(out)@).push((0x30 + d) as u8));
}

/// Appends `n` in decimal.
pub fn push_decimal(out: &mut String, n: u32)
    ensures
        encode_utf8(final(out)@) == encode_utf8(old(out)@) + decimal_digits(n as nat),
    decreases n,
{
    if n >= 10 {
        push_decimal(out, n / 10);
        push_digit(out, (n % 10) as u8);
        assert(encode_utf8(out@) =~= encode_utf8(old(out)@) + decimal_digits(n as nat));
    } else {
        push_digit(out, n as u8);
        assert(encode_utf8(out@) =~= encode_utf8(old(out)@) + decimal_digits(n as nat));
    }
}

} // verus!
