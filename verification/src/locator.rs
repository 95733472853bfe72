//! Locators: the `path:line:column` references that an annotation holds.

use vstd::prelude::*;
use vstd::string::*;
use vstd::utf8::*;
use crate::decimal::{
    all_digits, decimal_digits, is_digit, lemma_decimal_round_trip, parse_u32, parse_u32_spec,
    push_decimal,
};
use crate::encoding::{is_boundary, lemma_ascii_boundaries, lemma_single_ascii, push_str, slice_str};
use crate::scanner::{find_byte, is_annotation, lemma_next_byte, next_byte, AnnotationSpan};
use crate::text_index::{is_line_table, offset_to_position, range_of, Range, MAX_TEXT_LEN};
use crate::whitespace::{
    leading_space, lemma_trimmed_identity, space_prefix, space_suffix, trim_range, trimmed,
};

verus! {

/// A reference to a place in a source file: a path, a line counted from 1
/// (0 for "no place"), and one or more columns counted from 1 (0 for "no
/// column").
#[derive(Clone, Debug)]
pub struct Locator {
    pub path: String,
    pub line: u32,
    pub columns: Vec<u32>,
}

/// What a locator says: the bytes of its path, its line and its columns.
pub struct LocatorModel {
    pub path: Seq<u8>,
    pub line: u32,
    pub columns: Seq<u32>,
}

impl View for Locator {
    type V = LocatorModel;

    open spec fn view(&self) -> LocatorModel {
        LocatorModel { path: encode_utf8(self.path@), line: self.line, columns: self.columns@ }
    }
}

/// A locator together with the place of its text in the document.
#[derive(Clone, Debug)]
pub struct ParsedToken {
    pub byte_start: usize,
    pub byte_end: usize,
    pub locator: Locator,
    pub range: Range,
}

/// A token of an annotation: where its text stands, counted from the start
/// of the annotation's content, and the locator that it writes.
pub struct TokenModel {
    pub start: int,
    pub end: int,
    pub locator: LocatorModel,
}

/// Brace depth behind a byte, given the depth before it; a `}` with no open
/// `{` leaves the depth at 0.
pub open spec fn depth_after(depth: nat, b: u8) -> nat {
    if b == 0x7b {
        depth + 1
    } else if b == 0x7d && depth > 0 {
        (depth - 1) as nat
    } else {
        depth
    }
}

/// Brace depth in front of the byte at `i`.
pub open spec fn brace_depth(s: Seq<u8>, i: int) -> nat
    decreases i,
{
    if i <= 0 {
        0
    } else {
        depth_after(brace_depth(s, i - 1), s[i - 1])
    }
}

/// A comma outside all braces stands at `i`.
pub open spec fn is_separator(s: Seq<u8>, i: int) -> bool {
    0 <= i < s.len() && s[i] == 0x2c && brace_depth(s, i) == 0
}

/// The pieces of `s` from `i` on, when the piece at hand began at `start`.
pub open spec fn pieces_from(s: Seq<u8>, i: int, start: int) -> Seq<(int, int)>
    decreases s.len() - i,
{
    if i >= s.len() {
        seq![(start, s.len() as int)]
    } else if is_separator(s, i) {
        seq![(start, i)] + pieces_from(s, i + 1, i + 1)
    } else {
        pieces_from(s, i + 1, start)
    }
}

/// The pieces that the commas outside braces part `s` into, each as the
/// offsets where it begins and ends.
pub open spec fn pieces_of(s: Seq<u8>) -> Seq<(int, int)> {
    pieces_from(s, 0, 0)
}

/// `found` are the offsets `pieces`, moved by `base`.
pub open spec fn same_pieces(found: Seq<(usize, usize)>, pieces: Seq<(int, int)>) -> bool {
    &&& found.len() == pieces.len()
    &&& forall|k: int|
        0 <= k < found.len() ==> (#[trigger] found[k]).0 == pieces[k].0 && found[k].1
            == pieces[k].1
}

/// Pieces begin at the start or behind a separator, end at a separator or
/// at the end, follow one another, and hold no separator.
pub proof fn lemma_pieces_from(s: Seq<u8>, i: int, start: int)
    requires
        0 <= start <= i <= s.len(),
        forall|j: int| start <= j < i ==> !is_separator(s, j),
    ensures
        pieces_from(s, i, start).len() >= 1,
        pieces_from(s, i, start)[0].0 == start,
        pieces_from(s, i, start).last().1 == s.len(),
        forall|k: int|
            0 <= k < pieces_from(s, i, start).len() ==> {
                let piece = #[trigger] pieces_from(s, i, start)[k];
                &&& start <= piece.0 <= piece.1 <= s.len()
                &&& forall|j: int| piece.0 <= j < piece.1 ==> !is_separator(s, j)
            },
        forall|k: int|
            0 <= k < pieces_from(s, i, start).len() - 1 ==> {
                &&& is_separator(s, (#[trigger] pieces_from(s, i, start)[k]).1)
                &&& pieces_from(s, i, start)[k + 1].0 == pieces_from(s, i, start)[k].1 + 1
            },
    decreases s.len() - i,
{
    let all = pieces_from(s, i, start);
    if i >= s.len() {
    } else if is_separator(s, i) {
        lemma_pieces_from(s, i + 1, i + 1);
        let rest = pieces_from(s, i + 1, i + 1);
        assert(all[0] == (start, i));
        assert forall|k: int| 0 <= k < all.len() implies {
            let piece = #[trigger] all[k];
            &&& start <= piece.0 <= piece.1 <= s.len()
            &&& forall|j: int| piece.0 <= j < piece.1 ==> !is_separator(s, j)
        } by {
            if k > 0 {
                assert(all[k] == rest[k - 1]);
            }
        }
        assert forall|k: int| 0 <= k < all.len() - 1 implies {
            &&& is_separator(s, (#[trigger] all[k]).1)
            &&& all[k + 1].0 == all[k].1 + 1
        } by {
            assert(all[k + 1] == rest[k]);
            if k > 0 {
                assert(all[k] == rest[k - 1]);
            }
        }
        assert(all.last() == rest.last());
    } else {
        lemma_pieces_from(s, i + 1, start);
    }
}

/// The pieces of `bytes[lo..hi]`, as offsets counted from `lo`.
fn split_range(bytes: &[u8], lo: usize, hi: usize) -> (found: Vec<(usize, usize)>)
    requires
        lo <= hi <= bytes.len(),
    ensures
        same_pieces(found@, pieces_of(bytes@.subrange(lo as int, hi as int))),
{
    let ghost s = bytes@.subrange(lo as int, hi as int);
    let n: usize = hi - lo;
    let mut found: Vec<(usize, usize)> = Vec::new();
    let mut start: usize = 0;
    let mut depth: usize = 0;
    let mut i: usize = 0;
    let ghost done: Seq<(int, int)> = Seq::empty();
    while i < n
        invariant
            start <= i <= n,
            n == hi - lo,
            lo <= hi <= bytes.len(),
            s == bytes@.subrange(lo as int, hi as int),
            depth == brace_depth(s, i as int),
            depth <= i,
            same_pieces(found@, done),
            done + pieces_from(s, i as int, start as int) == pieces_of(s),
        decreases n - i,
    {
        let b: u8 = bytes[lo + i];
        assert(s[i as int] == b);
        if b == 0x7b {
            depth = depth + 1;
        } else if b == 0x7d {
            if depth > 0 {
                depth = depth - 1;
            }
        } else if b == 0x2c && depth == 0 {
            proof {
                assert(is_separator(s, i as int));
                assert(done.push((start as int, i as int)) + pieces_from(s, i + 1, i + 1) =~= done
                    + pieces_from(s, i as int, start as int));
                done = done.push((start as int, i as int));
            }
            found.push((start, i));
            start = i + 1;
        }
        i = i + 1;
    }
    proof {
        assert(done.push((start as int, n as int)) =~= done + pieces_from(
            s,
            i as int,
            start as int,
        ));
        done = done.push((start as int, n as int));
    }
    found.push((start, n));
    found
}

/// The pieces that commas part `inner` into, as pairs of offsets. A comma
/// between `{` and `}` parts nothing.
pub fn split_locator_tokens(inner: &str) -> (found: Vec<(usize, usize)>)
    ensures
        same_pieces(found@, pieces_of(inner.spec_bytes())),
        found@.len() >= 1,
        found@[0].0 == 0,
        found@.last().1 == inner.spec_bytes().len(),
        forall|k: int|
            0 <= k < found@.len() ==> (#[trigger] found@[k]).0 <= found@[k].1
                <= inner.spec_bytes().len(),
        forall|k: int|
            0 <= k < found@.len() - 1 ==> is_separator(
                inner.spec_bytes(),
                (#[trigger] found@[k]).1 as int,
            ) && found@[k + 1].0 == found@[k].1 + 1,
        forall|k: int, j: int|
            #![trigger found@[k], is_separator(inner.spec_bytes(), j)]
            0 <= k < found@.len() && found@[k].0 <= j < found@[k].1 ==> !is_separator(
                inner.spec_bytes(),
                j,
            ),
{
    let bytes = inner.as_bytes();
    assert(bytes@.subrange(0, bytes@.len() as int) =~= bytes@);
    let found = split_range(bytes, 0, bytes.len());
    proof {
        lemma_pieces_from(bytes@, 0, 0);
        let pieces = pieces_of(bytes@);
        assert forall|k: int| 0 <= k < found@.len() - 1 implies is_separator(
            bytes@,
            (#[trigger] found@[k]).1 as int,
        ) && found@[k + 1].0 == found@[k].1 + 1 by {
            assert(found@[k].1 == pieces[k].1);
            assert(found@[k + 1].0 == pieces[k + 1].0);
        }
        assert forall|k: int, j: int|
            #![trigger found@[k], is_separator(bytes@, j)]
            0 <= k < found@.len() && found@[k].0 <= j < found@[k].1 implies !is_separator(
            bytes@,
            j,
        ) by {
            assert(found@[k].0 == pieces[k].0 && found@[k].1 == pieces[k].1);
        }
        assert forall|k: int| 0 <= k < found@.len() implies (#[trigger] found@[k]).0 <= found@[k].1
            <= bytes@.len() by {
            assert(found@[k].0 == pieces[k].0 && found@[k].1 == pieces[k].1);
        }
    }
    found
}

/// Index of the last `b` in `s`, or -1 if it has none.
pub open spec fn last_byte(s: Seq<u8>, b: u8) -> int
    decreases s.len(),
{
    if s.len() == 0 {
        -1
    } else if s.last() == b {
        s.len() - 1
    } else {
        last_byte(s.drop_last(), b)
    }
}

/// The last `b` is the `b` that no `b` stands behind.
pub proof fn lemma_last_byte_is(s: Seq<u8>, b: u8, at: int)
    requires
        -1 <= at < s.len(),
        at >= 0 ==> s[at] == b,
        forall|j: int| at < j < s.len() ==> s[j] != b,
    ensures
        last_byte(s, b) == at,
    decreases s.len(),
{
    if s.len() > 0 && s.last() != b {
        lemma_last_byte_is(s.drop_last(), b, at);
    }
}

/// The next `b` is the `b` that no `b` stands before.
pub proof fn lemma_next_byte_is(s: Seq<u8>, from: int, b: u8, at: int)
    requires
        0 <= from <= at <= s.len(),
        at < s.len() ==> s[at] == b,
        forall|j: int| from <= j < at ==> s[j] != b,
    ensures
        next_byte(s, from, b) == at,
    decreases at - from,
{
    if from < at {
        lemma_next_byte_is(s, from + 1, b, at);
    }
}

/// The place of the last `b` in `bytes[lo..hi]`.
fn find_last_byte(bytes: &[u8], lo: usize, hi: usize, b: u8) -> (r: Option<usize>)
    requires
        lo <= hi <= bytes.len(),
    ensures
        match r {
            Some(at) => lo <= at < hi && at - lo == last_byte(
                bytes@.subrange(lo as int, hi as int),
                b,
            ) && bytes@[at as int] == b,
            None => last_byte(bytes@.subrange(lo as int, hi as int), b) == -1,
        },
{
    let ghost s = bytes@.subrange(lo as int, hi as int);
    let mut i: usize = hi;
    while i > lo
        invariant
            lo <= i <= hi <= bytes.len(),
            s == bytes@.subrange(lo as int, hi as int),
            forall|j: int| i - lo <= j < s.len() ==> s[j] != b,
        decreases i - lo,
    {
        i = i - 1;
        if bytes[i] == b {
            proof {
                assert(s[i - lo] == b);
                lemma_last_byte_is(s, b, i - lo);
            }
            return Some(i);
        }
        assert(s[i - lo] == bytes@[i as int]);
    }
    proof {
        lemma_last_byte_is(s, b, -1);
    }
    None
}

/// `t` stands between `{` and `}`.
pub open spec fn is_braced(t: Seq<u8>) -> bool {
    t.len() >= 2 && t[0] == 0x7b && t.last() == 0x7d
}

/// The column that one entry of a column group writes, if it writes one.
pub open spec fn column_entry(part: Seq<u8>) -> Seq<u32> {
    match parse_u32_spec(trimmed(part)) {
        Some(v) => seq![v],
        None => Seq::empty(),
    }
}

/// The columns that the entries of `s` write, entries parted by commas;
/// an entry that writes no number is passed over.
pub open spec fn column_list(s: Seq<u8>) -> Seq<u32>
    decreases s.len(),
    via column_list_decreases
{
    let comma = next_byte(s, 0, 0x2c);
    if comma >= s.len() {
        column_entry(s)
    } else {
        column_entry(s.take(comma)) + column_list(s.skip(comma + 1))
    }
}

#[via_fn]
proof fn column_list_decreases(s: Seq<u8>) {
    lemma_next_byte(s, 0, 0x2c);
}

/// The columns that a column specifier writes: one number, or a group
/// `{c1,c2,...}` of at least one number.
pub open spec fn parse_columns_spec(s: Seq<u8>) -> Option<Seq<u32>> {
    let t = trimmed(s);
    if t.len() == 0 {
        None
    } else if is_braced(t) {
        let columns = column_list(t.subrange(1, t.len() - 1));
        if columns.len() == 0 {
            None
        } else {
            Some(columns)
        }
    } else {
        match parse_u32_spec(t) {
            Some(v) => Some(seq![v]),
            None => None,
        }
    }
}

/// The locator that a token writes, and whether it took its path from
/// `last_path`. The last colon parts the columns from the rest, the last
/// colon of the rest parts the line from the path; an empty path stands for
/// `last_path`.
pub open spec fn parse_locator_spec(token: Seq<u8>, last_path: Option<Seq<u8>>) -> Option<
    (LocatorModel, bool),
> {
    let t = trimmed(token);
    let column_colon = last_byte(t, 0x3a);
    let before = t.take(column_colon);
    let line_colon = last_byte(before, 0x3a);
    if t.len() == 0 || column_colon < 0 || line_colon < 0 {
        None
    } else {
        let path = before.take(line_colon);
        match (
            parse_u32_spec(before.skip(line_colon + 1)),
            parse_columns_spec(t.skip(column_colon + 1)),
        ) {
            (Some(line), Some(columns)) => {
                if path.len() > 0 {
                    Some((LocatorModel { path, line, columns }, false))
                } else {
                    match last_path {
                        Some(inherited) => Some(
                            (LocatorModel { path: inherited, line, columns }, true),
                        ),
                        None => None,
                    }
                }
            },
            _ => None,
        }
    }
}

/// Reads `bytes[lo..hi]` as a column specifier.
fn parse_columns_in(bytes: &[u8], lo: usize, hi: usize) -> (r: Option<Vec<u32>>)
    requires
        lo <= hi <= bytes.len(),
    ensures
        match r {
            Some(columns) => parse_columns_spec(bytes@.subrange(lo as int, hi as int)) == Some(
                columns@,
            ),
            None => parse_columns_spec(bytes@.subrange(lo as int, hi as int)) is None,
        },
{
    let (t0, t1) = trim_range(bytes, lo, hi);
    let ghost t = bytes@.subrange(t0 as int, t1 as int);
    if t0 >= t1 {
        return None;
    }
    assert(t[0] == bytes@[t0 as int] && t.last() == bytes@[t1 - 1]);
    if t1 - t0 >= 2 && bytes[t0] == 0x7b && bytes[t1 - 1] == 0x7d {
        let end: usize = t1 - 1;
        let ghost inner = bytes@.subrange(t0 + 1, end as int);
        assert(inner =~= t.subrange(1, t.len() - 1));
        let mut columns: Vec<u32> = Vec::new();
        let mut p: usize = t0 + 1;
        loop
            invariant_except_break
                columns@ + column_list(bytes@.subrange(p as int, end as int)) == column_list(inner),
            invariant
                t0 < p <= end < bytes.len(),
                inner == bytes@.subrange(t0 + 1, end as int),
            ensures
                columns@ == column_list(inner),
            decreases end - p,
        {
            let ghost rest = bytes@.subrange(p as int, end as int);
            let comma: usize = find_byte(bytes, p, end, 0x2c);
            proof {
                assert forall|j: int| 0 <= j < comma - p implies rest[j] != 0x2c by {
                    assert(rest[j] == bytes@[p + j]);
                }
                lemma_next_byte_is(rest, 0, 0x2c, comma - p);
            }
            let (a, b) = trim_range(bytes, p, comma);
            let entry = parse_u32(bytes, a, b);
            let ghost before = columns@;
            match entry {
                Some(v) => {
                    columns.push(v);
                },
                None => {},
            }
            if comma >= end {
                proof {
                    assert(bytes@.subrange(p as int, comma as int) =~= rest);
                    assert(columns@ =~= before + column_entry(rest));
                }
                break ;
            }
            proof {
                assert(rest.take(comma - p) =~= bytes@.subrange(p as int, comma as int));
                assert(rest.skip(comma - p + 1) =~= bytes@.subrange(comma + 1, end as int));
                assert(columns@ =~= before + column_entry(rest.take(comma - p)));
                assert(columns@ + column_list(bytes@.subrange(comma + 1, end as int)) =~= before
                    + column_list(rest));
            }
            p = comma + 1;
        }
        if columns.len() == 0 {
            None
        } else {
            Some(columns)
        }
    } else {
        match parse_u32(bytes, t0, t1) {
            Some(v) => {
                let mut columns: Vec<u32> = Vec::new();
                columns.push(v);
                assert(columns@ =~= seq![v]);
                Some(columns)
            },
            None => None,
        }
    }
}

/// The columns that `columns_text` writes: one number, or a group of
/// numbers between `{` and `}` with commas between them, of which those
/// that do not read as a number are passed over. `None` when no number is
/// left.
pub fn parse_columns(columns_text: &str) -> (r: Option<Vec<u32>>)
    ensures
        match r {
            Some(columns) => parse_columns_spec(columns_text.spec_bytes()) == Some(columns@),
            None => parse_columns_spec(columns_text.spec_bytes()) is None,
        },
{
    let bytes = columns_text.as_bytes();
    assert(bytes@.subrange(0, bytes@.len() as int) =~= bytes@);
    parse_columns_in(bytes, 0, bytes.len())
}

/// Reads the part of `text` between `lo` and `hi` as a locator token.
fn parse_locator_in(text: &str, lo: usize, hi: usize, last_path: Option<&str>) -> (r: Option<
    (Locator, bool),
>)
    requires
        lo <= hi <= text.spec_bytes().len(),
        is_boundary(text.spec_bytes(), lo as int),
    ensures
        match r {
            Some((locator, inherited)) => parse_locator_spec(
                text.spec_bytes().subrange(lo as int, hi as int),
                match last_path {
                    Some(p) => Some(p.spec_bytes()),
                    None => None,
                },
            ) == Some((locator@, inherited)),
            None => parse_locator_spec(
                text.spec_bytes().subrange(lo as int, hi as int),
                match last_path {
                    Some(p) => Some(p.spec_bytes()),
                    None => None,
                },
            ) is None,
        },
{
    let bytes = text.as_bytes();
    proof {
        encode_utf8_valid_utf8(text@);
    }
    let (t0, t1) = trim_range(bytes, lo, hi);
    let ghost t = bytes@.subrange(t0 as int, t1 as int);
    if t0 >= t1 {
        return None;
    }
    let column_colon: usize = match find_last_byte(bytes, t0, t1, 0x3a) {
        Some(at) => at,
        None => {
            return None;
        },
    };
    let ghost before = t.take(column_colon - t0);
    assert(before =~= bytes@.subrange(t0 as int, column_colon as int));
    let line_colon: usize = match find_last_byte(bytes, t0, column_colon, 0x3a) {
        Some(at) => at,
        None => {
            return None;
        },
    };
    proof {
        assert(before.skip(line_colon - t0 + 1) =~= bytes@.subrange(
            line_colon + 1,
            column_colon as int,
        ));
        assert(t.skip(column_colon - t0 + 1) =~= bytes@.subrange(column_colon + 1, t1 as int));
        assert(before.take(line_colon - t0) =~= bytes@.subrange(t0 as int, line_colon as int));
    }
    let line: u32 = match parse_u32(bytes, line_colon + 1, column_colon) {
        Some(v) => v,
        None => {
            return None;
        },
    };
    let columns: Vec<u32> = match parse_columns_in(bytes, column_colon + 1, t1) {
        Some(v) => v,
        None => {
            return None;
        },
    };
    if line_colon > t0 {
        let path = slice_str(text, t0, line_colon).to_owned();
        Some((Locator { path, line, columns }, false))
    } else {
        match last_path {
            Some(p) => Some((Locator { path: p.to_owned(), line, columns }, true)),
            None => None,
        }
    }
}

/// The locator that `token_text` writes, and whether its path is
/// `last_path` because the token names none. `None` when the token is not
/// `path:line:columns`, or names no path while there is none to take over.
pub fn parse_locator_token(token_text: &str, last_path: Option<&str>) -> (r: Option<
    (Locator, bool),
>)
    ensures
        match r {
            Some((locator, inherited)) => parse_locator_spec(
                token_text.spec_bytes(),
                match last_path {
                    Some(p) => Some(p.spec_bytes()),
                    None => None,
                },
            ) == Some((locator@, inherited)),
            None => parse_locator_spec(
                token_text.spec_bytes(),
                match last_path {
                    Some(p) => Some(p.spec_bytes()),
                    None => None,
                },
            ) is None,
        },
{
    let n: usize = token_text.as_bytes().len();
    proof {
        let bytes = token_text.spec_bytes();
        encode_utf8_valid_utf8(token_text@);
        assert(bytes.subrange(0, bytes.len() as int) =~= bytes);
        if bytes.len() > 0 {
            assert(valid_first_scalar(bytes));
        }
    }
    parse_locator_in(token_text, 0, n, last_path)
}

impl ParsedToken {
    /// This token is `model`, found in `bytes` where the annotation's
    /// content begins at `base`.
    pub open spec fn writes(self, bytes: Seq<u8>, base: int, model: TokenModel) -> bool {
        &&& self.byte_start == base + model.start
        &&& self.byte_end == base + model.end
        &&& self.locator@ == model.locator
        &&& self.range == range_of(bytes, self.byte_start as int, self.byte_end as int)
    }
}

/// `tokens` are `models`, one for one.
pub open spec fn same_tokens(
    tokens: Seq<ParsedToken>,
    bytes: Seq<u8>,
    base: int,
    models: Seq<TokenModel>,
) -> bool {
    &&& tokens.len() == models.len()
    &&& forall|k: int| 0 <= k < tokens.len() ==> (#[trigger] tokens[k]).writes(bytes, base, models[k])
}

/// The token that the piece `raw`, which begins at `start`, writes when
/// its text writes `locator`: its place is that of the piece without the
/// white space around it.
pub open spec fn piece_token(raw: Seq<u8>, start: int, locator: LocatorModel) -> TokenModel {
    TokenModel {
        start: start + leading_space(raw),
        end: start + leading_space(raw) + trimmed(raw).len(),
        locator,
    }
}

/// The tokens that the pieces from the `k`-th on write, when `last_path` is
/// the last path that a token before them named. A piece of white space
/// alone, or one that writes no locator, is passed over.
pub open spec fn tokens_from(
    inner: Seq<u8>,
    pieces: Seq<(int, int)>,
    k: int,
    last_path: Option<Seq<u8>>,
) -> Seq<TokenModel>
    decreases pieces.len() - k,
{
    if k < 0 || k >= pieces.len() {
        Seq::empty()
    } else {
        let raw = inner.subrange(pieces[k].0, pieces[k].1);
        match parse_locator_spec(trimmed(raw), last_path) {
            Some((locator, inherited)) => seq![piece_token(raw, pieces[k].0, locator)] + tokens_from(
                inner,
                pieces,
                k + 1,
                if inherited {
                    last_path
                } else {
                    Some(locator.path)
                },
            ),
            None => tokens_from(inner, pieces, k + 1, last_path),
        }
    }
}

/// The bytes of the path that was named last, if one was.
pub open spec fn path_model(path: Option<String>) -> Option<Seq<u8>> {
    match path {
        Some(p) => Some(encode_utf8(p@)),
        None => None,
    }
}

/// The tokens of an annotation with the content `inner`, from left to right.
pub open spec fn tokens_of(inner: Seq<u8>) -> Seq<TokenModel> {
    tokens_from(inner, pieces_of(inner), 0, None)
}

/// The piece lies in the content `bytes[base..stop]` and begins between
/// two code points.
pub open spec fn piece_in_place(bytes: Seq<u8>, base: int, stop: int, piece: (int, int)) -> bool {
    0 <= piece.0 <= piece.1 <= stop - base && is_boundary(bytes, base + piece.0)
}

/// Every piece lies in the content and begins between two code points.
pub open spec fn pieces_in_place(
    bytes: Seq<u8>,
    base: int,
    stop: int,
    pieces: Seq<(int, int)>,
) -> bool {
    forall|i: int|
        0 <= i < pieces.len() ==> piece_in_place(bytes, base, stop, #[trigger] pieces[i])
}

/// The pieces of an annotation's content lie in place.
proof fn lemma_pieces_in_place(bytes: Seq<u8>, base: int, stop: int)
    requires
        valid_utf8(bytes),
        0 <= base <= stop <= bytes.len(),
        is_boundary(bytes, base),
    ensures
        pieces_in_place(bytes, base, stop, pieces_of(bytes.subrange(base, stop))),
{
    let inner = bytes.subrange(base, stop);
    let pieces = pieces_of(inner);
    lemma_pieces_from(inner, 0, 0);
    assert forall|i: int| 0 <= i < pieces.len() implies piece_in_place(
        bytes,
        base,
        stop,
        #[trigger] pieces[i],
    ) by {
        if i > 0 {
            let comma = pieces[i - 1].1;
            assert(is_separator(inner, comma));
            assert(inner[comma] == bytes[base + comma]);
            lemma_ascii_boundaries(bytes, base + comma);
        }
    }
}

/// What the pieces from the `k`-th on write is what the `k`-th writes, if
/// it writes a token, and then what the pieces behind it write.
proof fn lemma_tokens_step(
    inner: Seq<u8>,
    pieces: Seq<(int, int)>,
    k: int,
    last_path: Option<Seq<u8>>,
)
    requires
        0 <= k < pieces.len(),
    ensures
        tokens_from(inner, pieces, k, last_path) == (match parse_locator_spec(
            trimmed(inner.subrange(pieces[k].0, pieces[k].1)),
            last_path,
        ) {
            Some((locator, inherited)) => seq![
                piece_token(inner.subrange(pieces[k].0, pieces[k].1), pieces[k].0, locator),
            ] + tokens_from(
                inner,
                pieces,
                k + 1,
                if inherited {
                    last_path
                } else {
                    Some(locator.path)
                },
            ),
            None => tokens_from(inner, pieces, k + 1, last_path),
        }),
{
}

/// The token in `text` between `base + a` and `base + b`, if that piece
/// writes one, and whether it took its path from `last_path`.
fn token_in(
    text: &str,
    base: usize,
    a: usize,
    b: usize,
    last_path: Option<&str>,
    line_starts: &[usize],
) -> (r: Option<(ParsedToken, bool)>)
    requires
        a <= b,
        base + b <= text.spec_bytes().len(),
        text.spec_bytes().len() <= MAX_TEXT_LEN,
        is_boundary(text.spec_bytes(), base + a),
        is_line_table(line_starts@, text.spec_bytes()),
    ensures
        match r {
            Some((token, inherited)) => {
                let raw = text.spec_bytes().subrange(base + a, base + b);
                &&& parse_locator_spec(
                    trimmed(raw),
                    match last_path {
                        Some(p) => Some(p.spec_bytes()),
                        None => None,
                    },
                ) == Some((token.locator@, inherited))
                &&& token.writes(
                    text.spec_bytes(),
                    base as int,
                    piece_token(raw, a as int, token.locator@),
                )
            },
            None => parse_locator_spec(
                trimmed(text.spec_bytes().subrange(base + a, base + b)),
                match last_path {
                    Some(p) => Some(p.spec_bytes()),
                    None => None,
                },
            ) is None,
        },
{
    let bytes = text.as_bytes();
    proof {
        encode_utf8_valid_utf8(text@);
    }
    let (t0, t1) = trim_range(bytes, base + a, base + b);
    match parse_locator_in(text, t0, t1, last_path) {
        Some((locator, inherited)) => {
            let range = Range {
                start: offset_to_position(t0, text, line_starts),
                end: offset_to_position(t1, text, line_starts),
            };
            Some((ParsedToken { byte_start: t0, byte_end: t1, locator, range }, inherited))
        },
        None => None,
    }
}

/// The tokens of `annotation`, from left to right. A token that names no
/// path has the path of the nearest token before it that names one; a token
/// that does not read as a locator is left out, and the others stay.
pub fn parse_tokens_from_annotation(
    text: &str,
    annotation: &AnnotationSpan,
    line_starts: &[usize],
) -> (tokens: Vec<ParsedToken>)
    requires
        is_annotation(text.spec_bytes(), *annotation),
        is_line_table(line_starts@, text.spec_bytes()),
        text.spec_bytes().len() <= MAX_TEXT_LEN,
    ensures
        same_tokens(
            tokens@,
            text.spec_bytes(),
            annotation.inner_start as int,
            tokens_of(
                text.spec_bytes().subrange(
                    annotation.inner_start as int,
                    annotation.inner_end as int,
                ),
            ),
        ),
{
    let bytes = text.as_bytes();
    let base: usize = annotation.inner_start;
    let stop: usize = annotation.inner_end;
    let ghost inner = bytes@.subrange(base as int, stop as int);
    let pieces = split_range(bytes, base, stop);
    let ghost models = pieces_of(inner);
    proof {
        encode_utf8_valid_utf8(text@);
        lemma_ascii_boundaries(bytes@, base - 1);
        lemma_pieces_in_place(bytes@, base as int, stop as int);
    }
    let mut tokens: Vec<ParsedToken> = Vec::new();
    let mut last_path: Option<String> = None;
    let mut k: usize = 0;
    let ghost done: Seq<TokenModel> = Seq::empty();
    while k < pieces.len()
        invariant
            k <= pieces@.len(),
            base <= stop <= text.spec_bytes().len(),
            text.spec_bytes().len() <= MAX_TEXT_LEN,
            is_line_table(line_starts@, text.spec_bytes()),
            inner == text.spec_bytes().subrange(base as int, stop as int),
            same_pieces(pieces@, models),
            pieces_in_place(text.spec_bytes(), base as int, stop as int, models),
            same_tokens(tokens@, text.spec_bytes(), base as int, done),
            done + tokens_from(inner, models, k as int, path_model(last_path)) == tokens_of(inner),
        decreases pieces@.len() - k,
    {
        let (a, b) = pieces[k];
        proof {
            assert(pieces@[k as int].0 == models[k as int].0 && pieces@[k as int].1
                == models[k as int].1);
            assert(piece_in_place(text.spec_bytes(), base as int, stop as int, models[k as int]));
            assert(inner.subrange(a as int, b as int) =~= text.spec_bytes().subrange(
                base + a,
                base + b,
            ));
        }
        let ghost before = done;
        let ghost old_path: Option<Seq<u8>> = path_model(last_path);
        let found = match &last_path {
            Some(p) => token_in(text, base, a, b, Some(p.as_str()), line_starts),
            None => token_in(text, base, a, b, None, line_starts),
        };
        proof {
            lemma_tokens_step(inner, models, k as int, old_path);
        }
        match found {
            Some((token, inherited)) => {
                if !inherited {
                    last_path = Some(token.locator.path.clone());
                }
                proof {
                    let model = piece_token(
                        inner.subrange(a as int, b as int),
                        a as int,
                        token.locator@,
                    );
                    done = done.push(model);
                    assert(done + tokens_from(inner, models, k + 1, path_model(last_path)) =~= before
                        + (seq![model] + tokens_from(inner, models, k + 1, path_model(last_path))));
                }
                tokens.push(token);
            },
            None => {},
        }
        k = k + 1;
    }
    assert(done =~= tokens_of(inner));
    tokens
}

/// The columns in decimal with commas between them.
pub open spec fn join_columns(columns: Seq<u32>) -> Seq<u8>
    decreases columns.len(),
{
    if columns.len() == 0 {
        Seq::empty()
    } else if columns.len() == 1 {
        decimal_digits(columns[0] as nat)
    } else {
        decimal_digits(columns[0] as nat) + seq![0x2cu8] + join_columns(columns.drop_first())
    }
}

/// How columns are written: one column as its number, any other count as
/// `{c1,c2,...}`.
pub open spec fn format_columns(columns: Seq<u32>) -> Seq<u8> {
    if columns.len() == 1 {
        decimal_digits(columns[0] as nat)
    } else {
        seq![0x7bu8] + join_columns(columns) + seq![0x7du8]
    }
}

/// How a locator is written: `path:line:columns`.
pub open spec fn format_locator_spec(locator: LocatorModel) -> Seq<u8> {
    locator.path + seq![0x3au8] + decimal_digits(locator.line as nat) + seq![0x3au8]
        + format_columns(locator.columns)
}

/// Appends one of the marks `:`, `,`, `{` and `}`.
fn push_mark(out: &mut String, mark: u8)
    requires
        mark == 0x3a || mark == 0x2c || mark == 0x7b || mark == 0x7d,
    ensures
        encode_utf8(final(out)@) == encode_utf8(old(out)@).push(mark),
{
    let piece: &str = if mark == 0x3a {
        proof {
            reveal_strlit(":");
            lemma_single_ascii(":"@, ':');
        }
        ":"
    } else if mark == 0x2c {
        proof {
            reveal_strlit(",");
            lemma_single_ascii(","@, ',');
        }
        ","
    } else if mark == 0x7b {
        proof {
            reveal_strlit("{");
            lemma_single_ascii("{"@, '{');
        }
        "{"
    } else {
        proof {
            reveal_strlit("}");
            lemma_single_ascii("}"@, '}');
        }
        "}"
    };
    assert(piece.spec_bytes() == seq![mark]);
    push_str(out, piece);
    assert(encode_utf8(out@) =~= encode_utf8(old(out)@).push(mark));
}

/// The text of `locator`: `path:line:column` when it has one column,
/// `path:line:{c1,c2,...}` otherwise, the columns in their order.
pub fn format_locator(locator: &Locator) -> (text: String)
    ensures
        encode_utf8(text@) == format_locator_spec(locator@),
{
    let mut out = String::new();
    assert(encode_utf8(out@) =~= Seq::<u8>::empty());
    push_str(&mut out, locator.path.as_str());
    push_mark(&mut out, 0x3a);
    push_decimal(&mut out, locator.line);
    push_mark(&mut out, 0x3a);
    let ghost head = encode_utf8(out@);
    assert(head =~= locator@.path + seq![0x3au8] + decimal_digits(locator.line as nat) + seq![
        0x3au8,
    ]);
    let n: usize = locator.columns.len();
    if n == 1 {
        push_decimal(&mut out, locator.columns[0]);
    } else {
        push_mark(&mut out, 0x7b);
        let mut i: usize = 0;
        assert(locator.columns@.skip(0) =~= locator.columns@);
        while i < n
            invariant
                i <= n,
                n == locator.columns@.len(),
                encode_utf8(out@) + (if 0 < i < n {
                    seq![0x2cu8]
                } else {
                    Seq::empty()
                }) + join_columns(locator.columns@.skip(i as int)) == head + seq![0x7bu8]
                    + join_columns(locator.columns@),
            decreases n - i,
        {
            let ghost before = encode_utf8(out@);
            let ghost rest = locator.columns@.skip(i as int);
            if i > 0 {
                push_mark(&mut out, 0x2c);
            }
            push_decimal(&mut out, locator.columns[i]);
            proof {
                assert(rest[0] == locator.columns@[i as int]);
                assert(rest.drop_first() =~= locator.columns@.skip(i + 1));
                if i + 1 < n {
                    assert(join_columns(rest) == decimal_digits(rest[0] as nat) + seq![0x2cu8]
                        + join_columns(rest.drop_first()));
                } else {
                    assert(join_columns(rest.drop_first()) =~= Seq::<u8>::empty());
                }
                assert(encode_utf8(out@) + (if 0 < i + 1 < n {
                    seq![0x2cu8]
                } else {
                    Seq::empty()
                }) + join_columns(locator.columns@.skip(i + 1)) =~= before + (if 0 < i < n {
                    seq![0x2cu8]
                } else {
                    Seq::empty()
                }) + join_columns(rest));
            }
            i = i + 1;
        }
        assert(join_columns(locator.columns@.skip(n as int)) =~= Seq::<u8>::empty());
        push_mark(&mut out, 0x7d);
    }
    assert(encode_utf8(out@) =~= format_locator_spec(locator@));
    out
}

/// A number in decimal holds digits alone: no white space, comma or colon.
proof fn lemma_digits_plain(n: nat)
    ensures
        decimal_digits(n).len() > 0,
        all_digits(decimal_digits(n)),
        space_prefix(decimal_digits(n)) == 0,
        space_suffix(decimal_digits(n)) == 0,
        trimmed(decimal_digits(n)) == decimal_digits(n),
        forall|j: int|
            0 <= j < decimal_digits(n).len() ==> (#[trigger] decimal_digits(n)[j]) != 0x2c
                && decimal_digits(n)[j] != 0x3a,
{
    lemma_decimal_round_trip(n);
    let d = decimal_digits(n);
    assert(is_digit(d[0]) && is_digit(d[d.len() - 1]));
    lemma_trimmed_identity(d);
    assert forall|j: int| 0 <= j < d.len() implies (#[trigger] d[j]) != 0x2c && d[j] != 0x3a by {
        assert(is_digit(d[j]));
    }
}

/// Joined columns hold digits and commas alone.
proof fn lemma_join_shape(columns: Seq<u32>)
    requires
        columns.len() >= 1,
    ensures
        join_columns(columns).len() > 0,
        forall|j: int|
            0 <= j < join_columns(columns).len() ==> is_digit(#[trigger] join_columns(columns)[j])
                || join_columns(columns)[j] == 0x2c,
    decreases columns.len(),
{
    lemma_digits_plain(columns[0] as nat);
    if columns.len() > 1 {
        lemma_join_shape(columns.drop_first());
        let d = decimal_digits(columns[0] as nat);
        let r = join_columns(columns.drop_first());
        let all = join_columns(columns);
        assert(all == d + seq![0x2cu8] + r);
        assert forall|j: int| 0 <= j < all.len() implies is_digit(#[trigger] all[j]) || all[j]
            == 0x2c by {
            if j < d.len() {
                assert(all[j] == d[j]);
            } else if j > d.len() {
                assert(all[j] == r[j - d.len() - 1]);
            }
        }
    }
}

/// Columns that are joined are read back as they were.
proof fn lemma_column_list_join(columns: Seq<u32>)
    requires
        columns.len() >= 1,
    ensures
        column_list(join_columns(columns)) == columns,
    decreases columns.len(),
{
    let d = decimal_digits(columns[0] as nat);
    let all = join_columns(columns);
    lemma_digits_plain(columns[0] as nat);
    lemma_decimal_round_trip(columns[0] as nat);
    assert(column_entry(d) =~= seq![columns[0]]);
    if columns.len() == 1 {
        lemma_next_byte_is(all, 0, 0x2c, all.len() as int);
        assert(columns =~= seq![columns[0]]);
    } else {
        let r = join_columns(columns.drop_first());
        assert(all == d + seq![0x2cu8] + r);
        assert forall|j: int| 0 <= j < d.len() implies all[j] != 0x2c by {
            assert(all[j] == d[j]);
        }
        lemma_next_byte_is(all, 0, 0x2c, d.len() as int);
        assert(all.take(d.len() as int) =~= d);
        assert(all.skip(d.len() as int + 1) =~= r);
        lemma_column_list_join(columns.drop_first());
        assert(seq![columns[0]] + columns.drop_first() =~= columns);
    }
}

/// Columns that are written are read back as they were.
pub proof fn lemma_columns_round_trip(columns: Seq<u32>)
    requires
        columns.len() >= 1,
    ensures
        parse_columns_spec(format_columns(columns)) == Some(columns),
        format_columns(columns).len() > 0,
        space_suffix(format_columns(columns)) == 0,
        forall|j: int|
            0 <= j < format_columns(columns).len() ==> (#[trigger] format_columns(columns)[j])
                != 0x3a,
{
    let text = format_columns(columns);
    lemma_digits_plain(columns[0] as nat);
    lemma_decimal_round_trip(columns[0] as nat);
    if columns.len() == 1 {
        assert(is_digit(text[0]));
        assert(columns =~= seq![columns[0]]);
    } else {
        let joined = join_columns(columns);
        lemma_join_shape(columns);
        lemma_column_list_join(columns);
        assert(text[0] == 0x7b && text.last() == 0x7d);
        lemma_trimmed_identity(text);
        assert(text.subrange(1, text.len() - 1) =~= joined);
        assert forall|j: int| 0 <= j < text.len() implies (#[trigger] text[j]) != 0x3a by {
            if 0 < j < text.len() - 1 {
                assert(text[j] == joined[j - 1]);
            }
        }
    }
}

/// A locator that is written and read back is the locator that was written:
/// its path, its line, and its columns in their number and order. This
/// holds of a locator that has a path, which does not begin with white
/// space, and at least one column.
pub proof fn lemma_format_then_parse(locator: LocatorModel, last_path: Option<Seq<u8>>)
    requires
        locator.path.len() > 0,
        space_prefix(locator.path) == 0,
        locator.columns.len() >= 1,
    ensures
        parse_locator_spec(format_locator_spec(locator), last_path) == Some((locator, false)),
{
    let path = locator.path;
    let line = decimal_digits(locator.line as nat);
    let columns = format_columns(locator.columns);
    let text = format_locator_spec(locator);
    lemma_digits_plain(locator.line as nat);
    lemma_decimal_round_trip(locator.line as nat);
    lemma_columns_round_trip(locator.columns);
    let first = path.len() as int;
    let second = first + 1 + line.len();
    assert(text.len() == second + 1 + columns.len());
    assert forall|j: int| 0 <= j < text.len() implies text[j] == (if j < first {
        path[j]
    } else if j == first {
        0x3au8
    } else if j < second {
        line[j - first - 1]
    } else if j == second {
        0x3au8
    } else {
        columns[j - second - 1]
    }) by {}
    assert(text.last() == columns.last());
    assert(space_suffix(text) == 0);
    assert(space_prefix(text) == 0);
    lemma_trimmed_identity(text);
    lemma_last_byte_is(text, 0x3a, second);
    let before = text.take(second);
    lemma_last_byte_is(before, 0x3a, first);
    assert(before.take(first) =~= path);
    assert(before.skip(first + 1) =~= line);
    assert(text.skip(second + 1) =~= columns);
}

} // verus!
