//! Lines of a text and the two ways to name a place in it: a byte offset, or
//! a line with a column counted in UTF-16 code units.

use vstd::prelude::*;
use vstd::string::*;
use vstd::utf8::*;
use crate::encoding::{
    is_boundary, lemma_ascii_boundaries, lemma_units_split, slice_str, unit_width, utf16_units,
};

verus! {

/// Longest text for which every line number and every column fits a `u32`.
pub const MAX_TEXT_LEN: usize = 0x7fff_ffff;

/// A place in a text: line and UTF-16 column, both counted from 0.
#[derive(Clone, Copy, Debug, PartialEq, Eq, Structural)]
pub struct Position {
    pub line: u32,
    pub character: u32,
}

/// The stretch of text from `start` up to `end`.
#[derive(Clone, Copy, Debug, PartialEq, Eq, Structural)]
pub struct Range {
    pub start: Position,
    pub end: Position,
}

/// Offsets at which the lines begin that begin at or before `n`: 0, and the
/// offset behind each line feed among the first `n` bytes.
pub open spec fn line_starts_upto(bytes: Seq<u8>, n: int) -> Seq<int>
    decreases n,
{
    if n <= 0 {
        seq![0int]
    } else if bytes[n - 1] == 0x0a {
        line_starts_upto(bytes, n - 1).push(n)
    } else {
        line_starts_upto(bytes, n - 1)
    }
}

/// Offsets at which the lines of `bytes` begin.
pub open spec fn line_table_of(bytes: Seq<u8>) -> Seq<int> {
    line_starts_upto(bytes, bytes.len() as int)
}

/// `table` is the line table of `bytes`.
pub open spec fn is_line_table(table: Seq<usize>, bytes: Seq<u8>) -> bool {
    &&& table.len() == line_table_of(bytes).len()
    &&& forall|k: int| 0 <= k < table.len() ==> #[trigger] table[k] as int == line_table_of(bytes)[k]
}

/// `table` begins with 0 and grows strictly.
pub open spec fn is_ascending_table(table: Seq<usize>) -> bool {
    &&& table.len() > 0
    &&& table[0] == 0
    &&& forall|i: int, j: int| 0 <= i < j < table.len() ==> table[i] < table[j]
}

/// Index of the line that holds offset `o`.
pub open spec fn line_index_of(bytes: Seq<u8>, o: int) -> int {
    line_starts_upto(bytes, o).len() - 1
}

/// Offset at which the line that holds offset `o` begins.
pub open spec fn line_start_of(bytes: Seq<u8>, o: int) -> int {
    line_starts_upto(bytes, o).last()
}

/// End of line `line` in the table `starts`: where the next line begins, or
/// the end of the text.
pub open spec fn line_end(starts: Seq<int>, line: int, len: int) -> int {
    if line + 1 < starts.len() {
        starts[line + 1]
    } else {
        len
    }
}

/// The position of offset `o`.
pub open spec fn position_of(bytes: Seq<u8>, o: int) -> Position {
    Position {
        line: line_index_of(bytes, o) as u32,
        character: utf16_units(bytes, line_start_of(bytes, o), o) as u32,
    }
}

/// The range between the offsets `lo` and `hi`.
pub open spec fn range_of(bytes: Seq<u8>, lo: int, hi: int) -> Range {
    Range { start: position_of(bytes, lo), end: position_of(bytes, hi) }
}

/// Walks from `i` towards `end`, spending `remaining` UTF-16 units on the
/// code points passed, and stops before the first one that costs more than
/// is left.
pub open spec fn advance_units(bytes: Seq<u8>, i: int, end: int, remaining: nat) -> int
    decreases end - i,
{
    if i >= end {
        end
    } else if remaining < unit_width(bytes[i]) {
        i
    } else {
        advance_units(bytes, i + 1, end, (remaining - unit_width(bytes[i])) as nat)
    }
}

/// The offset of a position, if the text has that line.
pub open spec fn offset_of_position(bytes: Seq<u8>, line: nat, character: nat) -> Option<int> {
    let starts = line_table_of(bytes);
    if line >= starts.len() {
        None
    } else {
        Some(
            advance_units(
                bytes,
                starts[line as int],
                line_end(starts, line as int, bytes.len() as int),
                character,
            ),
        )
    }
}

/// The line starts begin with 0, grow strictly, stay at or before `n`, and
/// each but the first stands behind a line feed.
pub proof fn lemma_line_starts_upto(bytes: Seq<u8>, n: int)
    requires
        0 <= n <= bytes.len(),
    ensures
        line_starts_upto(bytes, n).len() >= 1,
        line_starts_upto(bytes, n).len() <= n + 1,
        line_starts_upto(bytes, n)[0] == 0,
        forall|k: int|
            0 <= k < line_starts_upto(bytes, n).len() ==> 0 <= #[trigger] line_starts_upto(
                bytes,
                n,
            )[k] <= n,
        forall|i: int, j: int|
            0 <= i < j < line_starts_upto(bytes, n).len() ==> line_starts_upto(bytes, n)[i]
                < line_starts_upto(bytes, n)[j],
        forall|k: int|
            1 <= k < line_starts_upto(bytes, n).len() ==> bytes[#[trigger] line_starts_upto(
                bytes,
                n,
            )[k] - 1] == 0x0a,
    decreases n,
{
    if n > 0 {
        lemma_line_starts_upto(bytes, n - 1);
    }
}

/// The lines that begin at or before `n` are the first of those that begin
/// at or before `m`, and the others begin behind `n`.
pub proof fn lemma_line_starts_prefix(bytes: Seq<u8>, n: int, m: int)
    requires
        0 <= n <= m <= bytes.len(),
    ensures
        line_starts_upto(bytes, n).len() <= line_starts_upto(bytes, m).len(),
        forall|k: int|
            0 <= k < line_starts_upto(bytes, n).len() ==> #[trigger] line_starts_upto(bytes, m)[k]
                == line_starts_upto(bytes, n)[k],
        forall|k: int|
            line_starts_upto(bytes, n).len() <= k < line_starts_upto(bytes, m).len()
                ==> #[trigger] line_starts_upto(bytes, m)[k] > n,
    decreases m - n,
{
    if n < m {
        lemma_line_starts_prefix(bytes, n, m - 1);
    }
}

/// A line table is ascending and stays inside its text.
pub proof fn lemma_line_table(table: Seq<usize>, bytes: Seq<u8>)
    requires
        is_line_table(table, bytes),
    ensures
        is_ascending_table(table),
        table.len() <= bytes.len() + 1,
        forall|k: int| 0 <= k < table.len() ==> #[trigger] table[k] <= bytes.len(),
{
    lemma_line_starts_upto(bytes, bytes.len() as int);
    let starts = line_table_of(bytes);
    assert forall|i: int, j: int| 0 <= i < j < table.len() implies table[i] < table[j] by {
        assert(table[i] as int == starts[i]);
        assert(table[j] as int == starts[j]);
    }
    assert forall|k: int| 0 <= k < table.len() implies #[trigger] table[k] <= bytes.len() by {
        assert(table[k] as int == starts[k]);
    }
    assert(table[0] as int == starts[0]);
}

/// The line of an offset, read from the whole table: the last line that
/// begins at or before it.
pub proof fn lemma_line_of_offset(bytes: Seq<u8>, o: int, k: int)
    requires
        0 <= o <= bytes.len(),
        0 <= k < line_table_of(bytes).len(),
        line_table_of(bytes)[k] <= o,
        k + 1 < line_table_of(bytes).len() ==> o < line_table_of(bytes)[k + 1],
    ensures
        line_index_of(bytes, o) == k,
        line_start_of(bytes, o) == line_table_of(bytes)[k],
{
    let all = line_table_of(bytes);
    let part = line_starts_upto(bytes, o);
    lemma_line_starts_upto(bytes, bytes.len() as int);
    lemma_line_starts_upto(bytes, o);
    lemma_line_starts_prefix(bytes, o, bytes.len() as int);
    if part.len() - 1 < k {
        assert(all[k] > o);
    }
    if part.len() - 1 > k {
        assert(all[k + 1] == part[k + 1]);
        if k + 1 < part.len() - 1 {
            assert(all[k + 1] < all[part.len() - 1]);
        }
        assert(part[part.len() - 1] <= o);
        assert(all[part.len() - 1] == part[part.len() - 1]);
    }
    assert(all[k] == part[k]);
}

/// A byte accounts for two units at most.
pub proof fn lemma_units_bound(bytes: Seq<u8>, lo: int, hi: int)
    requires
        lo <= hi,
    ensures
        utf16_units(bytes, lo, hi) <= 2 * (hi - lo),
    decreases hi - lo,
{
    if lo < hi {
        lemma_units_bound(bytes, lo, hi - 1);
    }
}

/// Spending exactly the units of `bytes[i..o]` stops the walk at `o`,
/// when `o` is where a code point starts or the walk's end.
pub proof fn lemma_advance_reaches(bytes: Seq<u8>, i: int, o: int, end: int)
    requires
        0 <= i <= o <= end <= bytes.len(),
        o == end || !is_continuation_byte(bytes[o]),
    ensures
        advance_units(bytes, i, end, utf16_units(bytes, i, o)) == o,
    decreases o - i,
{
    if i < o {
        lemma_units_split(bytes, i, i + 1, o);
        assert(utf16_units(bytes, i, i + 1) == unit_width(bytes[i])) by {
            assert(utf16_units(bytes, i, i) == 0);
        }
        lemma_advance_reaches(bytes, i + 1, o, end);
    }
}

/// Where the walk stops: at the last place of the line whose column is not
/// beyond the one asked for.
pub proof fn lemma_advance_stops(bytes: Seq<u8>, i: int, end: int, remaining: nat)
    requires
        0 <= i <= end <= bytes.len(),
    ensures
        i <= advance_units(bytes, i, end, remaining) <= end,
        utf16_units(bytes, i, advance_units(bytes, i, end, remaining)) <= remaining,
        advance_units(bytes, i, end, remaining) < end ==> remaining < utf16_units(
            bytes,
            i,
            advance_units(bytes, i, end, remaining) + 1,
        ),
        advance_units(bytes, i, end, remaining) < end ==> !is_continuation_byte(
            bytes[advance_units(bytes, i, end, remaining)],
        ),
    decreases end - i,
{
    if i < end && remaining >= unit_width(bytes[i]) {
        let rest = (remaining - unit_width(bytes[i])) as nat;
        lemma_advance_stops(bytes, i + 1, end, rest);
        let r = advance_units(bytes, i + 1, end, rest);
        lemma_units_split(bytes, i, i + 1, r);
        if r < end {
            lemma_units_split(bytes, i, i + 1, r + 1);
        }
        assert(utf16_units(bytes, i, i + 1) == unit_width(bytes[i])) by {
            assert(utf16_units(bytes, i, i) == 0);
        }
    } else if i < end {
        assert(utf16_units(bytes, i, i + 1) == unit_width(bytes[i])) by {
            assert(utf16_units(bytes, i, i) == 0);
        }
    }
}

/// An offset at which a code point starts, or the end of the text, is the
/// offset of its own position.
pub proof fn lemma_offset_position_round_trip(bytes: Seq<u8>, offset: int)
    requires
        is_boundary(bytes, offset),
    ensures
        offset_of_position(
            bytes,
            line_index_of(bytes, offset) as nat,
            utf16_units(bytes, line_start_of(bytes, offset), offset),
        ) == Some(offset),
        bytes.len() <= MAX_TEXT_LEN ==> offset_of_position(
            bytes,
            position_of(bytes, offset).line as nat,
            position_of(bytes, offset).character as nat,
        ) == Some(offset),
{
    let all = line_table_of(bytes);
    let part = line_starts_upto(bytes, offset);
    lemma_line_starts_upto(bytes, bytes.len() as int);
    lemma_line_starts_upto(bytes, offset);
    lemma_units_bound(bytes, part.last(), offset);
    lemma_line_starts_prefix(bytes, offset, bytes.len() as int);
    let k = part.len() - 1;
    assert(all[k] == part[k]);
    let end = line_end(all, k, bytes.len() as int);
    if k + 1 < all.len() {
        assert(all[k + 1] > offset);
        assert(all[k + 1] <= bytes.len());
    }
    lemma_advance_reaches(bytes, all[k], offset, end);
}

/// Whether `text` is short enough for its positions: not longer than
/// `MAX_TEXT_LEN`.
pub fn fits_positions(text: &str) -> (fits: bool)
    ensures
        fits == (text.spec_bytes().len() <= MAX_TEXT_LEN),
{
    text.as_bytes().len() <= MAX_TEXT_LEN
}

/// The offsets at which the lines of `text` begin.
pub fn compute_line_starts(text: &str) -> (starts: Vec<usize>)
    ensures
        is_line_table(starts@, text.spec_bytes()),
{
    let bytes = text.as_bytes();
    let mut starts: Vec<usize> = Vec::new();
    starts.push(0);
    let mut i: usize = 0;
    while i < bytes.len()
        invariant
            i <= bytes.len(),
            starts@.len() == line_starts_upto(bytes@, i as int).len(),
            forall|k: int|
                0 <= k < starts@.len() ==> #[trigger] starts@[k] as int == line_starts_upto(
                    bytes@,
                    i as int,
                )[k],
        decreases bytes.len() - i,
    {
        if bytes[i] == 0x0a {
            starts.push(i + 1);
        }
        i = i + 1;
    }
    starts
}

/// Index in `table` of the last entry that is not beyond `offset`.
fn line_index_for_offset(offset: usize, table: &[usize]) -> (k: usize)
    requires
        is_ascending_table(table@),
    ensures
        k < table.len(),
        table@[k as int] <= offset,
        k + 1 < table.len() ==> offset < table@[k + 1],
{
    let mut lo: usize = 0;
    let mut hi: usize = table.len();
    while hi - lo > 1
        invariant
            lo < hi <= table.len(),
            is_ascending_table(table@),
            table@[lo as int] <= offset,
            hi < table.len() ==> offset < table@[hi as int],
        decreases hi - lo,
    {
        let mid: usize = lo + (hi - lo) / 2;
        if table[mid] <= offset {
            lo = mid;
        } else {
            hi = mid;
        }
    }
    lo
}

/// The start of the line that holds `offset`: the greatest entry of the
/// table that is not beyond it.
pub fn line_start_for_offset(offset: usize, line_starts: &[usize]) -> (start: usize)
    requires
        is_ascending_table(line_starts@),
    ensures
        start <= offset,
        line_starts@.contains(start),
        forall|j: int|
            0 <= j < line_starts@.len() ==> #[trigger] line_starts@[j] <= start || offset
                < line_starts@[j],
{
    let k: usize = line_index_for_offset(offset, line_starts);
    proof {
        assert forall|j: int| 0 <= j < line_starts@.len() implies #[trigger] line_starts@[j]
            <= line_starts@[k as int] || offset < line_starts@[j] by {
            if j > k + 1 {
                assert(line_starts@[k + 1] < line_starts@[j]);
            }
            if j < k {
                assert(line_starts@[j] < line_starts@[k as int]);
            }
        }
    }
    line_starts[k]
}

/// The offset of `position` in `text`, or `None` when the text has no such
/// line. A column beyond the end of the line gives the end of the line; a
/// column inside a surrogate pair gives the code point that the pair writes.
pub fn position_to_offset(position: Position, text: &str, line_starts: &[usize]) -> (r: Option<
    usize,
>)
    requires
        is_line_table(line_starts@, text.spec_bytes()),
    ensures
        match r {
            Some(o) => offset_of_position(
                text.spec_bytes(),
                position.line as nat,
                position.character as nat,
            ) == Some(o as int),
            None => position.line >= line_table_of(text.spec_bytes()).len(),
        },
{
    let bytes = text.as_bytes();
    let line: usize = position.line as usize;
    if line >= line_starts.len() {
        return None;
    }
    proof {
        lemma_line_table(line_starts@, bytes@);
    }
    let start: usize = line_starts[line];
    let end: usize = if line + 1 < line_starts.len() {
        line_starts[line + 1]
    } else {
        bytes.len()
    };
    assert(end as int == line_end(line_table_of(bytes@), line as int, bytes@.len() as int));
    let mut remaining: u32 = position.character;
    let mut i: usize = start;
    while i < end
        invariant
            start <= i <= end <= bytes.len(),
            bytes@ == text.spec_bytes(),
            line == position.line,
            line < line_table_of(bytes@).len(),
            start as int == line_table_of(bytes@)[line as int],
            end as int == line_end(line_table_of(bytes@), line as int, bytes@.len() as int),
            advance_units(bytes@, i as int, end as int, remaining as nat) == advance_units(
                bytes@,
                start as int,
                end as int,
                position.character as nat,
            ),
        decreases end - i,
    {
        let b: u8 = bytes[i];
        if !(0x80 <= b && b <= 0xbf) {
            let width: u32 = if b >= 0xf0 {
                2
            } else {
                1
            };
            if remaining < width {
                return Some(i);
            }
            remaining = remaining - width;
        }
        i = i + 1;
    }
    Some(end)
}

/// The position of `offset` in `text`; an offset beyond the text counts as
/// its end.
pub fn offset_to_position(offset: usize, text: &str, line_starts: &[usize]) -> (position: Position)
    requires
        is_line_table(line_starts@, text.spec_bytes()),
        text.spec_bytes().len() <= MAX_TEXT_LEN,
    ensures
        position == position_of(
            text.spec_bytes(),
            if offset <= text.spec_bytes().len() {
                offset as int
            } else {
                text.spec_bytes().len() as int
            },
        ),
{
    let bytes = text.as_bytes();
    let clamped: usize = if offset <= bytes.len() {
        offset
    } else {
        bytes.len()
    };
    proof {
        lemma_line_table(line_starts@, bytes@);
    }
    let line: usize = line_index_for_offset(clamped, line_starts);
    let start: usize = line_starts[line];
    proof {
        assert(line_starts@[line as int] as int == line_table_of(bytes@)[line as int]);
        if line + 1 < line_starts.len() {
            assert(line_starts@[line + 1] as int == line_table_of(bytes@)[line + 1]);
        }
        lemma_line_of_offset(bytes@, clamped as int, line as int);
    }
    let mut column: u32 = 0;
    let mut i: usize = start;
    while i < clamped
        invariant
            start <= i <= clamped <= bytes.len(),
            bytes.len() <= MAX_TEXT_LEN,
            column == utf16_units(bytes@, start as int, i as int),
        decreases clamped - i,
    {
        proof {
            lemma_units_bound(bytes@, start as int, i as int);
        }
        let b: u8 = bytes[i];
        if !(0x80 <= b && b <= 0xbf) {
            column = column + (if b >= 0xf0 {
                2
            } else {
                1
            });
        }
        i = i + 1;
    }
    Position { line: line as u32, character: column }
}

/// Index of the first line feed in `s`, or the length of `s` if it has none.
pub open spec fn first_newline(s: Seq<u8>) -> int
    decreases s.len(),
{
    if s.len() == 0 {
        0
    } else if s[0] == 0x0a {
        0
    } else {
        1 + first_newline(s.skip(1))
    }
}

/// Line `k` of `s`, counted from 0, where line feeds part the lines; the
/// line feed is no part of the line.
pub open spec fn nth_line(s: Seq<u8>, k: nat) -> Option<Seq<u8>>
    decreases k,
{
    let e = first_newline(s);
    if k == 0 {
        Some(s.take(e))
    } else if e >= s.len() {
        None
    } else {
        nth_line(s.skip(e + 1), (k - 1) as nat)
    }
}

/// `line` without the carriage return that it may end with.
pub open spec fn without_carriage_return(line: Seq<u8>) -> Seq<u8> {
    if line.len() > 0 && line.last() == 0x0d {
        line.drop_last()
    } else {
        line
    }
}

/// The text of line `one_based_line`, counted from 1, without its line end.
pub open spec fn line_text_spec(s: Seq<u8>, one_based_line: nat) -> Option<Seq<u8>> {
    if one_based_line == 0 {
        None
    } else {
        match nth_line(s, (one_based_line - 1) as nat) {
            Some(line) => Some(without_carriage_return(line)),
            None => None,
        }
    }
}

/// The first line feed is the line feed that no line feed stands before.
pub proof fn lemma_first_newline(s: Seq<u8>, e: int)
    requires
        0 <= e <= s.len(),
        forall|j: int| 0 <= j < e ==> s[j] != 0x0a,
        e == s.len() || s[e] == 0x0a,
    ensures
        first_newline(s) == e,
    decreases e,
{
    if e > 0 {
        lemma_first_newline(s.skip(1), e - 1);
    }
}

/// The text of the line numbered `one_based_line`, counted from 1, without
/// the line feed or the carriage return and line feed that end it; `None`
/// for line 0 and for a line that the text does not have.
pub fn line_text_at<'a>(text: &'a str, one_based_line: u32) -> (r: Option<&'a str>)
    ensures
        match r {
            Some(line) => line_text_spec(text.spec_bytes(), one_based_line as nat) == Some(
                line.spec_bytes(),
            ),
            None => line_text_spec(text.spec_bytes(), one_based_line as nat) is None,
        },
{
    if one_based_line == 0 {
        return None;
    }
    let bytes = text.as_bytes();
    proof {
        encode_utf8_valid_utf8(text@);
    }
    let mut remaining: u32 = one_based_line - 1;
    let mut start: usize = 0;
    assert(bytes@.skip(0) =~= bytes@);
    loop
        invariant
            start <= bytes.len(),
            bytes@ == text.spec_bytes(),
            valid_utf8(bytes@),
            is_boundary(bytes@, start as int),
            nth_line(bytes@.skip(start as int), remaining as nat) == nth_line(
                bytes@,
                (one_based_line - 1) as nat,
            ),
            one_based_line > 0,
        decreases bytes.len() - start,
    {
        let mut e: usize = start;
        while e < bytes.len() && bytes[e] != 0x0a
            invariant
                start <= e <= bytes.len(),
                forall|j: int| start <= j < e ==> bytes@[j] != 0x0a,
            decreases bytes.len() - e,
        {
            e = e + 1;
        }
        let ghost rest = bytes@.skip(start as int);
        proof {
            lemma_first_newline(rest, e - start);
            if e < bytes.len() {
                lemma_ascii_boundaries(bytes@, e as int);
            }
        }
        if remaining == 0 {
            let mut end: usize = e;
            if end > start && bytes[end - 1] == 0x0d {
                end = end - 1;
                proof {
                    lemma_ascii_boundaries(bytes@, end as int);
                }
            }
            let line = slice_str(text, start, end);
            proof {
                let full = rest.take(e - start);
                assert(full =~= bytes@.subrange(start as int, e as int));
                assert(without_carriage_return(full) =~= bytes@.subrange(start as int, end as int));
            }
            return Some(line);
        }
        if e >= bytes.len() {
            return None;
        }
        assert(rest.skip(e - start + 1) =~= bytes@.skip(e + 1));
        remaining = remaining - 1;
        start = e + 1;
    }
}

/// The lines joined into one text, `line_end` between each and the next.
pub open spec fn join_lines(lines: Seq<Seq<u8>>, line_end: Seq<u8>) -> Seq<u8>
    decreases lines.len(),
{
    if lines.len() == 0 {
        Seq::empty()
    } else if lines.len() == 1 {
        lines[0]
    } else {
        lines[0] + line_end + join_lines(lines.drop_first(), line_end)
    }
}

/// A line as it stands in a text: no line feed in it, no carriage return
/// at its end.
pub open spec fn is_plain_line(line: Seq<u8>) -> bool {
    &&& forall|j: int| 0 <= j < line.len() ==> line[j] != 0x0a
    &&& !(line.len() > 0 && line.last() == 0x0d)
}

/// `line_end` is a line feed, alone or behind a carriage return.
pub open spec fn is_line_end(line_end: Seq<u8>) -> bool {
    line_end == seq![0x0au8] || line_end == seq![0x0du8, 0x0au8]
}

proof fn lemma_nth_line_of_joined(lines: Seq<Seq<u8>>, line_end: Seq<u8>, k: nat)
    requires
        lines.len() >= 1,
        forall|i: int| 0 <= i < lines.len() ==> is_plain_line(#[trigger] lines[i]),
        is_line_end(line_end),
    ensures
        k >= lines.len() ==> nth_line(join_lines(lines, line_end), k) is None,
        k < lines.len() ==> nth_line(join_lines(lines, line_end), k) is Some
            && without_carriage_return(nth_line(join_lines(lines, line_end), k).unwrap())
            == lines[k as int],
    decreases lines.len(),
{
    let joined = join_lines(lines, line_end);
    let first = lines[0];
    assert(is_plain_line(first));
    if lines.len() == 1 {
        lemma_first_newline(joined, joined.len() as int);
        assert(joined.take(joined.len() as int) =~= first);
    } else {
        let rest = lines.drop_first();
        let tail = join_lines(rest, line_end);
        assert(joined == first + line_end + tail);
        let e = first.len() + line_end.len() - 1;
        assert forall|j: int| 0 <= j < e implies joined[j] != 0x0a by {
            if j < first.len() {
                assert(joined[j] == first[j]);
            } else {
                assert(joined[j] == line_end[j - first.len()]);
            }
        }
        assert(joined[e] == line_end[line_end.len() - 1]);
        lemma_first_newline(joined, e);
        if k == 0 {
            let raw = joined.take(e);
            if line_end.len() == 2 {
                assert(raw.last() == 0x0d);
                assert(raw.drop_last() =~= first);
            } else {
                assert(raw =~= first);
            }
        } else {
            assert(joined.skip(e + 1) =~= tail);
            assert forall|i: int| 0 <= i < rest.len() implies is_plain_line(#[trigger] rest[i]) by {
                assert(rest[i] == lines[i + 1]);
            }
            lemma_nth_line_of_joined(rest, line_end, (k - 1) as nat);
            if k < lines.len() {
                assert(rest[k - 1] == lines[k as int]);
            }
        }
    }
}

/// A text whose lines end with carriage return and line feed has the same
/// line texts as the text of the same lines that end with a line feed
/// alone: the lines themselves.
pub proof fn lemma_line_ends_agree(lines: Seq<Seq<u8>>, one_based_line: nat)
    requires
        forall|i: int| 0 <= i < lines.len() ==> is_plain_line(#[trigger] lines[i]),
    ensures
        line_text_spec(join_lines(lines, seq![0x0au8]), one_based_line) == line_text_spec(
            join_lines(lines, seq![0x0du8, 0x0au8]),
            one_based_line,
        ),
        1 <= one_based_line <= lines.len() ==> line_text_spec(
            join_lines(lines, seq![0x0au8]),
            one_based_line,
        ) == Some(lines[one_based_line - 1]),
{
    if lines.len() >= 1 && one_based_line >= 1 {
        lemma_nth_line_of_joined(lines, seq![0x0au8], (one_based_line - 1) as nat);
        lemma_nth_line_of_joined(lines, seq![0x0du8, 0x0au8], (one_based_line - 1) as nat);
    }
}

} // verus!
