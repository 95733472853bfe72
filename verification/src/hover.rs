//! What a hover shows for an annotation: the source line that a locator
//! points at, a line of carets under its columns, and the locator's text.

use vstd::prelude::*;
use vstd::string::*;
use vstd::utf8::*;
use crate::encoding::{push_str, text_of};
use crate::links::locators_of;
use crate::locator::{
    format_locator, format_locator_spec, parse_tokens_from_annotation, same_tokens, tokens_of,
    Locator, LocatorModel, ParsedToken, TokenModel,
};
use crate::scanner::{annotation_at, find_annotation_at_offset, is_annotation, AnnotationSpan};
use crate::text_index::{
    compute_line_starts, is_line_table, lemma_line_starts_upto, lemma_line_table,
    line_start_for_offset, line_table_of, offset_of_position, offset_to_position,
    position_to_offset, range_of, Position, Range, MAX_TEXT_LEN,
};

verus! {

/// The byte `b` with an ASCII capital made small.
pub open spec fn ascii_lower(b: u8) -> u8 {
    if 0x41 <= b <= 0x5a {
        (b + 0x20) as u8
    } else {
        b
    }
}

/// `path` ends with the ASCII text `suffix`, capitals counting as small
/// letters.
pub open spec fn has_extension(path: Seq<u8>, suffix: Seq<char>) -> bool {
    &&& path.len() >= suffix.len()
    &&& forall|i: int|
        0 <= i < suffix.len() ==> ascii_lower(#[trigger] path[path.len() - suffix.len() + i])
            == suffix[i] as u8
}

/// The language tag for a path, by its extension; `text` where none is
/// known.
pub open spec fn language_of(path: Seq<u8>) -> Seq<char> {
    if has_extension(path, ".scala"@) {
        "scala"@
    } else if has_extension(path, ".fir"@) || has_extension(path, ".firrtl"@) {
        "firrtl"@
    } else if has_extension(path, ".rs"@) {
        "rust"@
    } else if has_extension(path, ".py"@) {
        "python"@
    } else if has_extension(path, ".sv"@) || has_extension(path, ".svh"@) || has_extension(
        path,
        ".v"@,
    ) {
        "verilog"@
    } else {
        "text"@
    }
}

/// Whether `path` ends with `suffix`, capitals counting as small letters.
fn ends_with_extension(path: &[u8], suffix: &str) -> (r: bool)
    requires
        is_ascii_chars(suffix@),
    ensures
        r == has_extension(path@, suffix@),
{
    let tail = suffix.as_bytes();
    proof {
        is_ascii_chars_encode_utf8(suffix@);
    }
    if path.len() < tail.len() {
        return false;
    }
    let shift: usize = path.len() - tail.len();
    let mut i: usize = 0;
    while i < tail.len()
        invariant
            i <= tail.len(),
            shift + tail.len() == path.len(),
            tail@ == encode_utf8(suffix@),
            tail@.len() == suffix@.len(),
            forall|k: int|
                #![trigger suffix@[k]]
                0 <= k < suffix@.len() ==> suffix@[k] as u8 == tail@[k],
            forall|k: int|
                0 <= k < i ==> ascii_lower(#[trigger] path@[shift + k]) == suffix@[k] as u8,
        decreases tail.len() - i,
    {
        let b: u8 = path[shift + i];
        let small: u8 = if 0x41 <= b && b <= 0x5a {
            b + 0x20
        } else {
            b
        };
        if small != tail[i] {
            assert(ascii_lower(path@[path@.len() - suffix@.len() + i]) != suffix@[i as int] as u8);
            return false;
        }
        i = i + 1;
    }
    true
}

/// The language tag under which a file of this path is shown, chosen by the
/// path's extension without regard to case: `scala`, `firrtl`, `rust`,
/// `python`, `verilog`, and `text` for every other path.
pub fn markdown_language_from_path(path: &str) -> (tag: &'static str)
    ensures
        tag@ == language_of(path.spec_bytes()),
{
    let bytes = path.as_bytes();
    proof {
        reveal_strlit(".scala");
        reveal_strlit(".fir");
        reveal_strlit(".firrtl");
        reveal_strlit(".rs");
        reveal_strlit(".py");
        reveal_strlit(".sv");
        reveal_strlit(".svh");
        reveal_strlit(".v");
    }
    if ends_with_extension(bytes, ".scala") {
        "scala"
    } else if ends_with_extension(bytes, ".fir") || ends_with_extension(bytes, ".firrtl") {
        "firrtl"
    } else if ends_with_extension(bytes, ".rs") {
        "rust"
    } else if ends_with_extension(bytes, ".py") {
        "python"
    } else if ends_with_extension(bytes, ".sv") || ends_with_extension(bytes, ".svh")
        || ends_with_extension(bytes, ".v") {
        "verilog"
    } else {
        "text"
    }
}

/// The greatest of the columns, 0 if there is none.
pub open spec fn widest_column(columns: Seq<u32>) -> nat
    decreases columns.len(),
{
    if columns.len() == 0 {
        0
    } else if columns.last() > widest_column(columns.drop_last()) {
        columns.last() as nat
    } else {
        widest_column(columns.drop_last())
    }
}

/// The mark that stands under place `i` of `line`, counted from 0: a caret
/// where a column points, else a tab under a tab, else a blank.
pub open spec fn mark_at(line: Seq<char>, columns: Seq<u32>, i: int) -> char {
    if exists|k: int| 0 <= k < columns.len() && columns[k] == i + 1 {
        '^'
    } else if i < line.len() && line[i] == '\t' {
        '\t'
    } else {
        ' '
    }
}

/// The line of marks for `columns` under `line`: it ends with the caret of
/// the greatest column; when no column is above 0 it is one caret.
pub open spec fn indicator_line(line: Seq<char>, columns: Seq<u32>) -> Seq<char> {
    if widest_column(columns) == 0 {
        seq!['^']
    } else {
        Seq::new(widest_column(columns), |i: int| mark_at(line, columns, i))
    }
}

/// The widest column is one of the columns, and none is wider.
proof fn lemma_widest_column(columns: Seq<u32>)
    ensures
        widest_column(columns) <= u32::MAX,
        forall|k: int| 0 <= k < columns.len() ==> #[trigger] columns[k] <= widest_column(columns),
        widest_column(columns) > 0 ==> exists|k: int|
            0 <= k < columns.len() && columns[k] == widest_column(columns),
    decreases columns.len(),
{
    if columns.len() > 0 {
        let front = columns.drop_last();
        lemma_widest_column(front);
        assert forall|k: int| 0 <= k < columns.len() implies #[trigger] columns[k]
            <= widest_column(columns) by {
            if k < front.len() {
                assert(front[k] == columns[k]);
            }
        }
        if widest_column(columns) > 0 {
            if columns.last() > widest_column(front) {
                assert(columns[columns.len() - 1] == widest_column(columns));
            } else {
                let k = choose|k: int| 0 <= k < front.len() && front[k] == widest_column(front);
                assert(columns[k] == widest_column(columns));
            }
        }
    }
}

/// The marks of `line` as bytes: blank, tab or caret at each place.
fn indicator_marks(source_line: &str, columns: &[u32], width: usize) -> (marks: Vec<u8>)
    requires
        width == widest_column(columns@),
        width > 0,
    ensures
        marks@.len() == width,
        forall|i: int|
            0 <= i < width ==> #[trigger] marks@[i] == mark_at(source_line@, columns@, i) as u8,
{
    let mut marks: Vec<u8> = Vec::new();
    for c in it: source_line.chars()
        invariant
            it.seq() == source_line@,
            marks@.len() <= width,
            marks@.len() <= it.index(),
            marks@.len() < width ==> marks@.len() == it.index(),
            forall|i: int|
                0 <= i < marks@.len() ==> #[trigger] marks@[i] == (if source_line@[i] == '\t' {
                    0x09u8
                } else {
                    0x20u8
                }),
    {
        if marks.len() < width {
            marks.push(
                if c == '\t' {
                    0x09
                } else {
                    0x20
                },
            );
        }
    }
    while marks.len() < width
        invariant
            marks@.len() <= width,
            marks@.len() < width ==> marks@.len() >= source_line@.len(),
            forall|i: int|
                0 <= i < marks@.len() ==> #[trigger] marks@[i] == (if i < source_line@.len()
                    && source_line@[i] == '\t' {
                    0x09u8
                } else {
                    0x20u8
                }),
        decreases width - marks@.len(),
    {
        marks.push(0x20);
    }
    let mut k: usize = 0;
    while k < columns.len()
        invariant
            k <= columns@.len(),
            marks@.len() == width,
            width == widest_column(columns@),
            forall|i: int|
                0 <= i < width ==> #[trigger] marks@[i] == (if exists|j: int|
                    0 <= j < k && columns@[j] == i + 1 {
                    0x5eu8
                } else if i < source_line@.len() && source_line@[i] == '\t' {
                    0x09u8
                } else {
                    0x20u8
                }),
        decreases columns@.len() - k,
    {
        let column: u32 = columns[k];
        proof {
            lemma_widest_column(columns@);
        }
        if column != 0 {
            let at: usize = (column - 1) as usize;
            let ghost before = marks@;
            marks.set(at, 0x5e);
            assert forall|i: int| 0 <= i < width implies #[trigger] marks@[i] == (if exists|j: int|
                0 <= j < k + 1 && columns@[j] == i + 1 {
                0x5eu8
            } else if i < source_line@.len() && source_line@[i] == '\t' {
                0x09u8
            } else {
                0x20u8
            }) by {
                if i == at {
                    assert(columns@[k as int] == i + 1);
                } else {
                    assert(marks@[i] == before[i]);
                    if exists|j: int| 0 <= j < k + 1 && columns@[j] == i + 1 {
                        let j = choose|j: int| 0 <= j < k + 1 && columns@[j] == i + 1;
                        assert(j < k);
                    }
                }
            }
        } else {
            assert forall|i: int| 0 <= i < width implies #[trigger] marks@[i] == (if exists|j: int|
                0 <= j < k + 1 && columns@[j] == i + 1 {
                0x5eu8
            } else if i < source_line@.len() && source_line@[i] == '\t' {
                0x09u8
            } else {
                0x20u8
            }) by {
                if exists|j: int| 0 <= j < k + 1 && columns@[j] == i + 1 {
                    let j = choose|j: int| 0 <= j < k + 1 && columns@[j] == i + 1;
                    assert(j < k);
                }
            }
        }
        k = k + 1;
    }
    marks
}

/// The line that is shown under `source_line` to point at `columns`, which
/// count code points from 1: a caret under each column above 0, a tab under
/// each tab of the source line so that both lines stay in step, blanks
/// elsewhere, and nothing behind the last caret. Columns beyond the end of
/// the source line are reached with blanks. With no column above 0 the line
/// is a single caret.
pub fn build_column_indicator_line(source_line: &str, columns: &[u32]) -> (line: String)
    ensures
        line@ == indicator_line(source_line@, columns@),
{
    let mut widest: u32 = 0;
    let mut k: usize = 0;
    while k < columns.len()
        invariant
            k <= columns@.len(),
            widest == widest_column(columns@.take(k as int)),
        decreases columns@.len() - k,
    {
        proof {
            assert(columns@.take(k + 1).drop_last() =~= columns@.take(k as int));
        }
        if columns[k] > widest {
            widest = columns[k];
        }
        k = k + 1;
    }
    assert(columns@.take(k as int) =~= columns@);
    let mut out = String::new();
    if widest == 0 {
        proof {
            reveal_strlit("^");
        }
        push_str(&mut out, "^");
        assert(out@ =~= seq!['^']);
        return out;
    }
    let width: usize = widest as usize;
    let marks = indicator_marks(source_line, columns, width);
    let mut i: usize = 0;
    while i < width
        invariant
            i <= width,
            marks@.len() == width,
            width == widest_column(columns@),
            out@.len() == i,
            forall|j: int|
                0 <= j < width ==> #[trigger] marks@[j] == mark_at(source_line@, columns@, j) as u8,
            forall|j: int| 0 <= j < i ==> #[trigger] out@[j] == mark_at(source_line@, columns@, j),
        decreases width - i,
    {
        let mark: u8 = marks[i];
        let ghost before = out@;
        proof {
            reveal_strlit("^");
            reveal_strlit("\t");
            reveal_strlit(" ");
        }
        if mark == 0x5e {
            push_str(&mut out, "^");
        } else if mark == 0x09 {
            push_str(&mut out, "\t");
        } else {
            push_str(&mut out, " ");
        }
        assert(out@ =~= before.push(mark_at(source_line@, columns@, i as int)));
        i = i + 1;
    }
    assert(out@ =~= indicator_line(source_line@, columns@));
    out
}

/// Where the summary region of an annotation begins: three bytes before
/// its `@[` when `// ` stands there, two bytes before when `//` stands
/// there, else at the `@[`.
pub open spec fn summary_start(bytes: Seq<u8>, at: int) -> int {
    if at >= 3 && bytes[at - 3] == 0x2f && bytes[at - 2] == 0x2f && bytes[at - 1] == 0x20 {
        at - 3
    } else if at >= 2 && bytes[at - 2] == 0x2f && bytes[at - 1] == 0x2f {
        at - 2
    } else {
        at
    }
}

/// The region of `annotation` that stands for the annotation as a whole:
/// its `@[`, and with it the `// ` or `//` that stands right before it.
/// Such a comment marker is always on the line of the `@[`.
pub fn summary_hover_byte_range(
    text: &str,
    annotation: &AnnotationSpan,
    line_starts: &[usize],
) -> (r: (usize, usize))
    requires
        is_annotation(text.spec_bytes(), *annotation),
        is_line_table(line_starts@, text.spec_bytes()),
    ensures
        r.0 == summary_start(text.spec_bytes(), annotation.full_start as int),
        r.1 == annotation.full_start + 2,
        r.0 <= r.1 <= text.spec_bytes().len(),
{
    let bytes = text.as_bytes();
    let at: usize = annotation.full_start;
    proof {
        lemma_line_table(line_starts@, bytes@);
        lemma_line_starts_upto(bytes@, bytes@.len() as int);
    }
    let line_start: usize = line_start_for_offset(at, line_starts);
    proof {
        let k = choose|k: int| 0 <= k < line_starts@.len() && line_starts@[k] == line_start;
        assert(line_starts@[k] as int == line_table_of(bytes@)[k]);
        if k >= 1 {
            assert(bytes@[line_start - 1] == 0x0a);
        }
    }
    if at >= 3 {
        let start: usize = at - 3;
        if bytes[start] == 0x2f && bytes[start + 1] == 0x2f && bytes[start + 2] == 0x20 {
            assert(start >= line_start);
            if start >= line_start {
                return (start, at + 2);
            }
        }
    }
    if at >= 2 {
        let start: usize = at - 2;
        if bytes[start] == 0x2f && bytes[start + 1] == 0x2f {
            assert(start >= line_start);
            if start >= line_start {
                return (start, at + 2);
            }
        }
    }
    (at, at + 2)
}

/// What a hover shows: Markdown text, and the range of the document that
/// it speaks of.
#[derive(Clone, Debug)]
pub struct Hover {
    pub contents: String,
    pub range: Range,
}

/// What a hover query points at.
#[derive(Clone, Debug)]
pub enum HoverTarget {
    /// The opening of an annotation: all its tokens are shown, and `range`
    /// is the summary region.
    Summary { tokens: Vec<ParsedToken>, range: Range },
    /// One token of an annotation.
    Token { token: ParsedToken },
}

/// What a hover query points at, as a choice among the annotation's tokens.
pub enum HoverChoice {
    Nothing,
    Summary,
    Token(int),
}

/// The annotation that `position` lies in.
pub open spec fn hover_annotation(bytes: Seq<u8>, position: Position) -> Option<AnnotationSpan> {
    match offset_of_position(bytes, position.line as nat, position.character as nat) {
        Some(offset) => annotation_at(bytes, offset),
        None => None,
    }
}

/// The tokens of the annotation `span`.
pub open spec fn span_tokens(bytes: Seq<u8>, span: AnnotationSpan) -> Seq<TokenModel> {
    tokens_of(bytes.subrange(span.inner_start as int, span.inner_end as int))
}

/// Index of the first of `tokens` whose text holds the offset `at`, or
/// their number if none does.
pub open spec fn token_index_at(tokens: Seq<TokenModel>, at: int) -> int
    decreases tokens.len(),
{
    if tokens.len() == 0 {
        0
    } else if tokens[0].start <= at < tokens[0].end {
        0
    } else {
        1 + token_index_at(tokens.drop_first(), at)
    }
}

/// What a hover at `position` shows: all tokens of the annotation when the
/// position lies in its summary region and it has tokens, else the token
/// that the position lies in, else nothing.
pub open spec fn hover_choice(bytes: Seq<u8>, position: Position) -> HoverChoice {
    match hover_annotation(bytes, position) {
        Some(span) => {
            let offset = offset_of_position(
                bytes,
                position.line as nat,
                position.character as nat,
            ).unwrap();
            let tokens = span_tokens(bytes, span);
            if summary_start(bytes, span.full_start as int) <= offset < span.full_start + 2 {
                if tokens.len() == 0 {
                    HoverChoice::Nothing
                } else {
                    HoverChoice::Summary
                }
            } else {
                let k = token_index_at(tokens, offset - span.inner_start);
                if k < tokens.len() {
                    HoverChoice::Token(k)
                } else {
                    HoverChoice::Nothing
                }
            }
        },
        None => HoverChoice::Nothing,
    }
}

/// What a hover query at `position` in `text` points at: the annotation as
/// a whole when the position lies in its summary region, one token when it
/// lies in that token's text, and nothing anywhere else.
pub fn hover_target(text: &str, position: Position) -> (r: Option<HoverTarget>)
    requires
        text.spec_bytes().len() <= MAX_TEXT_LEN,
    ensures
        match r {
            Some(HoverTarget::Summary { tokens, range }) => {
                let span = hover_annotation(text.spec_bytes(), position).unwrap();
                &&& hover_choice(text.spec_bytes(), position) is Summary
                &&& same_tokens(
                    tokens@,
                    text.spec_bytes(),
                    span.inner_start as int,
                    span_tokens(text.spec_bytes(), span),
                )
                &&& range == range_of(
                    text.spec_bytes(),
                    summary_start(text.spec_bytes(), span.full_start as int),
                    span.full_start + 2,
                )
            },
            Some(HoverTarget::Token { token }) => {
                let span = hover_annotation(text.spec_bytes(), position).unwrap();
                &&& hover_choice(text.spec_bytes(), position) matches HoverChoice::Token(k)
                &&& token.writes(
                    text.spec_bytes(),
                    span.inner_start as int,
                    span_tokens(text.spec_bytes(), span)[k],
                )
            },
            None => hover_choice(text.spec_bytes(), position) is Nothing,
        },
{
    let line_starts = compute_line_starts(text);
    let offset: usize = match position_to_offset(position, text, line_starts.as_slice()) {
        Some(o) => o,
        None => {
            return None;
        },
    };
    let annotation = match find_annotation_at_offset(text, offset) {
        Some(a) => a,
        None => {
            return None;
        },
    };
    let mut tokens = parse_tokens_from_annotation(text, &annotation, line_starts.as_slice());
    let ghost models = span_tokens(text.spec_bytes(), annotation);
    let (start, end) = summary_hover_byte_range(text, &annotation, line_starts.as_slice());
    if offset >= start && offset < end {
        if tokens.len() == 0 {
            return None;
        }
        let range = Range {
            start: offset_to_position(start, text, line_starts.as_slice()),
            end: offset_to_position(end, text, line_starts.as_slice()),
        };
        return Some(HoverTarget::Summary { tokens, range });
    }
    let mut k: usize = 0;
    assert(models.skip(0) =~= models);
    while k < tokens.len()
        invariant
            k <= tokens@.len(),
            models == span_tokens(text.spec_bytes(), annotation),
            hover_annotation(text.spec_bytes(), position) == Some(annotation),
            offset_of_position(
                text.spec_bytes(),
                position.line as nat,
                position.character as nat,
            ) == Some(offset as int),
            !(summary_start(text.spec_bytes(), annotation.full_start as int) <= offset
                < annotation.full_start + 2),
            same_tokens(tokens@, text.spec_bytes(), annotation.inner_start as int, models),
            k + token_index_at(models.skip(k as int), offset - annotation.inner_start)
                == token_index_at(models, offset - annotation.inner_start),
        decreases tokens@.len() - k,
    {
        assert(models.skip(k as int)[0] == models[k as int]);
        assert(tokens@[k as int].writes(
            text.spec_bytes(),
            annotation.inner_start as int,
            models[k as int],
        ));
        if offset >= tokens[k].byte_start && offset < tokens[k].byte_end {
            let token = tokens.remove(k);
            return Some(HoverTarget::Token { token });
        }
        assert(models.skip(k as int).drop_first() =~= models.skip(k + 1));
        k = k + 1;
    }
    assert(models.skip(k as int) =~= Seq::<TokenModel>::empty());
    None
}

/// A fenced block: the language tag, the source line, and the line of
/// marks under it.
pub open spec fn block_text(language: Seq<char>, source_line: Seq<char>, marks: Seq<char>) -> Seq<
    char,
> {
    "```"@ + language + "\n"@ + source_line + "\n"@ + marks + "\n```"@
}

/// The fenced block for a locator whose source line is `source_line`; a
/// line that could not be read is shown as a notice.
pub open spec fn locator_block(locator: LocatorModel, source_line: Option<Seq<char>>) -> Seq<
    char,
> {
    let shown = match source_line {
        Some(line) => line,
        None => "<source line unavailable>"@,
    };
    block_text(language_of(locator.path), shown, indicator_line(shown, locator.columns))
}

/// The blocks of all the locators, a line feed between one and the next.
pub open spec fn summary_text(
    locators: Seq<LocatorModel>,
    source_lines: Seq<Option<Seq<char>>>,
) -> Seq<char>
    decreases locators.len(),
{
    if locators.len() == 0 {
        Seq::empty()
    } else if locators.len() == 1 {
        locator_block(locators[0], source_lines[0])
    } else {
        summary_text(locators.drop_last(), source_lines.drop_last()) + "\n"@ + locator_block(
            locators.last(),
            source_lines.last(),
        )
    }
}

/// The texts of `lines`.
pub open spec fn texts_of(lines: Seq<Option<String>>) -> Seq<Option<Seq<char>>> {
    Seq::new(lines.len(), |k: int| text_of(lines[k]))
}

/// The fenced block that shows what `locator` points at: the source line it
/// names, or a notice when `source_line` is `None`, and under it the line of
/// carets for its columns.
pub fn token_block(locator: &Locator, source_line: Option<&str>) -> (block: String)
    ensures
        block@ == locator_block(
            locator@,
            match source_line {
                Some(line) => Some(line@),
                None => None,
            },
        ),
{
    let shown: &str = match source_line {
        Some(line) => line,
        None => "<source line unavailable>",
    };
    let language = markdown_language_from_path(locator.path.as_str());
    let marks = build_column_indicator_line(shown, locator.columns.as_slice());
    let mut out = String::new();
    push_str(&mut out, "```");
    push_str(&mut out, language);
    push_str(&mut out, "\n");
    push_str(&mut out, shown);
    push_str(&mut out, "\n");
    push_str(&mut out, marks.as_str());
    push_str(&mut out, "\n```");
    assert(out@ =~= block_text(language@, shown@, marks@));
    out
}

/// The hover for the opening of an annotation with the tokens `tokens`,
/// where `source_lines` holds for each token the source line it points at,
/// or `None` where that line could not be read: one block for each token.
/// `None` when there is no token.
pub fn render_summary(tokens: &[ParsedToken], source_lines: &[Option<String>], range: Range) -> (r:
    Option<Hover>)
    requires
        source_lines@.len() == tokens@.len(),
    ensures
        match r {
            Some(hover) => {
                &&& tokens@.len() > 0
                &&& hover.contents@ == summary_text(locators_of(tokens@), texts_of(source_lines@))
                &&& hover.range == range
            },
            None => tokens@.len() == 0,
        },
{
    if tokens.len() == 0 {
        return None;
    }
    let ghost locators = locators_of(tokens@);
    let ghost lines = texts_of(source_lines@);
    let mut out = String::new();
    let mut i: usize = 0;
    assert(out@ =~= Seq::<char>::empty());
    while i < tokens.len()
        invariant
            i <= tokens@.len(),
            source_lines@.len() == tokens@.len(),
            locators == locators_of(tokens@),
            lines == texts_of(source_lines@),
            out@ == summary_text(locators.take(i as int), lines.take(i as int)),
        decreases tokens@.len() - i,
    {
        let block = match &source_lines[i] {
            Some(line) => token_block(&tokens[i].locator, Some(line.as_str())),
            None => token_block(&tokens[i].locator, None),
        };
        proof {
            assert(locators.take(i + 1).drop_last() =~= locators.take(i as int));
            assert(lines.take(i + 1).drop_last() =~= lines.take(i as int));
            assert(locators.take(i + 1).last() == tokens@[i as int].locator@);
            assert(lines.take(i + 1).last() == text_of(source_lines@[i as int]));
            assert(locators.take(i + 1)[0] == locators[0]);
            assert(lines.take(i + 1)[0] == lines[0]);
        }
        if i > 0 {
            push_str(&mut out, "\n");
        }
        push_str(&mut out, block.as_str());
        assert(out@ =~= summary_text(locators.take(i + 1), lines.take(i + 1)));
        i = i + 1;
    }
    assert(locators.take(i as int) =~= locators);
    assert(lines.take(i as int) =~= lines);
    Some(Hover { contents: out, range })
}

/// The hover for one token: the block for its locator, and under it the
/// locator's text. `source_line` is the source line that the locator points
/// at, or `None` when it could not be read.
pub fn render_token(token: &ParsedToken, source_line: Option<&str>) -> (hover: Hover)
    ensures
        hover.contents@ == locator_block(
            token.locator@,
            match source_line {
                Some(line) => Some(line@),
                None => None,
            },
        ) + "\n"@ + decode_utf8(format_locator_spec(token.locator@)),
        hover.range == token.range,
{
    let mut out = token_block(&token.locator, source_line);
    let written = format_locator(&token.locator);
    proof {
        encode_utf8_decode_utf8(written@);
    }
    push_str(&mut out, "\n");
    push_str(&mut out, written.as_str());
    Hover { contents: out, range: token.range }
}

} // verus!
