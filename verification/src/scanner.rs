//! Finding the `@[...]` annotations of a text.

use vstd::prelude::*;
use vstd::string::*;

verus! {

/// Where an annotation stands in its text, in byte offsets: the whole of
/// `@[...]`, and what is between the brackets.
#[derive(Clone, Copy, Debug, PartialEq, Eq, Structural)]
pub struct AnnotationSpan {
    pub full_start: usize,
    pub full_end: usize,
    pub inner_start: usize,
    pub inner_end: usize,
}

impl AnnotationSpan {
    /// `offset` lies in the annotation, brackets included.
    pub open spec fn covers(self, offset: int) -> bool {
        self.full_start <= offset < self.full_end
    }
}

/// The two bytes `@[` stand at `i`.
pub open spec fn marker_at(bytes: Seq<u8>, i: int) -> bool {
    0 <= i && i + 1 < bytes.len() && bytes[i] == 0x40 && bytes[i + 1] == 0x5b
}

/// The first place at or after `from` where `@[` stands, or the length of
/// `bytes` if there is none.
pub open spec fn next_marker(bytes: Seq<u8>, from: int) -> int
    decreases bytes.len() - from,
{
    if from >= bytes.len() {
        bytes.len() as int
    } else if marker_at(bytes, from) {
        from
    } else {
        next_marker(bytes, from + 1)
    }
}

/// The first place at or after `from` where the byte `b` stands, or the
/// length of `bytes` if there is none.
pub open spec fn next_byte(bytes: Seq<u8>, from: int, b: u8) -> int
    decreases bytes.len() - from,
{
    if from >= bytes.len() {
        bytes.len() as int
    } else if from >= 0 && bytes[from] == b {
        from
    } else {
        next_byte(bytes, from + 1, b)
    }
}

/// The annotation whose `@[` stands at `start` and whose `]` stands at `close`.
pub open spec fn span_between(start: int, close: int) -> AnnotationSpan {
    AnnotationSpan {
        full_start: start as usize,
        full_end: (close + 1) as usize,
        inner_start: (start + 2) as usize,
        inner_end: close as usize,
    }
}

/// The annotations found from `cursor` on, from left to right: each runs from
/// the next `@[` to the first `]` behind it, and the search goes on behind
/// that `]`. An `@[` that no `]` follows ends the search.
pub open spec fn annotations_from(bytes: Seq<u8>, cursor: int) -> Seq<AnnotationSpan>
    decreases bytes.len() - cursor,
    via annotations_from_decreases
{
    let start = next_marker(bytes, cursor);
    if start >= bytes.len() {
        Seq::empty()
    } else {
        let close = next_byte(bytes, start + 2, 0x5d);
        if close >= bytes.len() {
            Seq::empty()
        } else {
            seq![span_between(start, close)] + annotations_from(bytes, close + 1)
        }
    }
}

#[via_fn]
proof fn annotations_from_decreases(bytes: Seq<u8>, cursor: int) {
    let start = next_marker(bytes, cursor);
    lemma_next_marker(bytes, cursor);
    if start < bytes.len() {
        lemma_next_byte(bytes, start + 2, 0x5d);
    }
}

/// The annotations of a text.
pub open spec fn annotations_of(bytes: Seq<u8>) -> Seq<AnnotationSpan> {
    annotations_from(bytes, 0)
}

/// `span` is an annotation in `bytes`: it opens with `@[`, closes with the
/// first `]` behind that, and its four offsets say so.
pub open spec fn is_annotation(bytes: Seq<u8>, span: AnnotationSpan) -> bool {
    &&& marker_at(bytes, span.full_start as int)
    &&& span.inner_start == span.full_start + 2
    &&& span.inner_start <= span.inner_end < bytes.len()
    &&& bytes[span.inner_end as int] == 0x5d
    &&& span.full_end == span.inner_end + 1
    &&& forall|j: int| span.inner_start <= j < span.inner_end ==> bytes[j] != 0x5d
}

/// `next_marker` gives a place where `@[` stands, and none stands between
/// `from` and it.
pub proof fn lemma_next_marker(bytes: Seq<u8>, from: int)
    ensures
        from <= bytes.len() ==> from <= next_marker(bytes, from) <= bytes.len(),
        next_marker(bytes, from) < bytes.len() ==> marker_at(bytes, next_marker(bytes, from)),
        forall|j: int| from <= j < next_marker(bytes, from) ==> !marker_at(bytes, j),
    decreases bytes.len() - from,
{
    if from < bytes.len() && !marker_at(bytes, from) {
        lemma_next_marker(bytes, from + 1);
    }
}

/// `next_byte` gives a place where `b` stands, and none stands between
/// `from` and it.
pub proof fn lemma_next_byte(bytes: Seq<u8>, from: int, b: u8)
    ensures
        from <= bytes.len() ==> from <= next_byte(bytes, from, b) <= bytes.len(),
        0 <= next_byte(bytes, from, b) < bytes.len() ==> bytes[next_byte(bytes, from, b)] == b,
        forall|j: int| 0 <= from <= j < next_byte(bytes, from, b) ==> bytes[j] != b,
    decreases bytes.len() - from,
{
    if from < bytes.len() && !(from >= 0 && bytes[from] == b) {
        lemma_next_byte(bytes, from + 1, b);
    }
}

/// What is found is an annotation, and the annotations stand one behind the
/// other.
pub proof fn lemma_annotations_from(bytes: Seq<u8>, cursor: int)
    requires
        0 <= cursor,
        bytes.len() <= usize::MAX,
    ensures
        forall|k: int|
            0 <= k < annotations_from(bytes, cursor).len() ==> is_annotation(
                bytes,
                #[trigger] annotations_from(bytes, cursor)[k],
            ) && cursor <= annotations_from(bytes, cursor)[k].full_start,
        forall|i: int, j: int|
            0 <= i < j < annotations_from(bytes, cursor).len() ==> annotations_from(
                bytes,
                cursor,
            )[i].full_end <= annotations_from(bytes, cursor)[j].full_start,
    decreases bytes.len() - cursor,
{
    let start = next_marker(bytes, cursor);
    lemma_next_marker(bytes, cursor);
    if start < bytes.len() {
        let close = next_byte(bytes, start + 2, 0x5d);
        lemma_next_byte(bytes, start + 2, 0x5d);
        if close < bytes.len() {
            lemma_annotations_from(bytes, close + 1);
            let rest = annotations_from(bytes, close + 1);
            let all = annotations_from(bytes, cursor);
            assert(all[0] == span_between(start, close));
            assert forall|k: int| 0 <= k < all.len() implies is_annotation(bytes, #[trigger] all[k])
                && cursor <= all[k].full_start by {
                if k > 0 {
                    assert(all[k] == rest[k - 1]);
                }
            }
            assert forall|i: int, j: int| 0 <= i < j < all.len() implies all[i].full_end
                <= all[j].full_start by {
                assert(all[j] == rest[j - 1]);
                if i > 0 {
                    assert(all[i] == rest[i - 1]);
                }
            }
        }
    }
}

fn find_marker(bytes: &[u8], from: usize) -> (at: usize)
    requires
        from <= bytes.len(),
    ensures
        at == next_marker(bytes@, from as int),
        from <= at <= bytes.len(),
{
    let mut i: usize = from;
    while i < bytes.len()
        invariant
            from <= i <= bytes.len(),
            next_marker(bytes@, i as int) == next_marker(bytes@, from as int),
        decreases bytes.len() - i,
    {
        if bytes[i] == 0x40 && i + 1 < bytes.len() && bytes[i + 1] == 0x5b {
            return i;
        }
        i = i + 1;
    }
    i
}

/// The first place at or after `from` where `b` stands in `bytes[..hi]`, or
/// `hi` if there is none.
pub fn find_byte(bytes: &[u8], from: usize, hi: usize, b: u8) -> (at: usize)
    requires
        from <= hi <= bytes.len(),
    ensures
        at == next_byte(bytes@.take(hi as int), from as int, b),
        from <= at <= hi,
        at < hi ==> bytes@[at as int] == b,
        forall|j: int| from <= j < at ==> bytes@[j] != b,
{
    let mut i: usize = from;
    while i < hi
        invariant
            from <= i <= hi <= bytes.len(),
            next_byte(bytes@.take(hi as int), i as int, b) == next_byte(
                bytes@.take(hi as int),
                from as int,
                b,
            ),
            forall|j: int| from <= j < i ==> bytes@[j] != b,
        decreases hi - i,
    {
        if bytes[i] == b {
            return i;
        }
        i = i + 1;
    }
    i
}

/// The annotations of `text`, from left to right.
pub fn find_annotations(text: &str) -> (spans: Vec<AnnotationSpan>)
    ensures
        spans@ == annotations_of(text.spec_bytes()),
        forall|k: int| 0 <= k < spans@.len() ==> is_annotation(text.spec_bytes(), #[trigger] spans@[k]),
        forall|i: int, j: int|
            0 <= i < j < spans@.len() ==> spans@[i].full_end <= spans@[j].full_start,
{
    let bytes = text.as_bytes();
    let mut spans: Vec<AnnotationSpan> = Vec::new();
    let mut cursor: usize = 0;
    assert(bytes@.take(bytes@.len() as int) =~= bytes@);
    loop
        invariant
            cursor <= bytes.len(),
            bytes@.take(bytes@.len() as int) == bytes@,
            spans@ + annotations_from(bytes@, cursor as int) == annotations_from(bytes@, 0),
        ensures
            spans@ == annotations_from(bytes@, 0),
        decreases bytes.len() - cursor,
    {
        let start: usize = find_marker(bytes, cursor);
        proof {
            lemma_next_marker(bytes@, cursor as int);
        }
        if start >= bytes.len() {
            assert(spans@ + Seq::<AnnotationSpan>::empty() =~= spans@);
            break ;
        }
        let close: usize = find_byte(bytes, start + 2, bytes.len(), 0x5d);
        if close >= bytes.len() {
            assert(spans@ + Seq::<AnnotationSpan>::empty() =~= spans@);
            break ;
        }
        let span = AnnotationSpan {
            full_start: start,
            full_end: close + 1,
            inner_start: start + 2,
            inner_end: close,
        };
        proof {
            assert(span == span_between(start as int, close as int));
            assert(spans@.push(span) + annotations_from(bytes@, close + 1) =~= spans@
                + annotations_from(bytes@, cursor as int));
        }
        spans.push(span);
        cursor = close + 1;
    }
    proof {
        lemma_annotations_from(bytes@, 0);
    }
    spans
}

/// The first of `spans` that `offset` lies in.
pub open spec fn first_covering(spans: Seq<AnnotationSpan>, offset: int) -> Option<AnnotationSpan>
    decreases spans.len(),
{
    if spans.len() == 0 {
        None
    } else if spans[0].covers(offset) {
        Some(spans[0])
    } else {
        first_covering(spans.drop_first(), offset)
    }
}

/// The annotation of a text that `offset` lies in.
pub open spec fn annotation_at(bytes: Seq<u8>, offset: int) -> Option<AnnotationSpan> {
    first_covering(annotations_of(bytes), offset)
}

/// The annotation that `offset` lies in, if it lies in one: the brackets
/// count as part of the annotation.
pub fn find_annotation_at_offset(text: &str, offset: usize) -> (r: Option<AnnotationSpan>)
    ensures
        r == annotation_at(text.spec_bytes(), offset as int),
        r matches Some(span) ==> span.covers(offset as int) && is_annotation(
            text.spec_bytes(),
            span,
        ),
{
    let spans = find_annotations(text);
    let mut k: usize = 0;
    assert(spans@.skip(0) =~= spans@);
    while k < spans.len()
        invariant
            k <= spans@.len(),
            spans@ == annotations_of(text.spec_bytes()),
            forall|i: int|
                0 <= i < spans@.len() ==> is_annotation(text.spec_bytes(), #[trigger] spans@[i]),
            first_covering(spans@.skip(k as int), offset as int) == first_covering(
                spans@,
                offset as int,
            ),
        decreases spans@.len() - k,
    {
        let span = spans[k];
        assert(spans@.skip(k as int)[0] == span);
        if offset >= span.full_start && offset < span.full_end {
            return Some(span);
        }
        assert(spans@.skip(k as int).drop_first() =~= spans@.skip(k + 1));
        k = k + 1;
    }
    None
}

} // verus!
