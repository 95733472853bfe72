//! Jump targets: the places that the locators of an annotation point at.

use vstd::prelude::*;
use vstd::string::*;
use crate::encoding::str_equal;
use vstd::utf8::*;
use crate::locator::{
    parse_tokens_from_annotation, same_tokens, tokens_of, LocatorModel, ParsedToken, TokenModel,
};
use crate::resolver::{resolve_spec, resolve_target_url};
use crate::scanner::{annotation_at, find_annotation_at_offset};
use crate::text_index::{
    compute_line_starts, offset_of_position, position_to_offset, Position, Range, MAX_TEXT_LEN,
};

verus! {

/// A jump target: a file, and in it a range of one character, which is
/// both the target and what is selected there. No origin range is given.
#[derive(Clone, Debug)]
pub struct LocationLink {
    pub origin_selection_range: Option<Range>,
    pub target_uri: String,
    pub target_range: Range,
    pub target_selection_range: Range,
}

/// What tells one jump target from another: the file, and the line and
/// column in it, both counted from 0.
pub struct LinkKey {
    pub uri: Seq<char>,
    pub line: u32,
    pub column: u32,
}

/// The range of the one character at `line` and `column`.
pub open spec fn one_character(line: u32, column: u32) -> Range {
    Range {
        start: Position { line, character: column },
        end: Position {
            line,
            character: if column < u32::MAX {
                (column + 1) as u32
            } else {
                column
            },
        },
    }
}

impl LocationLink {
    /// This link is the jump target that `key` tells.
    pub open spec fn points_at(self, key: LinkKey) -> bool {
        &&& self.origin_selection_range is None
        &&& self.target_uri@ == key.uri
        &&& self.target_range == one_character(key.line, key.column)
        &&& self.target_selection_range == self.target_range
    }
}

/// `links` are the jump targets that `keys` tell, one for one.
pub open spec fn same_links(links: Seq<LocationLink>, keys: Seq<LinkKey>) -> bool {
    &&& links.len() == keys.len()
    &&& forall|k: int| 0 <= k < links.len() ==> (#[trigger] links[k]).points_at(keys[k])
}

/// The targets in `uri` that the columns above 0 point at, in their order.
pub open spec fn column_keys(uri: Seq<char>, line: u32, columns: Seq<u32>) -> Seq<LinkKey>
    decreases columns.len(),
{
    if columns.len() == 0 {
        Seq::empty()
    } else if columns.last() == 0 {
        column_keys(uri, line, columns.drop_last())
    } else {
        column_keys(uri, line, columns.drop_last()).push(
            LinkKey { uri, line: (line - 1) as u32, column: (columns.last() - 1) as u32 },
        )
    }
}

/// The targets of one locator: none when its line is 0 or its path makes
/// no URI, else one for each column above 0.
pub open spec fn locator_keys(locator: LocatorModel, source_uri: Seq<char>) -> Seq<LinkKey> {
    if locator.line == 0 {
        Seq::empty()
    } else {
        match resolve_spec(decode_utf8(locator.path), source_uri) {
            Some(uri) => column_keys(uri, locator.line, locator.columns),
            None => Seq::empty(),
        }
    }
}

/// The locators of `tokens`.
pub open spec fn locators_of(tokens: Seq<ParsedToken>) -> Seq<LocatorModel> {
    Seq::new(tokens.len(), |k: int| tokens[k].locator@)
}

/// The locators of the tokens `models`.
pub open spec fn model_locators(models: Seq<TokenModel>) -> Seq<LocatorModel> {
    Seq::new(models.len(), |k: int| models[k].locator)
}

/// The targets of all the locators, in their order, repeats among them.
pub open spec fn token_keys(locators: Seq<LocatorModel>, source_uri: Seq<char>) -> Seq<LinkKey>
    decreases locators.len(),
{
    if locators.len() == 0 {
        Seq::empty()
    } else {
        token_keys(locators.drop_last(), source_uri) + locator_keys(locators.last(), source_uri)
    }
}

/// `keys` with each target kept where it comes first and left out where it
/// comes again.
pub open spec fn without_repeats(keys: Seq<LinkKey>) -> Seq<LinkKey>
    decreases keys.len(),
{
    if keys.len() == 0 {
        Seq::empty()
    } else if without_repeats(keys.drop_last()).contains(keys.last()) {
        without_repeats(keys.drop_last())
    } else {
        without_repeats(keys.drop_last()).push(keys.last())
    }
}

/// No target stands twice in `without_repeats`, and it holds the targets of
/// `keys` and no others.
pub proof fn lemma_without_repeats(keys: Seq<LinkKey>)
    ensures
        forall|i: int, j: int|
            0 <= i < j < without_repeats(keys).len() ==> without_repeats(keys)[i]
                != without_repeats(keys)[j],
        forall|key: LinkKey| without_repeats(keys).contains(key) <==> keys.contains(key),
    decreases keys.len(),
{
    if keys.len() > 0 {
        let front = keys.drop_last();
        lemma_without_repeats(front);
        let kept = without_repeats(front);
        let all = without_repeats(keys);
        assert forall|key: LinkKey| all.contains(key) <==> keys.contains(key) by {
            assert(kept.contains(key) <==> front.contains(key));
            if keys.contains(key) {
                let k = choose|k: int| 0 <= k < keys.len() && keys[k] == key;
                if k < front.len() {
                    assert(front[k] == key);
                    assert(front.contains(key));
                }
                if kept.contains(key) {
                    let m = choose|m: int| 0 <= m < kept.len() && kept[m] == key;
                    assert(all[m] == key);
                } else {
                    assert(key == keys.last());
                    assert(all[all.len() - 1] == key);
                }
            }
            if all.contains(key) {
                let m = choose|m: int| 0 <= m < all.len() && all[m] == key;
                if m < kept.len() {
                    assert(kept[m] == key);
                    assert(kept.contains(key));
                    let k = choose|k: int| 0 <= k < front.len() && front[k] == key;
                    assert(keys[k] == key);
                } else {
                    assert(keys[keys.len() - 1] == key);
                }
            }
        }
        assert forall|i: int, j: int| 0 <= i < j < all.len() implies all[i] != all[j] by {
            if j == kept.len() {
                assert(kept[i] == all[i]);
                assert(kept.contains(all[i]));
            }
        }
    }
}

/// Whether `links` holds the jump target at `uri`, `line` and `column`.
fn has_link(links: &Vec<LocationLink>, uri: &str, line: u32, column: u32) -> (found: bool)
    ensures
        found == exists|k: int|
            0 <= k < links@.len() && (#[trigger] links@[k]).target_uri@ == uri@
                && links@[k].target_range.start.line == line
                && links@[k].target_range.start.character == column,
{
    let mut k: usize = 0;
    while k < links.len()
        invariant
            k <= links@.len(),
            forall|j: int|
                0 <= j < k ==> !((#[trigger] links@[j]).target_uri@ == uri@
                    && links@[j].target_range.start.line == line
                    && links@[j].target_range.start.character == column),
        decreases links@.len() - k,
    {
        let link = &links[k];
        if link.target_range.start.line == line && link.target_range.start.character == column
            && str_equal(link.target_uri.as_str(), uri) {
            return true;
        }
        k = k + 1;
    }
    false
}

/// The jump targets of `tokens` in the document `source_uri`: for each
/// token whose line is above 0 and whose path makes a URI, and for each of
/// its columns above 0, the character at that line and column, both
/// counted down by one. A target that came before is not given again.
pub fn collect_location_links(tokens: &[ParsedToken], source_uri: &str) -> (links: Vec<
    LocationLink,
>)
    ensures
        same_links(links@, without_repeats(token_keys(locators_of(tokens@), source_uri@))),
{
    let mut links: Vec<LocationLink> = Vec::new();
    let mut i: usize = 0;
    let ghost locators = locators_of(tokens@);
    assert(locators.take(0) =~= Seq::<LocatorModel>::empty());
    while i < tokens.len()
        invariant
            i <= tokens@.len(),
            locators == locators_of(tokens@),
            same_links(links@, without_repeats(token_keys(locators.take(i as int), source_uri@))),
        decreases tokens@.len() - i,
    {
        let token = &tokens[i];
        let ghost before = token_keys(locators.take(i as int), source_uri@);
        proof {
            assert(locators.take(i + 1).drop_last() =~= locators.take(i as int));
            assert(locators.take(i + 1).last() == tokens@[i as int].locator@);
            assert(before + Seq::<LinkKey>::empty() =~= before);
            encode_utf8_decode_utf8(token.locator.path@);
        }
        if token.locator.line != 0 {
            match resolve_target_url(token.locator.path.as_str(), source_uri) {
                Some(uri) => {
                    let line: u32 = token.locator.line - 1;
                    let mut j: usize = 0;
                    assert(token.locator.columns@.take(0) =~= Seq::<u32>::empty());
                    while j < token.locator.columns.len()
                        invariant
                            j <= token.locator.columns@.len(),
                            token.locator.line != 0,
                            line == token.locator.line - 1,
                            same_links(
                                links@,
                                without_repeats(
                                    before + column_keys(
                                        uri@,
                                        token.locator.line,
                                        token.locator.columns@.take(j as int),
                                    ),
                                ),
                            ),
                        decreases token.locator.columns@.len() - j,
                    {
                        let column: u32 = token.locator.columns[j];
                        let ghost seen = before + column_keys(
                            uri@,
                            token.locator.line,
                            token.locator.columns@.take(j as int),
                        );
                        proof {
                            assert(token.locator.columns@.take(j + 1).drop_last()
                                =~= token.locator.columns@.take(j as int));
                            assert(token.locator.columns@.take(j + 1).last() == column);
                        }
                        if column != 0 {
                            let character: u32 = column - 1;
                            let ghost key = LinkKey { uri: uri@, line, column: character };
                            proof {
                                assert(before + column_keys(
                                    uri@,
                                    token.locator.line,
                                    token.locator.columns@.take(j + 1),
                                ) =~= seen.push(key));
                                assert(seen.push(key).drop_last() =~= seen);
                            }
                            let known = has_link(&links, uri.as_str(), line, character);
                            proof {
                                let kept = without_repeats(seen);
                                if known {
                                    let k = choose|k: int|
                                        0 <= k < links@.len() && (#[trigger] links@[k]).target_uri@
                                            == uri@ && links@[k].target_range.start.line == line
                                            && links@[k].target_range.start.character == character;
                                    assert(links@[k].points_at(kept[k]));
                                    assert(kept[k] == key);
                                }
                                if kept.contains(key) {
                                    let k = choose|k: int| 0 <= k < kept.len() && kept[k] == key;
                                    assert(links@[k].points_at(kept[k]));
                                }
                            }
                            if !known {
                                let target = Range {
                                    start: Position { line, character },
                                    end: Position { line, character: character + 1 },
                                };
                                links.push(
                                    LocationLink {
                                        origin_selection_range: None,
                                        target_uri: uri.clone(),
                                        target_range: target,
                                        target_selection_range: target,
                                    },
                                );
                            }
                        }
                        j = j + 1;
                    }
                    assert(token.locator.columns@.take(j as int) =~= token.locator.columns@);
                },
                None => {},
            }
        }
        i = i + 1;
    }
    assert(locators.take(i as int) =~= locators);
    links
}

/// The jump targets that a definition query at `position` has in a text
/// with the bytes `bytes`, when the text is the document `source_uri`: the
/// targets of the annotation that the position lies in, each once.
pub open spec fn definition_keys(
    bytes: Seq<u8>,
    position: Position,
    source_uri: Seq<char>,
) -> Seq<LinkKey> {
    match offset_of_position(bytes, position.line as nat, position.character as nat) {
        Some(offset) => match annotation_at(bytes, offset) {
            Some(span) => without_repeats(
                token_keys(
                    model_locators(
                        tokens_of(bytes.subrange(span.inner_start as int, span.inner_end as int)),
                    ),
                    source_uri,
                ),
            ),
            None => Seq::empty(),
        },
        None => Seq::empty(),
    }
}

/// The jump targets for a definition query at `position` in `text`, which
/// is the document `source_uri`: those of the annotation that the position
/// lies in. `None` when the text has no such line, the position lies in no
/// annotation, or the annotation has no target.
pub fn goto_definition(text: &str, position: Position, source_uri: &str) -> (r: Option<
    Vec<LocationLink>,
>)
    requires
        text.spec_bytes().len() <= MAX_TEXT_LEN,
    ensures
        match r {
            Some(links) => links@.len() > 0 && same_links(
                links@,
                definition_keys(text.spec_bytes(), position, source_uri@),
            ),
            None => definition_keys(text.spec_bytes(), position, source_uri@).len() == 0,
        },
{
    let line_starts = compute_line_starts(text);
    let offset: usize = match position_to_offset(position, text, line_starts.as_slice()) {
        Some(o) => o,
        None => {
            return None;
        },
    };
    let annotation = match find_annotation_at_offset(text, offset) {
        Some(a) => a,
        None => {
            return None;
        },
    };
    let tokens = parse_tokens_from_annotation(text, &annotation, line_starts.as_slice());
    proof {
        let models = tokens_of(
            text.spec_bytes().subrange(
                annotation.inner_start as int,
                annotation.inner_end as int,
            ),
        );
        assert(locators_of(tokens@) =~= model_locators(models));
    }
    if tokens.len() == 0 {
        return None;
    }
    let links = collect_location_links(tokens.as_slice(), source_uri);
    if links.len() == 0 {
        return None;
    }
    Some(links)
}

} // verus!
