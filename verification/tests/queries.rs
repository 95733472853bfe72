use firrtl_source_locator::{
    collect_location_links, compute_line_starts, find_annotations, goto_definition, hover_target,
    offset_to_position, parse_tokens_from_annotation, render_summary, render_token,
    resolve_target_url, token_block, DocumentStore, HoverTarget, LocationLink, Locator, Position,
    Range,
};

fn one_character(line: u32, character: u32) -> Range {
    Range {
        start: Position { line, character },
        end: Position { line, character: character + 1 },
    }
}

fn targets(links: &[LocationLink]) -> Vec<(String, u32, u32)> {
    links
        .iter()
        .map(|link| {
            (
                link.target_uri.clone(),
                link.target_range.start.line,
                link.target_range.start.character,
            )
        })
        .collect()
}

#[test]
fn absolute_path_resolves_to_its_own_uri() {
    assert_eq!(
        resolve_target_url("/tmp/A.scala", "file:///work/gen/top.fir"),
        Some("file:///tmp/A.scala".to_string())
    );
    assert_eq!(
        resolve_target_url("/tmp/with space/A.scala", "untitled:Untitled-1"),
        Some("file:///tmp/with%20space/A.scala".to_string())
    );
}

#[test]
fn relative_path_resolves_beside_the_document() {
    assert_eq!(
        resolve_target_url("src/B.scala", "file:///work/gen/top.fir"),
        Some("file:///work/gen/src/B.scala".to_string())
    );
    assert_eq!(
        resolve_target_url("B.scala", "file:///top.fir"),
        Some("file:///B.scala".to_string())
    );
}

#[test]
fn relative_path_needs_a_file_document() {
    assert_eq!(resolve_target_url("B.scala", "untitled:Untitled-1"), None);
    assert_eq!(resolve_target_url("B.scala", "https://example.org/a/top.fir"), None);
    assert_eq!(resolve_target_url("B.scala", "not a uri"), None);
    assert_eq!(resolve_target_url("B.scala", "file:///"), None);
}

#[test]
fn definition_end_to_end() {
    let text = "wire x; // @[/tmp/A.scala:10:3, :11:{4,9}, /tmp/B.scala:12:8]";
    let table = compute_line_starts(text);
    let open = text.find("@[").unwrap();
    let close = text.find(']').unwrap();
    for offset in open..=close {
        let position = offset_to_position(offset, text, &table);
        let links = goto_definition(text, position, "file:///work/top.fir").unwrap();
        assert_eq!(
            targets(&links),
            vec![
                ("file:///tmp/A.scala".to_string(), 9, 2),
                ("file:///tmp/A.scala".to_string(), 10, 3),
                ("file:///tmp/A.scala".to_string(), 10, 8),
                ("file:///tmp/B.scala".to_string(), 11, 7),
            ]
        );
        for link in &links {
            assert_eq!(link.origin_selection_range, None);
            assert_eq!(
                link.target_range,
                one_character(link.target_range.start.line, link.target_range.start.character)
            );
            assert_eq!(link.target_selection_range, link.target_range);
        }
    }
}

#[test]
fn definition_outside_an_annotation_is_none() {
    let text = "wire x; // @[/tmp/A.scala:10:3]\nnode y";
    assert!(goto_definition(text, Position { line: 0, character: 0 }, "file:///t.fir").is_none());
    assert!(goto_definition(text, Position { line: 0, character: 10 }, "file:///t.fir").is_none());
    assert!(goto_definition(text, Position { line: 1, character: 2 }, "file:///t.fir").is_none());
    assert!(goto_definition(text, Position { line: 2, character: 0 }, "file:///t.fir").is_none());
    assert!(goto_definition(text, Position { line: 0, character: 11 }, "file:///t.fir").is_some());
}

#[test]
fn definition_without_targets_is_none() {
    let at = Position { line: 0, character: 1 };
    assert!(goto_definition("@[]", at, "file:///t.fir").is_none());
    assert!(goto_definition("@[junk]", at, "file:///t.fir").is_none());
    assert!(goto_definition("@[/a:0:1]", at, "file:///t.fir").is_none());
    assert!(goto_definition("@[/a:1:0]", at, "file:///t.fir").is_none());
    assert!(goto_definition("@[rel:1:1]", at, "untitled:x").is_none());
    assert!(goto_definition("@[rel:1:1]", at, "file:///d/t.fir").is_some());
}

#[test]
fn links_are_given_once() {
    let text = "@[/a:1:{2,2,3}, :1:3, /b:1:2, /a:1:2, :0:9, :2:0, rel:4:5]";
    let table = compute_line_starts(text);
    let annotation = find_annotations(text).pop().unwrap();
    let tokens = parse_tokens_from_annotation(text, &annotation, &table);
    assert_eq!(tokens.len(), 7);
    let links = collect_location_links(&tokens, "file:///d/t.fir");
    assert_eq!(
        targets(&links),
        vec![
            ("file:///a".to_string(), 0, 1),
            ("file:///a".to_string(), 0, 2),
            ("file:///b".to_string(), 0, 1),
            ("file:///d/rel".to_string(), 3, 4),
        ]
    );
    let links = collect_location_links(&tokens, "untitled:x");
    assert_eq!(links.len(), 3);
    assert!(collect_location_links(&[], "file:///d/t.fir").is_empty());
}

#[test]
fn link_for_the_last_column_is_one_character_wide() {
    let text = "@[/a:4294967295:4294967295]";
    let links = goto_definition(text, Position { line: 0, character: 3 }, "file:///t").unwrap();
    assert_eq!(links.len(), 1);
    assert_eq!(links[0].target_range.start, Position { line: 4294967294, character: 4294967294 });
    assert_eq!(links[0].target_range.end, Position { line: 4294967294, character: 4294967295 });
}

#[test]
fn hover_on_the_marker_shows_every_token() {
    let text = "wire x; // @[/tmp/A.scala:10:3, :11:{4,9}]";
    for character in 11..13 {
        match hover_target(text, Position { line: 0, character }) {
            Some(HoverTarget::Summary { tokens, range }) => {
                assert_eq!(tokens.len(), 2);
                assert_eq!(range.start, Position { line: 0, character: 8 });
                assert_eq!(range.end, Position { line: 0, character: 13 });
            }
            _ => panic!("no summary at {}", character),
        }
    }
    for character in 0..11 {
        assert!(hover_target(text, Position { line: 0, character }).is_none());
    }
}

#[test]
fn hover_on_a_token_shows_that_token() {
    let text = "wire x; // @[/tmp/A.scala:10:3, :11:{4,9}]";
    match hover_target(text, Position { line: 0, character: 13 }) {
        Some(HoverTarget::Token { token }) => {
            assert_eq!(token.locator.line, 10);
            assert_eq!(token.range.start.character, 13);
            assert_eq!(token.range.end.character, 30);
        }
        _ => panic!("no token"),
    }
    match hover_target(text, Position { line: 0, character: 40 }) {
        Some(HoverTarget::Token { token }) => {
            assert_eq!(token.locator.path, "/tmp/A.scala");
            assert_eq!(token.locator.columns, vec![4, 9]);
        }
        _ => panic!("no token"),
    }
}

#[test]
fn hover_between_tokens_is_none() {
    let text = "wire x; // @[/tmp/A.scala:10:3, :11:{4,9}]";
    assert!(hover_target(text, Position { line: 0, character: 30 }).is_none());
    assert!(hover_target(text, Position { line: 0, character: 31 }).is_none());
    assert!(hover_target(text, Position { line: 0, character: 41 }).is_none());
    assert!(hover_target(text, Position { line: 0, character: 42 }).is_none());
    assert!(hover_target(text, Position { line: 3, character: 0 }).is_none());
    assert!(hover_target("x @[]", Position { line: 0, character: 2 }).is_none());
    assert!(hover_target("x @[junk]", Position { line: 0, character: 3 }).is_none());
    assert!(hover_target("x @[junk]", Position { line: 0, character: 5 }).is_none());
}

#[test]
fn block_shows_the_line_and_its_carets() {
    let locator = Locator { path: "/tmp/A.scala".to_string(), line: 10, columns: vec![2, 5] };
    assert_eq!(token_block(&locator, Some("abcdef")), "```scala\nabcdef\n ^  ^\n```");
    assert_eq!(
        token_block(&locator, None),
        "```scala\n<source line unavailable>\n ^  ^\n```"
    );
    let other = Locator { path: "notes".to_string(), line: 1, columns: vec![0] };
    assert_eq!(token_block(&other, Some("")), "```text\n\n^\n```");
}

#[test]
fn token_hover_ends_with_the_locator() {
    let text = "// @[/tmp/A.scala:10:3, :11:{4,9}]";
    let table = compute_line_starts(text);
    let annotation = find_annotations(text).pop().unwrap();
    let tokens = parse_tokens_from_annotation(text, &annotation, &table);
    let hover = render_token(&tokens[1], Some("\tval x = y"));
    assert_eq!(hover.contents, "```scala\n\tval x = y\n\t  ^    ^\n```\n/tmp/A.scala:11:{4,9}");
    assert_eq!(hover.range, tokens[1].range);
    let hover = render_token(&tokens[0], None);
    assert_eq!(
        hover.contents,
        "```scala\n<source line unavailable>\n  ^\n```\n/tmp/A.scala:10:3"
    );
}

#[test]
fn summary_hover_joins_the_blocks() {
    let text = "// @[/tmp/A.scala:10:3, /tmp/b.py:1:1]";
    let table = compute_line_starts(text);
    let annotation = find_annotations(text).pop().unwrap();
    let tokens = parse_tokens_from_annotation(text, &annotation, &table);
    let range = Range {
        start: Position { line: 0, character: 0 },
        end: Position { line: 0, character: 5 },
    };
    let lines = vec![Some("abc".to_string()), None];
    let hover = render_summary(&tokens, &lines, range).unwrap();
    assert_eq!(
        hover.contents,
        "```scala\nabc\n  ^\n```\n```python\n<source line unavailable>\n^\n```"
    );
    assert_eq!(hover.range, range);
    assert!(render_summary(&[], &[], range).is_none());
}

#[test]
fn store_holds_the_last_text() {
    let mut store = DocumentStore::new();
    assert_eq!(store.get("file:///a"), None);
    store.open("file:///a".to_string(), "one".to_string());
    store.open("file:///b".to_string(), "two".to_string());
    assert_eq!(store.get("file:///a"), Some("one"));
    assert_eq!(store.get("file:///b"), Some("two"));
    store.open("file:///a".to_string(), "three".to_string());
    assert_eq!(store.get("file:///a"), Some("three"));
    assert_eq!(store.get("file:///b"), Some("two"));
}

#[test]
fn store_change_keeps_the_last_replacement() {
    let mut store = DocumentStore::new();
    store.open("file:///a".to_string(), "one".to_string());
    store.change("file:///a".to_string(), vec!["x".to_string(), "y".to_string()]);
    assert_eq!(store.get("file:///a"), Some("y"));
    store.change("file:///a".to_string(), vec![]);
    assert_eq!(store.get("file:///a"), Some("y"));
    store.change("file:///new".to_string(), vec!["z".to_string()]);
    assert_eq!(store.get("file:///new"), Some("z"));
    store.change("file:///none".to_string(), vec![]);
    assert_eq!(store.get("file:///none"), None);
}

#[test]
fn store_close_removes_one_document() {
    let mut store = DocumentStore::new();
    store.open("file:///a".to_string(), "one".to_string());
    store.open("file:///b".to_string(), "two".to_string());
    store.open("file:///c".to_string(), "three".to_string());
    store.close("file:///b");
    assert_eq!(store.get("file:///a"), Some("one"));
    assert_eq!(store.get("file:///b"), None);
    assert_eq!(store.get("file:///c"), Some("three"));
    store.close("file:///b");
    store.close("file:///a");
    store.close("file:///c");
    assert_eq!(store.get("file:///c"), None);
}
