use firrtl_source_locator::{
    build_column_indicator_line, compute_line_starts, find_annotation_at_offset, find_annotations,
    format_locator, line_text_at, markdown_language_from_path, parse_columns, parse_locator_token,
    parse_tokens_from_annotation, split_locator_tokens, summary_hover_byte_range, AnnotationSpan,
    Locator,
};

#[test]
fn parse_inherited_path_token() {
    let first = parse_locator_token("/tmp/Foo.scala:12:5", None).unwrap();
    assert_eq!(first.0.path, "/tmp/Foo.scala");
    assert!(!first.1);

    let inherited = parse_locator_token(":13:{7,9}", Some(&first.0.path)).unwrap();
    assert_eq!(inherited.0.path, "/tmp/Foo.scala");
    assert_eq!(inherited.0.columns, vec![7, 9]);
    assert!(inherited.1);
}

#[test]
fn split_tokens_respects_braces() {
    let input = "/a.scala:1:2, :3:{4,5,6}, /b.scala:7:8";
    let slices = split_locator_tokens(input);
    let tokens: Vec<&str> = slices
        .iter()
        .map(|(start, end)| &input[*start..*end])
        .collect();

    assert_eq!(tokens, vec!["/a.scala:1:2", " :3:{4,5,6}", " /b.scala:7:8"]);
}

#[test]
fn parse_annotation_example() {
    let text = "wire x; // @[/tmp/A.scala:10:3, :11:{4,9}, /tmp/B.scala:12:8]";
    let lines = compute_line_starts(text);
    let annotation = find_annotations(text).pop().unwrap();
    let tokens = parse_tokens_from_annotation(text, &annotation, &lines);

    assert_eq!(tokens.len(), 3);
    assert_eq!(tokens[0].locator.path, "/tmp/A.scala");
    assert_eq!(tokens[1].locator.path, "/tmp/A.scala");
    assert_eq!(tokens[2].locator.path, "/tmp/B.scala");
    assert_eq!(tokens[1].locator.columns, vec![4, 9]);
}

#[test]
fn line_text_at_supports_crlf() {
    let text = "line1\r\nline2\r\nline3";
    assert_eq!(line_text_at(text, 1), Some("line1"));
    assert_eq!(line_text_at(text, 2), Some("line2"));
    assert_eq!(line_text_at(text, 3), Some("line3"));
    assert_eq!(line_text_at(text, 4), None);
}

#[test]
fn column_indicator_marks_all_columns() {
    let marker = build_column_indicator_line("abcdef", &[2, 5]);
    assert_eq!(marker, " ^  ^");
}

#[test]
fn markdown_language_from_extension() {
    assert_eq!(markdown_language_from_path("/tmp/src/Foo.scala"), "scala");
    assert_eq!(markdown_language_from_path("/tmp/src/foo.fir"), "firrtl");
    assert_eq!(markdown_language_from_path("/tmp/src/foo.unknown"), "text");
}

#[test]
fn summary_hover_range_expands_to_comment_prefix() {
    let text = "wire x; // @[/tmp/A.scala:10:3]";
    let lines = compute_line_starts(text);
    let annotation = find_annotations(text).pop().unwrap();
    let (start, end) = summary_hover_byte_range(text, &annotation, &lines);
    assert_eq!(&text[start..end], "// @[");
}

#[test]
fn summary_hover_range_falls_back_to_at_block() {
    let text = "@[/tmp/A.scala:10:3]";
    let lines = compute_line_starts(text);
    let annotation = find_annotations(text).pop().unwrap();
    let (start, end) = summary_hover_byte_range(text, &annotation, &lines);
    assert_eq!(&text[start..end], "@[");
}

#[test]
fn summary_range_takes_the_marker_without_a_blank() {
    let text = "x //@[/a:1:1]";
    let lines = compute_line_starts(text);
    let annotation = find_annotations(text).pop().unwrap();
    let (start, end) = summary_hover_byte_range(text, &annotation, &lines);
    assert_eq!(&text[start..end], "//@[");
}

#[test]
fn summary_range_does_not_reach_over_a_line_end() {
    let text = "//\n@[/a:1:1]";
    let lines = compute_line_starts(text);
    let annotation = find_annotations(text).pop().unwrap();
    assert_eq!(summary_hover_byte_range(text, &annotation, &lines), (3, 5));

    let text = "/ @[/a:1:1]";
    let lines = compute_line_starts(text);
    let annotation = find_annotations(text).pop().unwrap();
    assert_eq!(summary_hover_byte_range(text, &annotation, &lines), (2, 4));
}

#[test]
fn annotations_are_found_left_to_right() {
    let text = "a @[x] b @[y:1:2] c";
    let found = find_annotations(text);
    assert_eq!(
        found,
        vec![
            AnnotationSpan { full_start: 2, full_end: 6, inner_start: 4, inner_end: 5 },
            AnnotationSpan { full_start: 9, full_end: 17, inner_start: 11, inner_end: 16 },
        ]
    );
}

#[test]
fn annotation_ends_at_the_first_closing_bracket() {
    let text = "@[a]b:1:2]";
    let found = find_annotations(text);
    assert_eq!(found.len(), 1);
    assert_eq!(&text[found[0].inner_start..found[0].inner_end], "a");
    assert_eq!(found[0].full_end, 4);
}

#[test]
fn unclosed_annotation_is_not_found() {
    assert!(find_annotations("x @[/a:1:2").is_empty());
    assert!(find_annotations("").is_empty());
    assert!(find_annotations("@").is_empty());
    assert_eq!(find_annotations("@[@[]").len(), 1);
    assert_eq!(find_annotations("@[]")[0].inner_start, 2);
    assert_eq!(find_annotations("@[]")[0].inner_end, 2);
}

#[test]
fn annotation_at_offset_counts_the_brackets() {
    let text = "ab @[x:1:2] cd";
    assert_eq!(find_annotation_at_offset(text, 2), None);
    assert_eq!(find_annotation_at_offset(text, 3).unwrap().full_start, 3);
    assert_eq!(find_annotation_at_offset(text, 10).unwrap().full_end, 11);
    assert_eq!(find_annotation_at_offset(text, 11), None);
    assert_eq!(find_annotation_at_offset(text, 1000), None);
}

#[test]
fn split_yields_one_piece_for_text_without_commas() {
    assert_eq!(split_locator_tokens(""), vec![(0, 0)]);
    assert_eq!(split_locator_tokens("abc"), vec![(0, 3)]);
    assert_eq!(split_locator_tokens(","), vec![(0, 0), (1, 1)]);
    assert_eq!(split_locator_tokens("a,{b,c},d"), vec![(0, 1), (2, 7), (8, 9)]);
}

#[test]
fn split_closing_brace_without_opening_is_ignored() {
    assert_eq!(split_locator_tokens("a},b"), vec![(0, 2), (3, 4)]);
    assert_eq!(split_locator_tokens("{{a},b},c"), vec![(0, 7), (8, 9)]);
    assert_eq!(split_locator_tokens("{a,b"), vec![(0, 4)]);
}

#[test]
fn split_counts_bytes_of_wide_characters() {
    let input = "é,😀,x";
    let pieces = split_locator_tokens(input);
    assert_eq!(pieces, vec![(0, 2), (3, 7), (8, 9)]);
}

#[test]
fn columns_single_and_grouped() {
    assert_eq!(parse_columns("7"), Some(vec![7]));
    assert_eq!(parse_columns(" 7 "), Some(vec![7]));
    assert_eq!(parse_columns("+7"), Some(vec![7]));
    assert_eq!(parse_columns("0"), Some(vec![0]));
    assert_eq!(parse_columns("{4,9}"), Some(vec![4, 9]));
    assert_eq!(parse_columns("{ 4 , 9 }"), Some(vec![4, 9]));
    assert_eq!(parse_columns("{9,4,9}"), Some(vec![9, 4, 9]));
    assert_eq!(parse_columns("{5}"), Some(vec![5]));
    assert_eq!(parse_columns("4294967295"), Some(vec![4294967295]));
}

#[test]
fn columns_that_do_not_read_are_passed_over() {
    assert_eq!(parse_columns("{a,5}"), Some(vec![5]));
    assert_eq!(parse_columns("{1,,2}"), Some(vec![1, 2]));
    assert_eq!(parse_columns("{1,-2,3}"), Some(vec![1, 3]));
    assert_eq!(parse_columns("{4294967296,1}"), Some(vec![1]));
}

#[test]
fn columns_without_a_number_are_none() {
    assert_eq!(parse_columns(""), None);
    assert_eq!(parse_columns("   "), None);
    assert_eq!(parse_columns("{}"), None);
    assert_eq!(parse_columns("{a,b}"), None);
    assert_eq!(parse_columns("{"), None);
    assert_eq!(parse_columns("}"), None);
    assert_eq!(parse_columns("x"), None);
    assert_eq!(parse_columns("4294967296"), None);
    assert_eq!(parse_columns("-1"), None);
    assert_eq!(parse_columns("1 2"), None);
    assert_eq!(parse_columns("{1,2"), None);
}

#[test]
fn locator_token_parts() {
    let (locator, inherited) = parse_locator_token("  /t/A.scala:10:3  ", None).unwrap();
    assert_eq!(locator.path, "/t/A.scala");
    assert_eq!(locator.line, 10);
    assert_eq!(locator.columns, vec![3]);
    assert!(!inherited);

    let (locator, _) = parse_locator_token("C:\\x\\A.scala:1:{2,3}", None).unwrap();
    assert_eq!(locator.path, "C:\\x\\A.scala");
    assert_eq!(locator.line, 1);
    assert_eq!(locator.columns, vec![2, 3]);

    let (locator, _) = parse_locator_token("/a:0:0", None).unwrap();
    assert_eq!(locator.line, 0);
    assert_eq!(locator.columns, vec![0]);

    let (locator, _) = parse_locator_token("päth/ü.scala:7:8", None).unwrap();
    assert_eq!(locator.path, "päth/ü.scala");
}

#[test]
fn locator_token_failures() {
    assert!(parse_locator_token("", None).is_none());
    assert!(parse_locator_token("   ", None).is_none());
    assert!(parse_locator_token("/a", None).is_none());
    assert!(parse_locator_token("/a:1", None).is_none());
    assert!(parse_locator_token("/a:x:1", None).is_none());
    assert!(parse_locator_token("/a:1:x", None).is_none());
    assert!(parse_locator_token("/a:1:", None).is_none());
    assert!(parse_locator_token("/a::1", None).is_none());
    assert!(parse_locator_token("/a:1:{", None).is_none());
    assert!(parse_locator_token("/a:-1:1", None).is_none());
    assert!(parse_locator_token(":1:2", None).is_none());
    assert!(parse_locator_token("/a:1 :2", None).is_none());
}

#[test]
fn path_inheritance_uses_the_context_path() {
    let (first, _) = parse_locator_token("/t/A:10:3", None).unwrap();
    let (second, inherited) = parse_locator_token(":11:{4,9}", Some(&first.path)).unwrap();
    assert!(inherited);
    assert_eq!(second.path, "/t/A");
    assert_eq!(second.line, 11);
    assert_eq!(second.columns, vec![4, 9]);
}

#[test]
fn nested_commas_split_into_three_tokens() {
    let text = "@[/a:1:2, :3:{4,5,6}, /b:7:8]";
    let pieces = split_locator_tokens("/a:1:2, :3:{4,5,6}, /b:7:8");
    assert_eq!(pieces.len(), 3);
    let lines = compute_line_starts(text);
    let annotation = find_annotations(text).pop().unwrap();
    let tokens = parse_tokens_from_annotation(text, &annotation, &lines);
    assert_eq!(tokens.len(), 3);
    assert_eq!(tokens[1].locator.path, "/a");
    assert_eq!(tokens[1].locator.line, 3);
    assert_eq!(tokens[1].locator.columns, vec![4, 5, 6]);
    assert_eq!(tokens[2].locator.path, "/b");
}

#[test]
fn tokens_carry_their_place() {
    let text = "x\n// @[ /a:1:2 ,bad, :3:4]";
    let lines = compute_line_starts(text);
    let annotation = find_annotations(text).pop().unwrap();
    let tokens = parse_tokens_from_annotation(text, &annotation, &lines);
    assert_eq!(tokens.len(), 2);
    assert_eq!(&text[tokens[0].byte_start..tokens[0].byte_end], "/a:1:2");
    assert_eq!(&text[tokens[1].byte_start..tokens[1].byte_end], ":3:4");
    assert_eq!(tokens[1].locator.path, "/a");
    assert_eq!(tokens[0].range.start.line, 1);
    assert_eq!(tokens[0].range.start.character, 6);
    assert_eq!(tokens[0].range.end.line, 1);
    assert_eq!(tokens[0].range.end.character, 12);
    assert_eq!(tokens[1].range.start.character, 19);
    assert_eq!(tokens[1].range.end.character, 23);
}

#[test]
fn token_without_a_path_to_take_over_is_dropped() {
    let text = "@[:1:2, /a:3:4, :5:6, junk, :7:8]";
    let lines = compute_line_starts(text);
    let annotation = find_annotations(text).pop().unwrap();
    let tokens = parse_tokens_from_annotation(text, &annotation, &lines);
    assert_eq!(tokens.len(), 3);
    assert_eq!(tokens[0].locator.line, 3);
    assert_eq!(tokens[1].locator.path, "/a");
    assert_eq!(tokens[1].locator.line, 5);
    assert_eq!(tokens[2].locator.path, "/a");
    assert_eq!(tokens[2].locator.line, 7);
}

#[test]
fn inherited_path_is_the_nearest_named_one() {
    let text = "@[/a:1:1, /b:2:2, :3:3]";
    let lines = compute_line_starts(text);
    let annotation = find_annotations(text).pop().unwrap();
    let tokens = parse_tokens_from_annotation(text, &annotation, &lines);
    assert_eq!(tokens.len(), 3);
    assert_eq!(tokens[2].locator.path, "/b");
}

#[test]
fn empty_annotation_has_no_tokens() {
    let text = "@[] @[ , ,]";
    let lines = compute_line_starts(text);
    for annotation in find_annotations(text) {
        assert!(parse_tokens_from_annotation(text, &annotation, &lines).is_empty());
    }
}

#[test]
fn format_single_and_grouped_columns() {
    let one = Locator { path: "/t/A.scala".to_string(), line: 10, columns: vec![3] };
    assert_eq!(format_locator(&one), "/t/A.scala:10:3");
    let many = Locator { path: "/t/A.scala".to_string(), line: 11, columns: vec![4, 9, 4] };
    assert_eq!(format_locator(&many), "/t/A.scala:11:{4,9,4}");
    let none = Locator { path: "p".to_string(), line: 0, columns: vec![] };
    assert_eq!(format_locator(&none), "p:0:{}");
    let big = Locator { path: "é".to_string(), line: 4294967295, columns: vec![0, 4294967295] };
    assert_eq!(format_locator(&big), "é:4294967295:{0,4294967295}");
}

#[test]
fn parse_then_format_gives_the_token_back() {
    for token in ["/t/A.scala:10:3", "/t/A.scala:11:{4,9}", "rel/p.fir:1:{3,2,1}", "a:b:7:{10,20}"] {
        let (locator, inherited) = parse_locator_token(token, None).unwrap();
        assert!(!inherited);
        assert_eq!(format_locator(&locator), token);
    }
}

#[test]
fn format_then_parse_gives_the_locator_back() {
    let locator = Locator { path: "/x y/ä.sv".to_string(), line: 77, columns: vec![5, 0, 12] };
    let text = format_locator(&locator);
    let (back, inherited) = parse_locator_token(&text, Some("/other")).unwrap();
    assert!(!inherited);
    assert_eq!(back.path, locator.path);
    assert_eq!(back.line, locator.line);
    assert_eq!(back.columns, locator.columns);
}

#[test]
fn group_of_one_column_is_written_without_braces() {
    let (locator, _) = parse_locator_token("/a:1:{5}", None).unwrap();
    assert_eq!(format_locator(&locator), "/a:1:5");
}

#[test]
fn line_text_is_the_same_for_both_line_ends() {
    let unix = "first\nsecond\n\nfourth";
    let dos = "first\r\nsecond\r\n\r\nfourth";
    for line in 0..7 {
        assert_eq!(line_text_at(unix, line), line_text_at(dos, line));
    }
    assert_eq!(line_text_at(unix, 0), None);
    assert_eq!(line_text_at(unix, 3), Some(""));
    assert_eq!(line_text_at(unix, 4), Some("fourth"));
    assert_eq!(line_text_at(unix, 5), None);
}

#[test]
fn line_text_edge_cases() {
    assert_eq!(line_text_at("", 1), Some(""));
    assert_eq!(line_text_at("", 2), None);
    assert_eq!(line_text_at("a\n", 2), Some(""));
    assert_eq!(line_text_at("a\n", 3), None);
    assert_eq!(line_text_at("a\r\r\nb", 1), Some("a\r"));
    assert_eq!(line_text_at("a\rb\n", 1), Some("a\rb"));
    assert_eq!(line_text_at("é😀\r\nx", 1), Some("é😀"));
    assert_eq!(line_text_at("x", u32::MAX), None);
}

#[test]
fn column_indicator_edge_cases() {
    assert_eq!(build_column_indicator_line("abcdef", &[]), "^");
    assert_eq!(build_column_indicator_line("abcdef", &[0]), "^");
    assert_eq!(build_column_indicator_line("abcdef", &[0, 0]), "^");
    assert_eq!(build_column_indicator_line("", &[1]), "^");
    assert_eq!(build_column_indicator_line("ab", &[5]), "    ^");
    assert_eq!(build_column_indicator_line("abcdef", &[5, 2, 5, 0]), " ^  ^");
    assert_eq!(build_column_indicator_line("\ta\tb", &[2]), "\t^");
    assert_eq!(build_column_indicator_line("\ta\tb", &[4]), "\t \t^");
    assert_eq!(build_column_indicator_line("\tab", &[1, 3]), "^ ^");
    assert_eq!(build_column_indicator_line("\t\t", &[5]), "\t\t  ^");
    assert_eq!(build_column_indicator_line("é😀\tz", &[4]), "  \t^");
}

#[test]
fn language_mapping_covers_every_extension() {
    assert_eq!(markdown_language_from_path("a.scala"), "scala");
    assert_eq!(markdown_language_from_path("a.fir"), "firrtl");
    assert_eq!(markdown_language_from_path("a.firrtl"), "firrtl");
    assert_eq!(markdown_language_from_path("a.rs"), "rust");
    assert_eq!(markdown_language_from_path("a.py"), "python");
    assert_eq!(markdown_language_from_path("a.sv"), "verilog");
    assert_eq!(markdown_language_from_path("a.svh"), "verilog");
    assert_eq!(markdown_language_from_path("a.v"), "verilog");
    assert_eq!(markdown_language_from_path("A.SCALA"), "scala");
    assert_eq!(markdown_language_from_path("/x/Top.Sv"), "verilog");
    assert_eq!(markdown_language_from_path(".rs"), "rust");
}

#[test]
fn language_mapping_defaults_to_text() {
    assert_eq!(markdown_language_from_path(""), "text");
    assert_eq!(markdown_language_from_path("scala"), "text");
    assert_eq!(markdown_language_from_path("a.scala.bak"), "text");
    assert_eq!(markdown_language_from_path("a.txt"), "text");
    assert_eq!(markdown_language_from_path("rs"), "text");
    assert_eq!(markdown_language_from_path("a.ſv"), "text");
    assert_eq!(markdown_language_from_path("a.vé"), "text");
}
