use firrtl_source_locator::decimal::parse_u32;
use firrtl_source_locator::whitespace::trim_range;
use firrtl_source_locator::{
    compute_line_starts, line_start_for_offset, offset_to_position, position_to_offset, Position,
};

fn position(line: u32, character: u32) -> Position {
    Position { line, character }
}

#[test]
fn line_starts_follow_each_line_feed() {
    assert_eq!(compute_line_starts(""), vec![0]);
    assert_eq!(compute_line_starts("abc"), vec![0]);
    assert_eq!(compute_line_starts("a\nbc\n"), vec![0, 2, 5]);
    assert_eq!(compute_line_starts("\n\n"), vec![0, 1, 2]);
    assert_eq!(compute_line_starts("a\r\nb"), vec![0, 3]);
    assert_eq!(compute_line_starts("é\nx"), vec![0, 3]);
}

#[test]
fn line_start_for_offset_is_the_last_start_not_beyond_it() {
    let table = compute_line_starts("ab\ncd\n\nef");
    assert_eq!(table, vec![0, 3, 6, 7]);
    assert_eq!(line_start_for_offset(0, &table), 0);
    assert_eq!(line_start_for_offset(2, &table), 0);
    assert_eq!(line_start_for_offset(3, &table), 3);
    assert_eq!(line_start_for_offset(5, &table), 3);
    assert_eq!(line_start_for_offset(6, &table), 6);
    assert_eq!(line_start_for_offset(7, &table), 7);
    assert_eq!(line_start_for_offset(100, &table), 7);
}

#[test]
fn position_to_offset_counts_utf16_units() {
    let text = "a😀b\né";
    let table = compute_line_starts(text);
    assert_eq!(position_to_offset(position(0, 0), text, &table), Some(0));
    assert_eq!(position_to_offset(position(0, 1), text, &table), Some(1));
    assert_eq!(position_to_offset(position(0, 2), text, &table), Some(1));
    assert_eq!(position_to_offset(position(0, 3), text, &table), Some(5));
    assert_eq!(position_to_offset(position(0, 4), text, &table), Some(6));
    assert_eq!(position_to_offset(position(0, 5), text, &table), Some(7));
    assert_eq!(position_to_offset(position(0, 500), text, &table), Some(7));
    assert_eq!(position_to_offset(position(1, 0), text, &table), Some(7));
    assert_eq!(position_to_offset(position(1, 1), text, &table), Some(9));
    assert_eq!(position_to_offset(position(1, 2), text, &table), Some(9));
}

#[test]
fn position_outside_the_document_has_no_offset() {
    let text = "one\ntwo";
    let table = compute_line_starts(text);
    assert_eq!(position_to_offset(position(2, 0), text, &table), None);
    assert_eq!(position_to_offset(position(u32::MAX, 0), text, &table), None);
    let empty = compute_line_starts("");
    assert_eq!(position_to_offset(position(0, 0), "", &empty), Some(0));
    assert_eq!(position_to_offset(position(0, 9), "", &empty), Some(0));
    assert_eq!(position_to_offset(position(1, 0), "", &empty), None);
}

#[test]
fn offset_to_position_counts_utf16_units() {
    let text = "a😀b\né";
    let table = compute_line_starts(text);
    assert_eq!(offset_to_position(0, text, &table), position(0, 0));
    assert_eq!(offset_to_position(1, text, &table), position(0, 1));
    assert_eq!(offset_to_position(5, text, &table), position(0, 3));
    assert_eq!(offset_to_position(6, text, &table), position(0, 4));
    assert_eq!(offset_to_position(7, text, &table), position(1, 0));
    assert_eq!(offset_to_position(9, text, &table), position(1, 1));
    assert_eq!(offset_to_position(1000, text, &table), position(1, 1));
}

#[test]
fn offsets_on_code_point_boundaries_round_trip() {
    let texts = [
        "",
        "plain ascii",
        "two\nlines",
        "trailing\n",
        "a😀b\n😀😀\r\né\u{2028}x\n\n𝄞",
        "wire x; // @[/tmp/A.scala:10:3]\n\tnode y = 𝔘 // @[:11:{4,9}]",
    ];
    for text in texts {
        let table = compute_line_starts(text);
        let mut boundaries = 0;
        for offset in 0..=text.len() {
            if text.is_char_boundary(offset) {
                boundaries += 1;
                let at = offset_to_position(offset, text, &table);
                assert_eq!(position_to_offset(at, text, &table), Some(offset));
            }
        }
        assert_eq!(boundaries, text.chars().count() + 1);
    }
}

#[test]
fn columns_agree_with_utf16_encoding() {
    let text = "x𝄞é\tz😀";
    let table = compute_line_starts(text);
    for (offset, _) in text.char_indices() {
        let at = offset_to_position(offset, text, &table);
        assert_eq!(at.character as usize, text[..offset].encode_utf16().count());
    }
}

#[test]
fn numbers_read_as_the_standard_library_reads_them() {
    let samples = [
        "", "0", "7", "007", "42", "+42", "+", "-1", "+-1", "++1", "1+", " 1", "1 ", "1_000",
        "4294967295", "4294967296", "+4294967295", "00000000000000000004294967295",
        "99999999999999999999999", "0x10", "1e3", "١٢", "１２", "12a", "a12",
    ];
    for sample in samples {
        let bytes = sample.as_bytes();
        assert_eq!(parse_u32(bytes, 0, bytes.len()), sample.parse::<u32>().ok(), "{}", sample);
    }
    let framed = b"ab123cd";
    assert_eq!(parse_u32(framed, 2, 5), Some(123));
    assert_eq!(parse_u32(framed, 2, 2), None);
    assert_eq!(parse_u32(framed, 1, 5), None);
}

#[test]
fn white_space_is_what_the_standard_library_trims() {
    for code in 0..=0x10ffffu32 {
        let c = match char::from_u32(code) {
            Some(c) => c,
            None => continue,
        };
        let mut alone = String::new();
        alone.push(c);
        let bytes = alone.as_bytes();
        let (start, end) = trim_range(bytes, 0, bytes.len());
        assert_eq!(start == end, c.is_whitespace(), "U+{:04X}", code);
        let mut framed = String::from("a");
        framed.push(c);
        framed.push('b');
        let bytes = framed.as_bytes();
        assert_eq!(trim_range(bytes, 0, bytes.len()), (0, bytes.len()));
        let mut padded = String::new();
        padded.push(c);
        padded.push('x');
        padded.push(c);
        let bytes = padded.as_bytes();
        let (start, end) = trim_range(bytes, 0, bytes.len());
        assert_eq!(&padded[start..end], padded.trim(), "U+{:04X}", code);
    }
}

#[test]
fn trimming_stays_inside_its_range() {
    let text = "  \t a b \u{3000}\n ";
    let bytes = text.as_bytes();
    let (start, end) = trim_range(bytes, 0, bytes.len());
    assert_eq!(&text[start..end], "a b");
    assert_eq!(trim_range(bytes, 1, 3), (3, 3));
    assert_eq!(trim_range(bytes, 4, 7), (4, 7));
    assert_eq!(trim_range(bytes, 5, 6), (6, 6));
}
