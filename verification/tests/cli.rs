use bitterasm::cli::{line_range_to_bytes, parse_offset, parse_range};

#[test]
fn a_range_is_two_bounds_around_a_dash() {
    assert_eq!(parse_range("10-15"), Ok((10, 15)));
    assert_eq!(parse_range("7-7"), Ok((7, 7)));
    assert_eq!(parse_range("+3-4"), Ok((3, 4)));
}

#[test]
fn a_range_without_a_dash_is_refused() {
    assert_eq!(parse_range("12"), Err("expected `START-END`, found `12`".to_string()));
}

#[test]
fn each_bound_must_be_a_number() {
    assert_eq!(parse_range("a-3"), Err("`a` isn't a valid start".to_string()));
    assert_eq!(parse_range("3-"), Err("`` isn't a valid end".to_string()));
    // Split at the first dash: the end is `2-3`.
    assert_eq!(parse_range("1-2-3"), Err("`2-3` isn't a valid end".to_string()));
}

#[test]
fn a_backwards_range_is_refused() {
    assert_eq!(parse_range("9-2"), Err("start (9) is after end (2)".to_string()));
}

#[test]
fn line_ranges_cover_whole_lines() {
    let source = "ab\ncd\nef";
    // Lines 1..=1: bytes 0..3 (through the newline).
    assert_eq!(line_range_to_bytes(source, 1, 1), 0..3);
    // Lines 2..=3: from line 2's start to the end of the text.
    assert_eq!(line_range_to_bytes(source, 2, 3), 3..8);
    // Past the end clamps to the end.
    assert_eq!(line_range_to_bytes(source, 5, 9), 8..8);
    // Line 0 reads as line 1; a reversed range is empty at its start.
    assert_eq!(line_range_to_bytes(source, 0, 1), 0..3);
    assert_eq!(line_range_to_bytes(source, 3, 1), 6..6);
}

#[test]
fn line_ranges_count_bytes_not_characters() {
    let source = "é\nx";
    assert_eq!(line_range_to_bytes(source, 2, 2), 3..4);
}

#[test]
fn offsets_are_decimal_or_hex() {
    assert_eq!(parse_offset("16"), Ok(16));
    assert_eq!(parse_offset("0x10"), Ok(16));
    assert_eq!(parse_offset("0XfF"), Ok(255));
    assert_eq!(parse_offset("0"), Ok(0));
}

#[test]
fn a_bad_offset_names_itself() {
    let error = parse_offset("0xzz").unwrap_err();
    assert!(error.starts_with("`0xzz` isn't a byte offset: "), "{error}");
    assert!(parse_offset("").is_err());
    assert!(parse_offset("-1").is_err());
    assert!(parse_offset("99999999999999999999999").is_err());
}
