use manread::range::parse_single_range;

#[test]
fn parses_valid_ranges() {
    assert_eq!(parse_single_range(Some("bytes=0-9"), 100), Some((0, 9)));
    assert_eq!(parse_single_range(Some("bytes=10-"), 100), Some((10, 99)));
    assert_eq!(parse_single_range(Some("bytes=-10"), 100), Some((90, 99)));
    assert_eq!(
        parse_single_range(Some("bytes=95-200"), 100),
        Some((95, 99))
    );
}

#[test]
fn rejects_invalid_ranges() {
    assert_eq!(parse_single_range(Some("bytes=100-100"), 100), None);
    assert_eq!(parse_single_range(Some("bytes=9-1"), 100), None);
    assert_eq!(parse_single_range(Some("bytes=0-1,4-5"), 100), None);
    assert_eq!(parse_single_range(Some("units=0-1"), 100), None);
    assert_eq!(parse_single_range(Some("bytes=-0"), 100), None);
}

#[test]
fn missing_range_header_gives_none() {
    assert_eq!(parse_single_range(None, 100), None);
}

#[test]
fn suffix_longer_than_payload_starts_at_zero() {
    assert_eq!(parse_single_range(Some("bytes=-500"), 100), Some((0, 99)));
}

#[test]
fn malformed_numbers_are_rejected() {
    assert_eq!(parse_single_range(Some("bytes=a-9"), 100), None);
    assert_eq!(parse_single_range(Some("bytes=0-x"), 100), None);
    assert_eq!(parse_single_range(Some("bytes=09"), 100), None);
    assert_eq!(parse_single_range(Some("bytes=+5-+7"), 100), Some((5, 7)));
}

#[test]
fn single_byte_payload_range() {
    assert_eq!(parse_single_range(Some("bytes=0-0"), 1), Some((0, 0)));
    assert_eq!(parse_single_range(Some("bytes=0-"), 1), Some((0, 0)));
}
