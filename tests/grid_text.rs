use algorithms::grid_text::{format_grid, parse_grid_text};

#[test]
fn parses_whitespace_separated_numbers() {
    assert_eq!(parse_grid_text(b"1 2  3\t4\n"), Some(vec![1, 2, 3, 4]));
    assert_eq!(parse_grid_text(b"  007 +9 255 0"), Some(vec![7, 9, 255, 0]));
    assert_eq!(parse_grid_text(b""), Some(vec![]));
    assert_eq!(parse_grid_text(b" \r\n "), Some(vec![]));
}

#[test]
fn rejects_words_that_are_not_bytes() {
    assert_eq!(parse_grid_text(b"256"), None);
    assert_eq!(parse_grid_text(b"1 -1"), None);
    assert_eq!(parse_grid_text(b"+"), None);
    assert_eq!(parse_grid_text(b"1a"), None);
    assert_eq!(parse_grid_text(b"99999999999999999999"), None);
}

#[test]
fn formats_with_single_spaces() {
    assert_eq!(format_grid(&vec![1, 2, 3, 4]), b"1 2 3 4".to_vec());
    assert_eq!(format_grid(&vec![0, 10, 99, 100, 255]), b"0 10 99 100 255".to_vec());
    assert_eq!(format_grid(&vec![]), Vec::<u8>::new());
    assert_eq!(format_grid(&vec![7]), b"7".to_vec());
}

#[test]
fn text_round_trip() {
    let cells: Vec<u8> = (0..=255).collect();
    assert_eq!(parse_grid_text(&format_grid(&cells)), Some(cells));
}
