use block_map::text::offset_for_row;

#[test]
fn test_offset_for_row() {
    assert_eq!(offset_for_row("", 0), (0, 0));
    assert_eq!(offset_for_row("", 1), (0, 0));
    assert_eq!(offset_for_row("abcd", 0), (0, 0));
    assert_eq!(offset_for_row("abcd", 1), (0, 4));
    assert_eq!(offset_for_row("\n", 0), (0, 0));
    assert_eq!(offset_for_row("\n", 1), (1, 1));
    assert_eq!(offset_for_row("abc\ndef\nghi", 0), (0, 0));
    assert_eq!(offset_for_row("abc\ndef\nghi", 1), (1, 4));
    assert_eq!(offset_for_row("abc\ndef\nghi", 2), (2, 8));
    assert_eq!(offset_for_row("abc\ndef\nghi", 3), (2, 11));
}
