use teamim_tools::bytes::{append_bytes, bytes_eq, bytes_from, contains_bytes, push_char_utf8, starts_with_str};
use teamim_tools::words::{piece_ranges, replace_char, split_once, str_eq};

#[test]
fn pieces_between_separators() {
    assert_eq!(piece_ranges("אב גד", ' '), vec![(0, 2), (3, 5)]);
    assert_eq!(piece_ranges("a__b", '_'), vec![(0, 1), (2, 2), (3, 4)]);
    assert_eq!(piece_ranges("", ' '), vec![(0, 0)]);
}

#[test]
fn characters_are_compared_and_replaced() {
    assert!(str_eq("box", "box"));
    assert!(!str_eq("box", "bo"));
    assert_eq!(replace_char("gen/1/2", '/', '_'), "gen_1_2");
    assert_eq!(replace_char("אב", 'א', 'ﬡ'), "ﬡב");
}

#[test]
fn byte_helpers() {
    let mut out = vec![1u8];
    append_bytes(&mut out, &[2, 3]);
    assert_eq!(out, vec![1, 2, 3]);
    push_char_utf8(&mut out, 'א');
    assert_eq!(out, vec![1, 2, 3, 0xD7, 0x90]);
    assert!(bytes_eq(&[1, 2], &[1, 2]));
    assert!(!bytes_eq(&[1, 2], &[1]));
    assert!(starts_with_str(b"spi-x", "spi-"));
    assert!(!starts_with_str(b"sp", "spi-"));
    assert_eq!(bytes_from(&[1, 2, 3], 1), vec![2, 3]);
    assert!(contains_bytes(b"hello world", b"o w"));
    assert!(contains_bytes(b"abc", b""));
    assert!(!contains_bytes(b"abc", b"abcd"));
    assert!(!contains_bytes(b"abc", b"ac"));
}

#[test]
fn split_at_the_first_separator() {
    assert_eq!(split_once("gen_001_x", '_'), Some(("gen", "001_x")));
    assert_eq!(split_once("_", '_'), Some(("", "")));
    assert_eq!(split_once("gen", '_'), None);
}
