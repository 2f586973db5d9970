use teamim_tools::boxes::{BoundingBox, Rect};
use teamim_tools::boxfile::{format_char_box, group_lines, normalize_box_lines, parse_char_box};
use teamim_tools::numbers::{parse_i32, parse_usize};
use teamim_tools::training::term_lines;

fn char_box(value: char, left: i32, page: usize) -> BoundingBox<char> {
    BoundingBox { value, rect: Rect { left, bottom: 2, right: 30, top: 40 }, page }
}

#[test]
fn integers_are_read_as_str_parse_reads_them() {
    for s in ["0", "17", "-17", "+17", "2147483647", "-2147483648", "2147483648", "-", "+", "", "1a", "--1", " 1"] {
        assert_eq!(parse_i32(s), s.parse::<i32>().ok(), "{s:?}");
    }
    for s in ["0", "17", "+17", "-0", "-17", "18446744073709551615", "18446744073709551616", "", "x"] {
        assert_eq!(parse_usize(s), s.parse::<usize>().ok(), "{s:?}");
    }
}

#[test]
fn char_box_lines() {
    let bx = parse_char_box("א 10 -20 30 40 2").unwrap();
    assert_eq!(bx.value, 'א');
    assert_eq!(bx.rect, Rect { left: 10, bottom: -20, right: 30, top: 40 });
    assert_eq!(bx.page, 2);
    let tab = parse_char_box("\t 1 2 3 4 0").unwrap();
    assert_eq!(tab.value, '\t');
    assert!(parse_char_box("א 10 20 30 40").is_none());
    assert!(parse_char_box("א 10 20 30 40 2 5").is_none());
    assert!(parse_char_box("א  10 20 30 40").is_none());
    assert!(parse_char_box("א 10 20 30 40 -2").is_none());
    assert!(parse_char_box("אב 10 20 30 40 2").is_none());
    assert!(parse_char_box("").is_none());
}

#[test]
fn written_boxes_read_back() {
    for bx in [char_box('ש', -5, 0), char_box('\t', i32::MIN, usize::MAX), char_box(' ', i32::MAX, 12)] {
        let line = format_char_box(&bx);
        let back = parse_char_box(&line).unwrap();
        assert_eq!((back.value, back.rect, back.page), (bx.value, bx.rect, bx.page));
    }
    assert_eq!(format_char_box(&char_box('ש', -5, 3)), "ש -5 2 30 40 3");
}

#[test]
fn characters_make_lines() {
    let chars = vec![char_box('א', 1, 0), char_box('ב', 2, 0), char_box('\t', 3, 0), char_box('ג', 4, 1), char_box('\t', 5, 1), char_box('ד', 6, 1)];
    let lines = group_lines(&chars).unwrap();
    assert_eq!(lines.len(), 2);
    assert_eq!(lines[0].value, "אב");
    assert_eq!(lines[0].rect.left, 1);
    assert_eq!((lines[1].value.as_str(), lines[1].page), ("ג", 1));
    let found = term_lines(&chars, "ג");
    assert_eq!(found.found, vec![3]);
}

#[test]
fn tab_without_line_is_an_error() {
    let chars = vec![char_box('א', 1, 0), char_box('\t', 3, 0), char_box('\t', 4, 0)];
    assert_eq!(group_lines(&chars).err(), Some(2));
    assert_eq!(term_lines(&chars, "א").empty_line_at, Some(2));
}

#[test]
fn box_files_are_normalized() {
    let lines = vec!["א 1 2 3 4 0".to_string(), "\t +1 2 3 4 0".to_string()];
    assert_eq!(normalize_box_lines(&lines), Ok(vec!["א 1 2 3 4 0".to_string(), "\t 1 2 3 4 0".to_string()]));
    let bad = vec!["א 1 2 3 4 0".to_string(), "bad".to_string()];
    assert_eq!(normalize_box_lines(&bad), Err(1));
}
