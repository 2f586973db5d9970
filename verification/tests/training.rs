use teamim_tools::boxes::{BoundingBox, Rect};
use teamim_tools::mam::wide_letter;
use teamim_tools::training::{
    book_and_page, box_char, checkpoint_error, line_char_boxes, tess_dir_on, tessdata_dir_on, narrow_box_line, narrow_letter, tess_dir, tessdata_dir, term_lines, unique_words,
};

#[test]
fn tesseract_dirs() {
    assert_eq!(tess_dir(), "/usr/bin");
    assert_eq!(tessdata_dir(), "/usr/share/tessdata");
}

#[test]
fn narrow_undoes_wide() {
    for c in "אבגדהוזחטיכלמנסעפצקרשת".chars() {
        if let Some(w) = wide_letter(c) {
            assert_eq!(narrow_letter(w), Some(c));
        }
    }
    assert_eq!(narrow_letter('ﬨ'), Some('ת'));
    assert_eq!(narrow_letter('ת'), None);
}

#[test]
fn box_chars_of_wide_text() {
    assert_eq!(box_char('ﬡ', true), 'א');
    assert_eq!(box_char('ﬡ', false), 'ﬡ');
    assert_eq!(box_char('ב', true), 'ב');
}

#[test]
fn box_lines_are_narrowed() {
    assert_eq!(narrow_box_line("ﬥ 10 20 30 40 0\n"), "ל 10 20 30 40 0\n".as_bytes());
    assert_eq!(narrow_box_line("ל 10 20 30 40 0\n"), "ל 10 20 30 40 0\n".as_bytes());
    assert_eq!(narrow_box_line("ﬥﬡ"), "לﬡ".as_bytes());
    assert_eq!(narrow_box_line(""), b"");
}

#[test]
fn checkpoint_names() {
    assert_eq!(checkpoint_error("stam_0.532_1200_3400"), Some("0.532"));
    assert_eq!(checkpoint_error("stam_0.532_1200"), None);
    assert_eq!(checkpoint_error("a_b_c_d_e"), None);
    assert_eq!(checkpoint_error("_x__"), Some("x"));
}

#[test]
fn word_list_is_unique() {
    let words = unique_words("ברא את ברא  את");
    assert_eq!(words, vec!["ברא".to_string(), "את".to_string(), String::new()]);
    assert_eq!(unique_words(""), vec![String::new()]);
}

fn char_boxes(text: &str) -> Vec<BoundingBox<char>> {
    text.chars().map(|c| BoundingBox { value: c, rect: Rect { left: 0, bottom: 0, right: 1, top: 1 }, page: 0 }).collect()
}

#[test]
fn term_is_found_by_line() {
    let boxes = char_boxes("אבג\tדהו\tאבד\tזח");
    let found = term_lines(&boxes, "אב");
    assert_eq!(found.found, vec![2, 4]);
    assert_eq!(found.empty_line_at, None);
}

#[test]
fn tab_without_line_stops() {
    let boxes = char_boxes("אב\t\tאב\t");
    let found = term_lines(&boxes, "ב");
    assert_eq!(found.found, vec![2]);
    assert_eq!(found.empty_line_at, Some(3));
}

#[test]
fn stems_name_book_and_page() {
    assert_eq!(book_and_page("N5_007"), Some(("N5", "007")));
    assert_eq!(book_and_page("N5"), None);
}

#[test]
fn rendered_line_boxes() {
    let rect = Rect { left: 1, bottom: 2, right: 3, top: 4 };
    let boxes = line_char_boxes("ﬡב", rect, 5, true, true);
    let values: Vec<char> = boxes.iter().map(|b| b.value).collect();
    assert_eq!(values, vec!['\t', 'א', 'ב']);
    assert!(boxes.iter().all(|b| b.rect == rect && b.page == 5));
    let first = line_char_boxes("ﬡב", rect, 0, false, false);
    assert_eq!(first.iter().map(|b| b.value).collect::<String>(), "ﬡב");
}

#[test]
fn tesseract_dirs_per_platform() {
    assert_eq!(tess_dir_on(true), "C:\\Program Files\\Tesseract-OCR");
    assert_eq!(tessdata_dir_on(true), "C:\\Program Files\\Tesseract-OCR\\tessdata");
    assert_eq!(tess_dir_on(false), "/usr/bin");
    assert_eq!(tessdata_dir_on(false), "/usr/share/tessdata");
}
