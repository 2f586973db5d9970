use teamim_tools::boxes::{
    check_line, is_checked_file, verify_page, BoundingBox, BoxError, FiledError, LocatedError, Rect, MIN_WIDTH,
};

fn line(value: &str, right: i32, top: i32) -> BoundingBox<String> {
    BoundingBox { value: value.to_string(), rect: Rect { left: 0, bottom: 0, right, top }, page: 7 }
}

#[test]
fn good_line_passes() {
    assert_eq!(check_line(&line("בראשית ברא", 40, 12)), Ok(()));
    assert_eq!(check_line(&line("ה ראשית", 40, 12)), Ok(()));
}

#[test]
fn small_line_is_refused() {
    assert_eq!(
        check_line(&line("בראשית", MIN_WIDTH - 1, 12)),
        Err((0, BoxError::LineTooSmall { width: 2, height: 12 }))
    );
    assert_eq!(check_line(&line("בראשית", 40, 3)), Ok(()));
}

#[test]
fn empty_line_is_refused() {
    assert_eq!(check_line(&line("", 40, 12)), Err((0, BoxError::EmptyLine)));
}

#[test]
fn short_word_is_refused_at_its_column() {
    assert_eq!(
        check_line(&line("בראשית ב ראשית", 40, 12)),
        Err((
            6,
            BoxError::WordTooShort {
                page: 7,
                word: "ב".to_string(),
                len: 1,
                line: "בראשית ב ראשית".to_string()
            }
        ))
    );
    assert_eq!(
        check_line(&line("א  ב", 40, 12)),
        Err((0, BoxError::WordTooShort { page: 7, word: "א".to_string(), len: 1, line: "א  ב".to_string() }))
    );
}

#[test]
fn invalid_char_is_refused_at_its_byte() {
    // the column counts the characters of the words before, then bytes
    assert_eq!(check_line(&line("בראשית ברx", 40, 12)), Err((6 + 4, BoxError::InvalidChar('x'))));
    assert_eq!(check_line(&line("בְּ", 40, 12)), Err((2, BoxError::InvalidChar('\u{05b0}'))));
}

#[test]
fn page_text_is_joined_and_found() {
    let training = "בראשית ברא אלהים את השמים ואת הארץ";
    let lines = vec![Ok(line("ברא אלהים", 40, 12)), Ok(line("את השמים", 40, 12))];
    assert_eq!(verify_page(&lines, training), Ok("ברא אלהים את השמים".to_string()));
}

#[test]
fn page_text_not_found() {
    let training = "בראשית ברא אלהים";
    let lines = vec![Ok(line("ברא אלהים", 40, 12)), Ok(line("את השמים", 40, 12))];
    assert_eq!(
        verify_page(&lines, training),
        Err(LocatedError::new(0, 0, BoxError::TextNotFound("ברא אלהים את השמים".to_string())))
    );
}

#[test]
fn first_page_error_is_located() {
    let lines = vec![
        Ok(line("ברא אלהים", 40, 12)),
        Err("bad box line".to_string()),
        Ok(line("ב", 40, 12)),
    ];
    let err = verify_page(&lines, "").unwrap_err();
    assert_eq!(err.row, 1);
    assert_eq!(err.col, 0);
    assert_eq!(err.err, BoxError::Parse("bad box line".to_string()));

    let lines = vec![Ok(line("ברא אלהים", 40, 12)), Ok(line("אx", 40, 12))];
    assert_eq!(verify_page(&lines, "ברא אלהים"), Err(LocatedError::new(1, 2, BoxError::InvalidChar('x'))));
}

#[test]
fn empty_page_is_found_anywhere() {
    assert_eq!(verify_page(&Vec::new(), "אב"), Ok(String::new()));
}

#[test]
fn only_box_files_are_checked() {
    assert!(is_checked_file(Some("box"), Some("001_002")));
    assert!(!is_checked_file(Some("txt"), Some("001_002")));
    assert!(!is_checked_file(None, Some("001_002")));
    assert!(!is_checked_file(Some("box"), Some("248_088")));
}

#[test]
fn errors_keep_their_place() {
    let located = LocatedError::new(3, 4, BoxError::EmptyLine);
    assert_eq!((located.row, located.col), (3, 4));
    let filed = FiledError::new("a.box".to_string(), located);
    assert_eq!(filed.path, "a.box");
    assert_eq!(filed.err, LocatedError::new(3, 4, BoxError::EmptyLine));
    let bx = line("אב", 40, 12).with_value(5usize);
    assert_eq!((bx.value, bx.page, bx.rect), (5, 7, Rect { left: 0, bottom: 0, right: 40, top: 12 }));
}

#[test]
fn messages_of_errors() {
    let filed = |err| FiledError::new("p/a.box".to_string(), LocatedError::new(2, 5, err));
    assert_eq!(
        filed(BoxError::LineTooSmall { width: 2, height: -1 }).describe("p/a.txt"),
        "p/a.box:3:6: line too small 2x-1, min 3"
    );
    assert_eq!(filed(BoxError::EmptyLine).describe("p/a.txt"), "p/a.box:3:6: empty line");
    assert_eq!(filed(BoxError::InvalidChar('x')).describe("p/a.txt"), "p/a.box:3:6: invalid char 'x'");
    assert_eq!(
        filed(BoxError::WordTooShort { page: 7, word: "ב".to_string(), len: 1, line: "ב \"ג\"".to_string() })
            .describe("p/a.txt"),
        "p/a.box:3:6: page 7: word \"ב\" too short with 1, min 2\nline: \"ב \\\"ג\\\"\""
    );
    assert_eq!(
        filed(BoxError::TextNotFound("אב".to_string())).describe("p/a.txt"),
        "p/a.box:3:6: text not found (wrote to \"p/a.txt\")"
    );
    assert_eq!(filed(BoxError::Parse("bad".to_string())).describe("p/a.txt"), "p/a.box:3:6: bad");
    assert_eq!(filed(BoxError::InvalidChar('x')).describe_with("<x>", "ignored"), "p/a.box:3:6: invalid char <x>");
}
