use std::ops::Range;

use teamim_tools::boxes::{BoundingBox, Rect};
use teamim_tools::remap::{DiffOp, DiffOps, DiffTag, LineDiffOp, RemapCtx, RemapError};
use teamim_tools::scroll::{check_ops, diff_pages, map_scroll, ocr_page, ocr_pages, page_lengths};

fn rect(i: i32) -> Rect {
    Rect { left: 0, bottom: i, right: 100, top: i + 10 }
}

fn recognized(values: &[&str]) -> Vec<BoundingBox<String>> {
    values
        .iter()
        .enumerate()
        .map(|(i, v)| BoundingBox { value: v.to_string(), rect: rect(i as i32), page: 1 })
        .collect()
}

fn ranges(lines: &[BoundingBox<Range<usize>>]) -> Vec<Range<usize>> {
    lines.iter().map(|l| l.value.clone()).collect()
}

#[test]
fn ocr_page_joins_lines_with_spaces() {
    let page = ocr_page(&recognized(&["אב\n", "גדה\n"])).unwrap();
    assert_eq!(page.text, "אב גדה ");
    assert_eq!(ranges(&page.lines), vec![0..3, 3..7]);
    assert_eq!(page.lines[1].rect, rect(1));
    assert_eq!(page.text.chars().count(), 7);
}

#[test]
fn ocr_page_needs_line_breaks() {
    assert_eq!(ocr_page(&recognized(&["אב\n", "גד", "ה"])).err(), Some(1));
    assert_eq!(ocr_page(&recognized(&["", "ה\n"])).err(), Some(0));
}

#[test]
fn ocr_pages_concatenate() {
    let pages = vec![recognized(&["אב\n"]), recognized(&["גד\n", "ה\n"])];
    let (text, lines) = ocr_pages(&pages).unwrap();
    assert_eq!(text, "אב גד ה ");
    assert_eq!(ranges(&lines[0]), vec![0..3]);
    assert_eq!(ranges(&lines[1]), vec![0..3, 3..5]);
    let bad = vec![recognized(&["אב\n"]), recognized(&["גד\n", "ה"])];
    assert_eq!(ocr_pages(&bad).err(), Some((1, 1)));
}

fn line_box(range: Range<usize>, i: i32) -> BoundingBox<Range<usize>> {
    BoundingBox { value: range, rect: rect(i), page: 0 }
}

#[test]
fn replace_is_split_into_delete_and_insert() {
    let ops = vec![
        DiffOp::Equal { old_index: 0, new_index: 0, len: 1 },
        DiffOp::Replace { old_index: 1, old_len: 1, new_index: 1, new_len: 1 },
        DiffOp::Equal { old_index: 2, new_index: 2, len: 1 },
    ];
    let pages = vec![vec![line_box(0..3, 0)]];
    let mapped = map_scroll("abc", "axc", &ops, &pages).unwrap();
    assert_eq!(
        mapped[0].lines[0].value,
        vec![
            LineDiffOp::Equal("a".to_string()),
            LineDiffOp::Delete("b".to_string()),
            LineDiffOp::insert("x".to_string()),
            LineDiffOp::Equal("c".to_string()),
        ]
    );
    assert_eq!(
        mapped[0].ops,
        vec![
            DiffOp::Equal { old_index: 0, new_index: 0, len: 1 },
            DiffOp::Delete { old_index: 1, old_len: 1, new_index: 1 },
            DiffOp::Insert { old_index: 1, new_index: 1, new_len: 1 },
            DiffOp::Equal { old_index: 2, new_index: 2, len: 1 },
        ]
    );
    assert_eq!(page_lengths(&mapped[0].ops), Some((3, 3)));
}

#[test]
fn operations_are_split_at_line_and_page_ends() {
    let ops = vec![DiffOp::Equal { old_index: 0, new_index: 0, len: 5 }];
    let pages = vec![vec![line_box(0..2, 0), line_box(2..3, 1)], vec![line_box(0..2, 2)]];
    let mapped = map_scroll("abcde", "abcde", &ops, &pages).unwrap();
    assert_eq!(mapped.len(), 2);
    assert_eq!(mapped[0].lines[0].value, vec![LineDiffOp::Equal("ab".to_string())]);
    assert_eq!(mapped[0].lines[1].value, vec![LineDiffOp::Equal("c".to_string())]);
    assert_eq!(mapped[1].lines[0].value, vec![LineDiffOp::Equal("de".to_string())]);
    assert_eq!(mapped[1].ops, vec![DiffOp::Equal { old_index: 3, new_index: 3, len: 2 }]);
    // every line received as many characters as its range covers
    let filled = |ops: &[LineDiffOp]| -> usize {
        ops.iter()
            .map(|op| match op {
                LineDiffOp::Equal(t) | LineDiffOp::Insert { err: t } => t.chars().count(),
                LineDiffOp::Delete(_) => 0,
            })
            .sum()
    };
    for (page, lines) in mapped.iter().zip(&pages) {
        for (diff, line) in page.lines.iter().zip(lines) {
            assert_eq!(filled(&diff.value), line.value.len());
        }
    }
    assert_eq!(mapped[0].lines[1].rect, rect(1));
}

#[test]
fn slices_outside_the_text_fail_with_their_page() {
    let ops = vec![DiffOp::Equal { old_index: 0, new_index: 0, len: 2 }, DiffOp::Delete { old_index: 5, old_len: 1, new_index: 2 }];
    let pages = vec![vec![line_box(0..2, 0)], vec![line_box(0..1, 1)]];
    assert_eq!(map_scroll("ab", "ab", &ops, &pages).err(), Some((1, RemapError::SliceOld)));
    let ops = vec![DiffOp::Equal { old_index: 0, new_index: 0, len: 4 }];
    let pages = vec![vec![line_box(0..4, 0)]];
    assert_eq!(map_scroll("abcd", "ab", &ops, &pages).err(), Some((0, RemapError::SliceNew { chunk_len: 4 })));
}

#[test]
fn page_by_page_with_the_context() {
    let mut ctx = RemapCtx::new("abc", "abc");
    let mut ops = DiffOps::new(vec![DiffOp::Equal { old_index: 0, new_index: 0, len: 3 }]);
    let first = ctx.map_diff_page(&mut ops, &[line_box(0..2, 0)]).unwrap();
    assert_eq!(first[0].value, vec![LineDiffOp::Equal("ab".to_string())]);
    assert_eq!(ctx.page_ops(), &vec![DiffOp::Equal { old_index: 0, new_index: 0, len: 2 }]);
    assert_eq!(ops.ops[ops.next], DiffOp::Equal { old_index: 2, new_index: 2, len: 1 });
    assert_eq!(DiffOp::Delete { old_index: 0, old_len: 1, new_index: 0 }.tag(), DiffTag::Delete);
}

#[test]
fn real_diff_of_a_scroll() {
    let (new, lines) = ocr_pages(&[recognized(&["ברא\n", "אלהים\n"])]).unwrap();
    let (ops, mapped) = diff_pages("ברא אלוהים ", &new, &lines);
    assert!(check_ops(&ops));
    let mapped = mapped.unwrap();
    let line_text = |ops: &[LineDiffOp]| -> String {
        ops.iter()
            .filter_map(|op| match op {
                LineDiffOp::Equal(t) | LineDiffOp::Insert { err: t } => Some(t.as_str()),
                LineDiffOp::Delete(_) => None,
            })
            .collect()
    };
    assert_eq!(line_text(&mapped[0].lines[0].value), "ברא ");
    assert_eq!(line_text(&mapped[0].lines[1].value), "אלהים ");
    assert!(mapped[0].lines[1].value.contains(&LineDiffOp::Delete("ו".to_string())));
    assert_eq!(page_lengths(&mapped[0].ops), Some((11, 10)));
    // the pieces of the pages give back both texts
    let (mut new_back, mut old_back) = (String::new(), String::new());
    for page in &mapped {
        for line in &page.lines {
            for op in &line.value {
                match op {
                    LineDiffOp::Equal(t) => {
                        new_back.push_str(t);
                        old_back.push_str(t);
                    }
                    LineDiffOp::Insert { err } => new_back.push_str(err),
                    LineDiffOp::Delete(t) => old_back.push_str(t),
                }
            }
        }
    }
    assert_eq!(new_back, new);
    assert_eq!(old_back, "ברא אלוהים ");
    // the operations take both texts in order
    let (mut oi, mut ni) = (0, 0);
    for op in &ops {
        match *op {
            DiffOp::Equal { old_index, new_index, len } => {
                assert_eq!((old_index, new_index), (oi, ni));
                oi += len;
                ni += len;
            }
            DiffOp::Delete { old_index, old_len, .. } => {
                assert_eq!(old_index, oi);
                oi += old_len;
            }
            DiffOp::Insert { new_index, new_len, .. } => {
                assert_eq!(new_index, ni);
                ni += new_len;
            }
            DiffOp::Replace { old_index, old_len, new_index, new_len } => {
                assert_eq!((old_index, new_index), (oi, ni));
                oi += old_len;
                ni += new_len;
            }
        }
    }
    assert_eq!((oi, ni), (11, 10));
}

#[test]
fn operation_checks_and_lengths() {
    assert!(check_ops(&[DiffOp::Insert { old_index: 0, new_index: 0, new_len: 1 }]));
    assert!(!check_ops(&[DiffOp::Equal { old_index: 0, new_index: 0, len: 0 }]));
    assert!(!check_ops(&[DiffOp::Delete { old_index: usize::MAX, old_len: 1, new_index: 0 }]));
    assert_eq!(page_lengths(&[]), Some((0, 0)));
    assert_eq!(
        page_lengths(&[DiffOp::Delete { old_index: 0, old_len: 2, new_index: 0 }, DiffOp::Insert { old_index: 2, new_index: 0, new_len: 5 }]),
        Some((2, 5))
    );
    assert_eq!(
        page_lengths(&[DiffOp::Delete { old_index: 0, old_len: usize::MAX, new_index: 0 }, DiffOp::Delete { old_index: 0, old_len: 1, new_index: 0 }]),
        None
    );
}
