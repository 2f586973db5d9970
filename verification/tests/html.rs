use teamim_tools::boxes::{BoundingBox, Rect};
use teamim_tools::html::{box_file_stem, diff_row, entry_url, render_div, Div};
use teamim_tools::numbers::{push_decimal, push_signed};
use teamim_tools::remap::LineDiffOp;

#[test]
fn rows_of_the_index() {
    assert_eq!(
        diff_row(3, "gen/1", true, false),
        "<tr><td>3</td><td><a href=\"#gen/1\">gen/1</a></td><td>✅</td><td>❌</td></tr>"
    );
    assert_eq!(
        diff_row(1024, "a&b<\"c\">", false, true),
        "<tr><td>1024</td><td><a href=\"#a&amp;b&lt;&quot;c&quot;&gt;\">a&amp;b&lt;&quot;c&quot;&gt;</a></td><td>❌</td><td>✅</td></tr>"
    );
}

#[test]
fn decimals() {
    let mut out = String::from("n=");
    push_decimal(&mut out, 0);
    assert_eq!(out, "n=0");
    let mut out = String::new();
    push_decimal(&mut out, 907);
    assert_eq!(out, "907");
    let mut out = String::new();
    push_decimal(&mut out, usize::MAX);
    assert_eq!(out, usize::MAX.to_string());
}

#[test]
fn urls_of_entries() {
    assert_eq!(entry_url("0.0421\tgen/3"), Some("gen/3"));
    assert_eq!(entry_url("a\tb\tc"), Some("b\tc"));
    assert_eq!(entry_url("no tab"), None);
    assert_eq!(box_file_stem("gen/3"), "gen_3");
}

#[test]
fn signed_numbers() {
    let mut out = String::new();
    push_signed(&mut out, -42);
    push_signed(&mut out, 0);
    push_signed(&mut out, i32::MIN);
    assert_eq!(out, format!("-420{}", i32::MIN));
}

#[test]
fn markup_of_a_page_diff() {
    let div = Div {
        width: 300,
        height: 200,
        tess_box: vec![BoundingBox {
            value: vec![
                LineDiffOp::Equal("אב".to_string()),
                LineDiffOp::insert("<x>".to_string()),
                LineDiffOp::Delete("ג".to_string()),
            ],
            rect: Rect { left: 1, bottom: -2, right: 30, top: 40 },
            page: 0,
        }],
    };
    assert_eq!(
        render_div(div),
        "<div id=\"box-container\" style=\"width: 300px; height: 200px;\"><tess-box top=\"40\" left=\"1\" right=\"30\" bottom=\"-2\">אב<insert err=\"&lt;x&gt;\"></insert><delete>ג</delete></tess-box></div>"
    );
    let empty = Div { width: 0, height: 0, tess_box: Vec::new() };
    assert_eq!(render_div(empty), "<div id=\"box-container\" style=\"width: 0px; height: 0px;\"></div>");
}
