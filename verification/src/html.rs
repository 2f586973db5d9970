//! The HTML of the OCR diffs: the markup of the diff of a page, and the index
//! that the editor server lists, one table row per line of the distances
//! file, with marks for the diffs and box files that were corrected already.
use std::fmt::Write;

use maud::Escaper;
use vstd::prelude::*;
use vstd::string::*;

use crate::boxes::BoundingBox;
use crate::remap::LineDiffOp;
use crate::numbers::{decimal, push_decimal, push_signed, signed_decimal};
use crate::words::{first_index_of, replace_char, replaced, split_once};

verus! {

broadcast use vstd::string::group_string_axioms;

/// `s` escaped for HTML text and attribute values: `&`, `<`, `>` and `"`
/// become entities.
pub open spec fn html_escape(s: Seq<char>) -> Seq<char>
    decreases s.len(),
{
    if s.len() == 0 {
        Seq::empty()
    } else {
        let c = s.last();
        html_escape(s.drop_last()) + if c == '&' {
            seq!['&', 'a', 'm', 'p', ';']
        } else if c == '<' {
            seq!['&', 'l', 't', ';']
        } else if c == '>' {
            seq!['&', 'g', 't', ';']
        } else if c == '"' {
            seq!['&', 'q', 'u', 'o', 't', ';']
        } else {
            seq![c]
        }
    }
}

/// Appends `s` to `out`, escaped for HTML.
///
/// Trusted: writes `s` through `maud::Escaper`, whose `write_str` replaces the
/// bytes of `&`, `<`, `>` and `"` by their entities, copies every other byte,
/// and never fails.
#[verifier::external_body]
fn escape_into(out: &mut String, s: &str)
    ensures
        final(out)@ == old(out)@ + html_escape(s@),
{
    let _ = write!(Escaper::new(out), "{s}");
}

/// The URL of an entry of the distances file: what follows the first tab of
/// the line, if it has one.
pub fn entry_url<'a>(line: &'a str) -> (res: Option<&'a str>)
    ensures
        match first_index_of(line@, '\t') {
            Some(t) => res matches Some(url) && url@ == line@.skip(t + 1),
            None => res is None,
        },
{
    match split_once(line, '\t') {
        Some((_, url)) => Some(url),
        None => None,
    }
}

/// The stem of the corrected box file of the page at `url`: its slashes
/// become underscores.
pub fn box_file_stem(url: &str) -> (res: String)
    ensures
        res@ == replaced(url@, '/', '_'),
{
    replace_char(url, '/', '_')
}

/// The mark for whether a file exists.
pub open spec fn mark(exists: bool) -> Seq<char> {
    if exists {
        seq!['✅']
    } else {
        seq!['❌']
    }
}

fn push_mark(out: &mut String, exists: bool)
    ensures
        final(out)@ == old(out)@ + mark(exists),
{
    proof {
        reveal_strlit("✅");
        reveal_strlit("❌");
    }
    if exists {
        out.append("✅");
    } else {
        out.append("❌");
    }
}

/// The table row of entry `i` of the index: its number, a link to the diff
/// at `url`, and whether a corrected diff and a corrected box file exist.
pub open spec fn spec_diff_row(i: nat, url: Seq<char>, has_save: bool, has_box: bool) -> Seq<char> {
    "<tr><td>"@ + decimal(i) + "</td><td><a href=\"#"@ + html_escape(url) + "\">"@ + html_escape(url)
        + "</a></td><td>"@ + mark(has_save) + "</td><td>"@ + mark(has_box) + "</td></tr>"@
}

/// The table row of entry `i` of the index, as HTML.
pub fn diff_row(i: usize, url: &str, has_save: bool, has_box: bool) -> (res: String)
    ensures
        res@ == spec_diff_row(i as nat, url@, has_save, has_box),
{
    let mut out = String::new();
    out.append("<tr><td>");
    push_decimal(&mut out, i);
    out.append("</td><td><a href=\"#");
    escape_into(&mut out, url);
    out.append("\">");
    escape_into(&mut out, url);
    out.append("</a></td><td>");
    push_mark(&mut out, has_save);
    out.append("</td><td>");
    push_mark(&mut out, has_box);
    out.append("</td></tr>");
    assert(out@ =~= spec_diff_row(i as nat, url@, has_save, has_box));
    out
}

/// The diff of a page laid over its image: the image's size, and each line
/// box with the pieces of its diff.
pub struct Div {
    pub width: u32,
    pub height: u32,
    pub tess_box: Vec<BoundingBox<Vec<LineDiffOp>>>,
}

/// The markup of one piece of a line's diff.
pub open spec fn op_markup(op: LineDiffOp) -> Seq<char> {
    match op {
        LineDiffOp::Equal(v) => html_escape(v@),
        LineDiffOp::Insert { err } => "<insert err=\""@ + html_escape(err@) + "\"></insert>"@,
        LineDiffOp::Delete(v) => "<delete>"@ + html_escape(v@) + "</delete>"@,
    }
}

/// The markup of the pieces of a line's diff, one after another.
pub open spec fn ops_markup(ops: Seq<LineDiffOp>) -> Seq<char>
    decreases ops.len(),
{
    if ops.len() == 0 {
        Seq::empty()
    } else {
        ops_markup(ops.drop_last()) + op_markup(ops.last())
    }
}

/// The markup of a line box with its diff.
pub open spec fn box_markup(bx: BoundingBox<Vec<LineDiffOp>>) -> Seq<char> {
    "<tess-box top=\""@ + signed_decimal(bx.rect.top as int) + "\" left=\""@ + signed_decimal(bx.rect.left as int)
        + "\" right=\""@ + signed_decimal(bx.rect.right as int) + "\" bottom=\""@ + signed_decimal(
        bx.rect.bottom as int,
    ) + "\">"@ + ops_markup(bx.value@) + "</tess-box>"@
}

/// The markup of the line boxes, one after another.
pub open spec fn boxes_markup(boxes: Seq<BoundingBox<Vec<LineDiffOp>>>) -> Seq<char>
    decreases boxes.len(),
{
    if boxes.len() == 0 {
        Seq::empty()
    } else {
        boxes_markup(boxes.drop_last()) + box_markup(boxes.last())
    }
}

/// The markup of the diff of a page.
pub open spec fn div_markup(val: Div) -> Seq<char> {
    "<div id=\"box-container\" style=\"width: "@ + decimal(val.width as nat) + "px; height: "@ + decimal(
        val.height as nat,
    ) + "px;\">"@ + boxes_markup(val.tess_box@) + "</div>"@
}

fn push_op(out: &mut String, op: &LineDiffOp)
    ensures
        final(out)@ == old(out)@ + op_markup(*op),
{
    match op {
        LineDiffOp::Equal(v) => escape_into(out, v.as_str()),
        LineDiffOp::Insert { err } => {
            out.append("<insert err=\"");
            escape_into(out, err.as_str());
            out.append("\"></insert>");
        },
        LineDiffOp::Delete(v) => {
            out.append("<delete>");
            escape_into(out, v.as_str());
            out.append("</delete>");
        },
    }
}

fn push_box(out: &mut String, bx: &BoundingBox<Vec<LineDiffOp>>)
    ensures
        final(out)@ == old(out)@ + box_markup(*bx),
{
    let ghost start = out@;
    out.append("<tess-box top=\"");
    push_signed(out, bx.rect.top);
    out.append("\" left=\"");
    push_signed(out, bx.rect.left);
    out.append("\" right=\"");
    push_signed(out, bx.rect.right);
    out.append("\" bottom=\"");
    push_signed(out, bx.rect.bottom);
    out.append("\">");
    let ghost head = out@;
    let mut i: usize = 0;
    proof {
        assert(bx.value@.take(0) =~= Seq::<LineDiffOp>::empty());
    }
    while i < bx.value.len()
        invariant
            i <= bx.value@.len(),
            out@ == head + ops_markup(bx.value@.take(i as int)),
        decreases bx.value.len() - i,
    {
        push_op(out, &bx.value[i]);
        proof {
            assert(bx.value@.take(i + 1).drop_last() =~= bx.value@.take(i as int));
        }
        i = i + 1;
    }
    out.append("</tess-box>");
    proof {
        assert(bx.value@.take(i as int) =~= bx.value@);
        assert(out@ =~= start + box_markup(*bx));
    }
}

/// The markups of the line boxes `bs`, the first box first.
pub open spec fn each_box_markup(bs: Seq<BoundingBox<Vec<LineDiffOp>>>) -> Seq<char>
    decreases bs.len(),
{
    if bs.len() == 0 {
        Seq::empty()
    } else {
        box_markup(bs[0]) + each_box_markup(bs.drop_first())
    }
}

proof fn lemma_each_box_push(bs: Seq<BoundingBox<Vec<LineDiffOp>>>, b: BoundingBox<Vec<LineDiffOp>>)
    ensures
        each_box_markup(bs.push(b)) == each_box_markup(bs) + box_markup(b),
    decreases bs.len(),
{
    if bs.len() == 0 {
        assert(bs.push(b).drop_first() =~= Seq::<BoundingBox<Vec<LineDiffOp>>>::empty());
        assert(bs.push(b)[0] == b);
        assert(each_box_markup(Seq::<BoundingBox<Vec<LineDiffOp>>>::empty()) == Seq::<char>::empty());
        assert(each_box_markup(bs.push(b)) =~= box_markup(b));
        assert(each_box_markup(bs) + box_markup(b) =~= box_markup(b));
    } else {
        assert(bs.push(b).drop_first() =~= bs.drop_first().push(b));
        lemma_each_box_push(bs.drop_first(), b);
        assert(each_box_markup(bs.push(b)) =~= each_box_markup(bs) + box_markup(b));
    }
}

/// The container of a page's diff, up to its first line box.
pub open spec fn div_head(val: Div) -> Seq<char> {
    "<div id=\"box-container\" style=\"width: "@ + decimal(val.width as nat) + "px; height: "@ + decimal(
        val.height as nat,
    ) + "px;\">"@
}

/// The markup of a page's diff holds one `tess-box` element per line box of
/// the page, in their order, each with that box's rectangle and pieces,
/// between the opening and the closing of the container.
pub proof fn lemma_div_boxes(val: Div)
    ensures
        div_markup(val) == div_head(val) + each_box_markup(val.tess_box@) + "</div>"@,
{
    lemma_boxes_markup_each(val.tess_box@);
}

proof fn lemma_boxes_markup_each(bs: Seq<BoundingBox<Vec<LineDiffOp>>>)
    ensures
        boxes_markup(bs) == each_box_markup(bs),
    decreases bs.len(),
{
    if bs.len() > 0 {
        lemma_boxes_markup_each(bs.drop_last());
        lemma_each_box_push(bs.drop_last(), bs.last());
        assert(bs.drop_last().push(bs.last()) =~= bs);
    }
}

/// The markups of the pieces `ops`, the first piece first.
pub open spec fn each_op_markup(ops: Seq<LineDiffOp>) -> Seq<char>
    decreases ops.len(),
{
    if ops.len() == 0 {
        Seq::empty()
    } else {
        op_markup(ops[0]) + each_op_markup(ops.drop_first())
    }
}

proof fn lemma_each_op_push(ops: Seq<LineDiffOp>, o: LineDiffOp)
    ensures
        each_op_markup(ops.push(o)) == each_op_markup(ops) + op_markup(o),
    decreases ops.len(),
{
    if ops.len() == 0 {
        assert(ops.push(o).drop_first() =~= Seq::<LineDiffOp>::empty());
        assert(ops.push(o)[0] == o);
        assert(each_op_markup(Seq::<LineDiffOp>::empty()) == Seq::<char>::empty());
        assert(each_op_markup(ops.push(o)) =~= op_markup(o));
        assert(each_op_markup(ops) + op_markup(o) =~= op_markup(o));
    } else {
        assert(ops.push(o).drop_first() =~= ops.drop_first().push(o));
        lemma_each_op_push(ops.drop_first(), o);
        assert(each_op_markup(ops.push(o)) =~= each_op_markup(ops) + op_markup(o));
    }
}

proof fn lemma_ops_markup_each(ops: Seq<LineDiffOp>)
    ensures
        ops_markup(ops) == each_op_markup(ops),
    decreases ops.len(),
{
    if ops.len() > 0 {
        lemma_ops_markup_each(ops.drop_last());
        lemma_each_op_push(ops.drop_last(), ops.last());
        assert(ops.drop_last().push(ops.last()) =~= ops);
    }
}

/// The markup of a line box is a `tess-box` element with the box's top,
/// left, right and bottom, holding the markups of all its pieces in order.
pub proof fn lemma_box_pieces(bx: BoundingBox<Vec<LineDiffOp>>)
    ensures
        box_markup(bx) == "<tess-box top=\""@ + signed_decimal(bx.rect.top as int) + "\" left=\""@ + signed_decimal(
            bx.rect.left as int,
        ) + "\" right=\""@ + signed_decimal(bx.rect.right as int) + "\" bottom=\""@ + signed_decimal(
            bx.rect.bottom as int,
        ) + "\">"@ + each_op_markup(bx.value@) + "</tess-box>"@,
{
    lemma_ops_markup_each(bx.value@);
}

/// The markup of the diff of a page: a container of the image's size with a
/// `tess-box` element per line box, whose equal pieces stand as text, inserted
/// ones as `insert` elements with the text in their `err` attribute, and
/// deleted ones as `delete` elements; all text is escaped.
pub fn render_div(val: Div) -> (res: String)
    ensures
        res@ == div_markup(val),
        res@ == div_head(val) + each_box_markup(val.tess_box@) + "</div>"@,
{
    proof {
        lemma_div_boxes(val);
    }
    let mut out = String::new();
    out.append("<div id=\"box-container\" style=\"width: ");
    push_decimal(&mut out, val.width as usize);
    out.append("px; height: ");
    push_decimal(&mut out, val.height as usize);
    out.append("px;\">");
    let ghost head = out@;
    let mut i: usize = 0;
    proof {
        assert(val.tess_box@.take(0) =~= Seq::<BoundingBox<Vec<LineDiffOp>>>::empty());
    }
    while i < val.tess_box.len()
        invariant
            i <= val.tess_box@.len(),
            out@ == head + boxes_markup(val.tess_box@.take(i as int)),
        decreases val.tess_box.len() - i,
    {
        push_box(&mut out, &val.tess_box[i]);
        proof {
            assert(val.tess_box@.take(i + 1).drop_last() =~= val.tess_box@.take(i as int));
        }
        i = i + 1;
    }
    out.append("</div>");
    proof {
        assert(val.tess_box@.take(i as int) =~= val.tess_box@);
        assert(out@ =~= div_markup(val));
    }
    out
}

} // verus!
