//! The pages of a scroll: the OCR text that their lines make, the character
//! diff of the whole scroll against the reference text, and its mapping onto
//! the pages one after another.
use std::ops::Range;
use std::time::Duration;

use similar::{Algorithm, TextDiff};
use vstd::prelude::*;
use vstd::string::*;

use crate::boxes::BoundingBox;
use crate::pieces::{
    lemma_left_nonneg, lemma_mapped_text, lemma_scroll_pieces, lemma_tiled_scroll_pieces, lines_len, mapped_new, mapped_old, pages_len,
};
use crate::remap::{
    diffs_view, line_ends, lines_nonempty, ops_well_formed, page_start,
    spec_page, DiffOp, DiffOps, LineDiffOp, PageState, RemapCtx, RemapError,
};

verus! {

broadcast use vstd::string::group_string_axioms;

/// Whether a recognized line ends with its line break.
pub open spec fn ends_with_newline(s: Seq<char>) -> bool {
    s.len() > 0 && s.last() == '\n'
}

/// The index of the first line without its line break, if any.
pub open spec fn missing_newline(boxes: Seq<BoundingBox<String>>) -> Option<int>
    decreases boxes.len(),
{
    if boxes.len() == 0 {
        None
    } else {
        match missing_newline(boxes.drop_last()) {
            Some(k) => Some(k),
            None => if ends_with_newline(boxes.last().value@) {
                None
            } else {
                Some(boxes.len() - 1)
            },
        }
    }
}

/// The number of characters of the lines, line breaks included.
pub open spec fn page_chars(boxes: Seq<BoundingBox<String>>) -> int
    decreases boxes.len(),
{
    if boxes.len() == 0 {
        0
    } else {
        page_chars(boxes.drop_last()) + boxes.last().value@.len()
    }
}

/// The OCR text of the lines: each without its line break, followed by a space.
pub open spec fn page_ocr_text(boxes: Seq<BoundingBox<String>>) -> Seq<char>
    decreases boxes.len(),
{
    if boxes.len() == 0 {
        Seq::empty()
    } else {
        page_ocr_text(boxes.drop_last()) + boxes.last().value@.drop_last() + seq![' ']
    }
}

/// The OCR text of a page and the range of that text that each line covers.
pub struct OcrPage {
    pub text: String,
    pub lines: Vec<BoundingBox<Range<usize>>>,
}

/// The characters of a prefix of the lines are no more than those of all.
proof fn lemma_page_chars_prefix(boxes: Seq<BoundingBox<String>>, k: int)
    requires
        0 <= k <= boxes.len(),
    ensures
        0 <= page_chars(boxes.take(k)) <= page_chars(boxes),
    decreases boxes.len() - k,
{
    if k < boxes.len() {
        assert(boxes.take(k + 1).drop_last() =~= boxes.take(k));
        lemma_page_chars_prefix(boxes, k + 1);
        lemma_page_chars_nonneg(boxes.take(k));
    } else {
        assert(boxes.take(k) =~= boxes);
        lemma_page_chars_nonneg(boxes);
    }
}

proof fn lemma_page_chars_nonneg(boxes: Seq<BoundingBox<String>>)
    ensures
        page_chars(boxes) >= 0,
    decreases boxes.len(),
{
    if boxes.len() > 0 {
        lemma_page_chars_nonneg(boxes.drop_last());
    }
}

/// A line missing its break at `k - 1` is the first such line of the page
/// when the lines before it have theirs.
proof fn lemma_missing_prefix(boxes: Seq<BoundingBox<String>>, k: int)
    requires
        0 < k <= boxes.len(),
        missing_newline(boxes.take(k)) is Some,
    ensures
        missing_newline(boxes) == missing_newline(boxes.take(k)),
    decreases boxes.len() - k,
{
    if k < boxes.len() {
        assert(boxes.take(k + 1).drop_last() =~= boxes.take(k));
        lemma_missing_prefix(boxes, k + 1);
    } else {
        assert(boxes.take(k) =~= boxes);
    }
}

/// The OCR text of a page of recognized lines, each of which ends with a line
/// break: the lines without their breaks, each followed by a space.  Line `k`
/// covers the characters `page_chars(lines before k)..page_chars(lines up to k)`
/// of it (its break counted as the space).  A line without its break is an
/// error, reported by its index.
pub fn ocr_page(boxes: &[BoundingBox<String>]) -> (res: Result<OcrPage, usize>)
    requires
        page_chars(boxes@) <= usize::MAX,
    ensures
        match missing_newline(boxes@) {
            Some(k) => res == Err::<OcrPage, usize>(k as usize),
            None => res matches Ok(p) && p.text@ == page_ocr_text(boxes@) && lines_len(p.lines@) == p.text@.len()
                && p.lines@.len() == boxes@.len()
                && forall|k: int|
                0 <= k < boxes@.len() ==> (#[trigger] p.lines@[k]).value.start == page_chars(boxes@.take(k))
                    && p.lines@[k].value.end == page_chars(boxes@.take(k + 1)) && p.lines@[k].rect
                    == boxes@[k].rect && p.lines@[k].page == boxes@[k].page,
        },
{
    let mut text = String::new();
    let mut lines: Vec<BoundingBox<Range<usize>>> = Vec::new();
    let mut line_start: usize = 0;
    let mut i: usize = 0;
    proof {
        assert(boxes@.take(0) =~= Seq::<BoundingBox<String>>::empty());
    }
    while i < boxes.len()
        invariant
            i <= boxes.len(),
            page_chars(boxes@) <= usize::MAX,
            missing_newline(boxes@.take(i as int)) is None,
            line_start == page_chars(boxes@.take(i as int)),
            text@ == page_ocr_text(boxes@.take(i as int)),
            lines@.len() == i,
            lines_len(lines@) == line_start,
            forall|k: int|
                0 <= k < i ==> (#[trigger] lines@[k]).value.start == page_chars(boxes@.take(k))
                    && lines@[k].value.end == page_chars(boxes@.take(k + 1)) && lines@[k].rect == boxes@[k].rect
                    && lines@[k].page == boxes@[k].page,
        decreases boxes.len() - i,
    {
        let ghost next = boxes@.take(i + 1);
        assert(next.drop_last() =~= boxes@.take(i as int));
        assert(next.last() == boxes@[i as int]);
        let value = boxes[i].value.as_str();
        let n = value.unicode_len();
        if n == 0 || value.get_char(n - 1) != '\n' {
            proof {
                lemma_missing_prefix(boxes@, i + 1);
            }
            return Err(i);
        }
        proof {
            lemma_page_chars_prefix(boxes@, i + 1);
        }
        let stripped = value.substring_char(0, n - 1);
        text.append(stripped);
        text.append(" ");
        proof {
            reveal_strlit(" ");
            assert(stripped@ =~= value@.drop_last());
            assert(" "@ =~= seq![' ']);
        }
        let range = line_start..line_start + n;
        let ghost before = lines@;
        lines.push(boxes[i].with_value(range));
        assert(lines@.drop_last() =~= before);
        line_start = line_start + n;
        i = i + 1;
    }
    proof {
        assert(boxes@.take(i as int) =~= boxes@);
        lemma_ocr_lines_tile(boxes@);
    }
    Ok(OcrPage { text, lines })
}

/// The lines of a page tile the OCR text from its start: each covers at
/// least one character, each starts where the one before ends, and together
/// they cover as many characters as the text has.
pub proof fn lemma_ocr_lines_tile(boxes: Seq<BoundingBox<String>>)
    requires
        missing_newline(boxes) is None,
    ensures
        page_ocr_text(boxes).len() == page_chars(boxes),
        forall|k: int| 0 <= k < boxes.len() ==> page_chars(boxes.take(k)) < page_chars(#[trigger] boxes.take(k + 1)),
    decreases boxes.len(),
{
    if boxes.len() > 0 {
        let init = boxes.drop_last();
        assert(missing_newline(init) is None);
        lemma_ocr_lines_tile(init);
        assert forall|k: int| 0 <= k < boxes.len() implies page_chars(boxes.take(k)) < page_chars(
            #[trigger] boxes.take(k + 1),
        ) by {
            assert(boxes.take(k + 1).drop_last() =~= boxes.take(k));
            if k + 1 < boxes.len() {
                assert(init.take(k + 1) =~= boxes.take(k + 1));
                assert(init.take(k) =~= boxes.take(k));
            } else {
                assert(boxes.take(k + 1) =~= boxes);
            }
            assert(ends_with_newline(boxes.take(k + 1).last().value@)) by {
                if k + 1 < boxes.len() {
                    assert(boxes.take(k + 1).last() == init[k]);
                    lemma_missing_none_at(init, k);
                }
            }
        }
    }
}

/// A page without a missing line break has its break on every line.
proof fn lemma_missing_none_at(boxes: Seq<BoundingBox<String>>, k: int)
    requires
        missing_newline(boxes) is None,
        0 <= k < boxes.len(),
    ensures
        ends_with_newline(boxes[k].value@),
    decreases boxes.len(),
{
    if k < boxes.len() - 1 {
        assert(boxes.drop_last()[k] == boxes[k]);
        lemma_missing_none_at(boxes.drop_last(), k);
    }
}

/// Whether the operations `ops`, from character `oi` of `old` and `ni` of
/// `new` on, take the two texts in order to their ends: each starts where the
/// ones before it stopped on the side or sides it covers, covers at least one
/// character, and an equal operation covers equal characters.
pub open spec fn ops_cover_from(ops: Seq<DiffOp>, old: Seq<char>, new: Seq<char>, oi: int, ni: int) -> bool
    decreases ops.len(),
{
    if ops.len() == 0 {
        oi == old.len() && ni == new.len()
    } else {
        let rest = ops.drop_first();
        match ops[0] {
            DiffOp::Equal { old_index, new_index, len } => old_index == oi && new_index == ni && len > 0 && oi + len
                <= old.len() && ni + len <= new.len() && old.subrange(oi, oi + len) == new.subrange(ni, ni + len)
                && ops_cover_from(rest, old, new, oi + len, ni + len),
            DiffOp::Delete { old_index, old_len, new_index: _ } => old_index == oi && old_len > 0 && ops_cover_from(
                rest,
                old,
                new,
                oi + old_len,
                ni,
            ),
            DiffOp::Insert { old_index: _, new_index, new_len } => new_index == ni && new_len > 0 && ops_cover_from(
                rest,
                old,
                new,
                oi,
                ni + new_len,
            ),
            DiffOp::Replace { old_index, old_len, new_index, new_len } => old_index == oi && new_index == ni
                && old_len > 0 && new_len > 0 && ops_cover_from(rest, old, new, oi + old_len, ni + new_len),
        }
    }
}

/// Whether `ops` is a diff of `old` and `new`: the operations take both texts
/// in order from their starts to their ends.
pub open spec fn ops_cover(ops: Seq<DiffOp>, old: Seq<char>, new: Seq<char>) -> bool {
    ops_cover_from(ops, old, new, 0, 0)
}

/// Whether every index of `op` is a position of its text.
pub open spec fn indices_within(op: DiffOp, old_len: int, new_len: int) -> bool {
    match op {
        DiffOp::Equal { old_index, new_index, .. } => old_index <= old_len && new_index <= new_len,
        DiffOp::Delete { old_index, new_index, .. } => old_index <= old_len && new_index <= new_len,
        DiffOp::Insert { old_index, new_index, .. } => old_index <= old_len && new_index <= new_len,
        DiffOp::Replace { old_index, new_index, .. } => old_index <= old_len && new_index <= new_len,
    }
}

/// The character diff of `old` and `new`.
///
/// Trusted: calls `similar::TextDiff::configure` with the Myers algorithm and
/// a timeout of five minutes, then `diff_chars` and `ops`, and converts each
/// operation field by field.  Whether or not the timeout strikes (past it the
/// diff falls back to deleting and inserting what is left), the operations
/// take both texts in order, each non-empty, an equal one over equal
/// characters, and every index is a position of its text.  The old index of
/// an insertion and the new index of a deletion are not stated to follow the
/// operations before: the compaction step reorders insertions and deletions
/// without adjusting them.
#[verifier::external_body]
fn char_diff(old: &str, new: &str) -> (res: Vec<DiffOp>)
    ensures
        ops_cover(res@, old@, new@),
        forall|k: int| 0 <= k < res@.len() ==> indices_within(#[trigger] res@[k], old@.len() as int, new@.len() as int),
{
    let diff = TextDiff::configure().algorithm(Algorithm::Myers).timeout(Duration::from_secs(300)).diff_chars(old, new);
    diff.ops().iter().map(|op| match *op {
        similar::DiffOp::Equal { old_index, new_index, len } => DiffOp::Equal { old_index, new_index, len },
        similar::DiffOp::Delete { old_index, old_len, new_index } => DiffOp::Delete { old_index, old_len, new_index },
        similar::DiffOp::Insert { old_index, new_index, new_len } => DiffOp::Insert { old_index, new_index, new_len },
        similar::DiffOp::Replace { old_index, old_len, new_index, new_len } => DiffOp::Replace { old_index, old_len, new_index, new_len },
    }).collect()
}

/// What a page of a scroll got of the diff: the pieces of each line, and the
/// operations, split at line ends, that fell on the page.
pub struct PageDiff {
    pub lines: Vec<BoundingBox<Vec<LineDiffOp>>>,
    pub ops: Vec<DiffOp>,
}

/// The operations left after the pages mapped so far.
pub open spec fn ops_after(ops: Seq<DiffOp>, sts: Seq<PageState>) -> Seq<DiffOp> {
    if sts.len() == 0 {
        ops
    } else {
        sts.last().ops
    }
}

/// The diff operations `ops` of the scroll mapped onto its pages one after
/// another, each page taking up the operations where the one before stopped:
/// the final state of each page, or the first page that failed and why.
pub open spec fn spec_scroll(
    old: Seq<char>,
    new: Seq<char>,
    pages: Seq<Vec<BoundingBox<Range<usize>>>>,
    ops: Seq<DiffOp>,
) -> Result<Seq<PageState>, (int, RemapError)>
    decreases pages.len(),
{
    if pages.len() == 0 {
        Ok(Seq::empty())
    } else {
        match spec_scroll(old, new, pages.drop_last(), ops) {
            Err(e) => Err(e),
            Ok(sts) => match spec_page(
                old,
                new,
                line_ends(pages.last()@),
                page_start(ops_after(ops, sts), pages.last()@, Seq::empty()),
            ) {
                Ok(st) => Ok(sts.push(st)),
                Err(e) => Err((pages.len() - 1, e)),
            },
        }
    }
}

/// Every line of every page covers at least one character.
pub open spec fn pages_nonempty(pages: Seq<Vec<BoundingBox<Range<usize>>>>) -> bool {
    forall|k: int| 0 <= k < pages.len() ==> lines_nonempty((#[trigger] pages[k])@)
}

/// A page failing at `k - 1` is the scroll's first failure when the pages
/// before it went through.
proof fn lemma_scroll_failed(
    old: Seq<char>,
    new: Seq<char>,
    pages: Seq<Vec<BoundingBox<Range<usize>>>>,
    ops: Seq<DiffOp>,
    k: int,
)
    requires
        0 < k <= pages.len(),
        spec_scroll(old, new, pages.take(k), ops) is Err,
    ensures
        spec_scroll(old, new, pages, ops) == spec_scroll(old, new, pages.take(k), ops),
    decreases pages.len() - k,
{
    if k < pages.len() {
        assert(pages.take(k + 1).drop_last() =~= pages.take(k));
        lemma_scroll_failed(old, new, pages, ops, k + 1);
    } else {
        assert(pages.take(k) =~= pages);
    }
}

/// Maps the diff operations `ops` of the character diff of `old` (the
/// reference text) and `new` (the OCR text of the scroll) onto the lines of
/// the pages, one page after another.  A page that fails is reported with its
/// index.
pub fn map_scroll(old: &str, new: &str, ops: &[DiffOp], pages: &[Vec<BoundingBox<Range<usize>>>]) -> (res: Result<
    Vec<PageDiff>,
    (usize, RemapError),
>)
    requires
        ops_well_formed(ops@),
        pages_nonempty(pages@),
    ensures
        match spec_scroll(old@, new@, pages@, ops@) {
            Ok(sts) => res matches Ok(v) && v@.len() == sts.len() && forall|k: int|
                0 <= k < sts.len() ==> diffs_view((#[trigger] v@[k]).lines@) == sts[k].lines.diffs
                    && v@[k].ops@ == sts[k].lines.page_ops && v@[k].lines@.len() == pages@[k]@.len()
                    && forall|i: int|
                    0 <= i < pages@[k]@.len() ==> (#[trigger] v@[k].lines@[i]).rect == pages@[k]@[i].rect
                        && v@[k].lines@[i].page == pages@[k]@[i].page,
            Err((page, err)) => res matches Err((p, e)) && p == page && e == err,
        },
{
    let ghost all_ops = ops@;
    let mut ctx = RemapCtx::new(old, new);
    let mut remaining = DiffOps::new(vstd::slice::slice_to_vec(ops));
    let mut out: Vec<PageDiff> = Vec::new();
    let ghost mut sts: Seq<PageState> = Seq::empty();
    let mut i: usize = 0;
    proof {
        assert(pages@.take(0) =~= Seq::<Vec<BoundingBox<Range<usize>>>>::empty());
        assert(all_ops.skip(0) =~= all_ops);
    }
    while i < pages.len()
        invariant
            i <= pages.len(),
            all_ops == ops@,
            pages_nonempty(pages@),
            ctx.old_text() == old@,
            ctx.new_text() == new@,
            ctx.recorded() == Seq::<DiffOp>::empty(),
            remaining.next <= remaining.ops.len(),
            ops_well_formed(remaining.remaining()),
            spec_scroll(old@, new@, pages@.take(i as int), all_ops) == Ok::<Seq<PageState>, (int, RemapError)>(sts),
            sts.len() == i,
            remaining.remaining() == ops_after(all_ops, sts),
            out@.len() == i,
            forall|k: int|
                0 <= k < i ==> diffs_view((#[trigger] out@[k]).lines@) == sts[k].lines.diffs
                    && out@[k].ops@ == sts[k].lines.page_ops && out@[k].lines@.len() == pages@[k]@.len()
                    && forall|j: int|
                    0 <= j < pages@[k]@.len() ==> (#[trigger] out@[k].lines@[j]).rect == pages@[k]@[j].rect
                        && out@[k].lines@[j].page == pages@[k]@[j].page,
        decreases pages.len() - i,
    {
        let ghost next = pages@.take(i + 1);
        assert(next.drop_last() =~= pages@.take(i as int));
        assert(next.last() == pages@[i as int]);
        assert(lines_nonempty(pages@[i as int]@));
        let page = pages[i].as_slice();
        let mapped = ctx.map_diff_page(&mut remaining, page);
        match mapped {
            Err(e) => {
                proof {
                    assert(page@ == pages@[i as int]@);
                    assert(spec_scroll(old@, new@, next, all_ops) == Err::<Seq<PageState>, (int, RemapError)>((i as int, e)));
                    lemma_scroll_failed(old@, new@, pages@, all_ops, i + 1);
                }
                return Err((i, e));
            },
            Ok(lines) => {
                let page_ops = ctx.take_page_ops();
                let ghost st = spec_page(
                    old@,
                    new@,
                    line_ends(pages@[i as int]@),
                    page_start(ops_after(all_ops, sts), pages@[i as int]@, Seq::empty()),
                )->Ok_0;
                proof {
                    sts = sts.push(st);
                }
                out.push(PageDiff { lines, ops: page_ops });
            },
        }
        i = i + 1;
    }
    proof {
        assert(pages@.take(i as int) =~= pages@);
    }
    Ok(out)
}

/// The outcome of mapping operations onto pages, as [`map_scroll`] states it.
pub open spec fn scroll_mapped(
    old: Seq<char>,
    new: Seq<char>,
    pages: Seq<Vec<BoundingBox<Range<usize>>>>,
    ops: Seq<DiffOp>,
    res: Result<Vec<PageDiff>, (usize, RemapError)>,
) -> bool {
    match spec_scroll(old, new, pages, ops) {
        Ok(sts) => res matches Ok(v) && v@.len() == sts.len() && forall|k: int|
            0 <= k < sts.len() ==> diffs_view((#[trigger] v@[k]).lines@) == sts[k].lines.diffs
                && v@[k].ops@ == sts[k].lines.page_ops && v@[k].lines@.len() == pages[k]@.len()
                && forall|i: int|
                0 <= i < pages[k]@.len() ==> (#[trigger] v@[k].lines@[i]).rect == pages[k]@[i].rect
                    && v@[k].lines@[i].page == pages[k]@[i].page,
        Err((page, err)) => res matches Err((p, e)) && p == page && e == err,
    }
}

/// Whether every operation covers at least one character and its index
/// arithmetic fits.
pub fn check_ops(ops: &[DiffOp]) -> (res: bool)
    ensures
        res == ops_well_formed(ops@),
{
    let mut i: usize = 0;
    while i < ops.len()
        invariant
            i <= ops.len(),
            forall|k: int| 0 <= k < i ==> (#[trigger] ops@[k]).well_formed(),
        decreases ops.len() - i,
    {
        let ok = match ops[i] {
            DiffOp::Equal { old_index, new_index, len } => len > 0 && old_index <= usize::MAX - len && new_index
                <= usize::MAX - len,
            DiffOp::Delete { old_index, old_len, new_index: _ } => old_len > 0 && old_index <= usize::MAX - old_len,
            DiffOp::Insert { old_index, new_index, new_len } => new_len > 0 && old_index <= usize::MAX - new_len
                && new_index <= usize::MAX - new_len,
            DiffOp::Replace { old_index, old_len, new_index, new_len } => old_len > 0 && new_len > 0 && old_index
                <= usize::MAX - old_len && old_index <= usize::MAX - new_len && new_index <= usize::MAX - new_len,
        };
        if !ok {
            return false;
        }
        i = i + 1;
    }
    true
}

/// Operations that take the texts from positions within them stay within
/// them.
proof fn lemma_cover_bounds(ops: Seq<DiffOp>, old: Seq<char>, new: Seq<char>, oi: int, ni: int)
    requires
        ops_cover_from(ops, old, new, oi, ni),
    ensures
        oi <= old.len(),
        ni <= new.len(),
    decreases ops.len(),
{
    if ops.len() > 0 {
        match ops[0] {
            DiffOp::Equal { len, .. } => lemma_cover_bounds(ops.drop_first(), old, new, oi + len, ni + len),
            DiffOp::Delete { old_len, .. } => lemma_cover_bounds(ops.drop_first(), old, new, oi + old_len, ni),
            DiffOp::Insert { new_len, .. } => lemma_cover_bounds(ops.drop_first(), old, new, oi, ni + new_len),
            DiffOp::Replace { old_len, new_len, .. } => lemma_cover_bounds(
                ops.drop_first(),
                old,
                new,
                oi + old_len,
                ni + new_len,
            ),
        }
    }
}

/// A diff of two texts whose lengths together fit in `usize` is well formed.
proof fn lemma_cover_well_formed(ops: Seq<DiffOp>, old: Seq<char>, new: Seq<char>, oi: int, ni: int)
    requires
        0 <= oi,
        0 <= ni,
        ops_cover_from(ops, old, new, oi, ni),
        forall|k: int| 0 <= k < ops.len() ==> indices_within(#[trigger] ops[k], old.len() as int, new.len() as int),
        old.len() + new.len() <= usize::MAX,
    ensures
        ops_well_formed(ops),
    decreases ops.len(),
{
    if ops.len() > 0 {
        let rest = ops.drop_first();
        assert forall|k: int| 0 <= k < rest.len() implies indices_within(#[trigger] rest[k], old.len() as int, new.len() as int) by {
            assert(rest[k] == ops[k + 1]);
        }
        assert(indices_within(ops[0], old.len() as int, new.len() as int));
        match ops[0] {
            DiffOp::Equal { len, .. } => {
                lemma_cover_bounds(rest, old, new, oi + len, ni + len);
                lemma_cover_well_formed(rest, old, new, oi + len, ni + len);
            },
            DiffOp::Delete { old_len, .. } => {
                lemma_cover_bounds(rest, old, new, oi + old_len, ni);
                lemma_cover_well_formed(rest, old, new, oi + old_len, ni);
            },
            DiffOp::Insert { new_len, .. } => {
                lemma_cover_bounds(rest, old, new, oi, ni + new_len);
                lemma_cover_well_formed(rest, old, new, oi, ni + new_len);
            },
            DiffOp::Replace { old_len, new_len, .. } => {
                lemma_cover_bounds(rest, old, new, oi + old_len, ni + new_len);
                lemma_cover_well_formed(rest, old, new, oi + old_len, ni + new_len);
            },
        }
        assert forall|k: int| 0 <= k < ops.len() implies (#[trigger] ops[k]).well_formed() by {
            if k > 0 {
                assert(ops[k] == rest[k - 1]);
            }
        }
    }
}

/// Diffs `old` (the reference text) against `new` (the OCR text of a scroll)
/// character by character and maps the diff onto the pages, one after
/// another.  Returns the operations of the diff, which take both texts in
/// order, with the outcome of mapping them: the pages' equal and inserted
/// pieces are the start of the OCR text (all of it when the line ranges
/// cover it, as [`ocr_pages`] gives them), and their equal and deleted pieces
/// the start of the reference text.
pub fn diff_pages(old: &str, new: &str, pages: &[Vec<BoundingBox<Range<usize>>>]) -> (res: (
    Vec<DiffOp>,
    Result<Vec<PageDiff>, (usize, RemapError)>,
))
    requires
        old@.len() + new@.len() <= usize::MAX,
        pages_nonempty(pages@),
    ensures
        ops_cover(res.0@, old@, new@),
        ops_well_formed(res.0@),
        scroll_mapped(old@, new@, pages@, res.0@, res.1),
        res.1 matches Ok(v) ==> {
            &&& mapped_new(v@).len() <= new@.len()
            &&& mapped_new(v@) == new@.take(mapped_new(v@).len() as int)
            &&& mapped_old(v@).len() <= old@.len()
            &&& mapped_old(v@) == old@.take(mapped_old(v@).len() as int)
        },
        pages_len(pages@) == new@.len() ==> (res.1 matches Ok(v) ==> mapped_new(v@) == new@),
{
    let ops = char_diff(old, new);
    proof {
        lemma_cover_well_formed(ops@, old@, new@, 0, 0);
    }
    let mapped = map_scroll(old, new, ops.as_slice(), pages);
    proof {
        lemma_scroll_pieces(old@, new@, pages@, ops@);
        if pages_len(pages@) == new@.len() {
            lemma_tiled_scroll_pieces(old@, new@, pages@, ops@);
        }
        if let Ok(sts) = spec_scroll(old@, new@, pages@, ops@) {
            if mapped is Ok {
                lemma_mapped_text(mapped->Ok_0@, sts);
                lemma_left_nonneg(ops_after(ops@, sts));
                let v = mapped->Ok_0@;
                assert(mapped_new(v) == new@.take(mapped_new(v).len() as int));
                assert(mapped_old(v) == old@.take(mapped_old(v).len() as int));
            }
        }
    }
    (ops, mapped)
}

/// How many characters of the old text an operation covers.
pub open spec fn old_len_of(op: DiffOp) -> int {
    match op {
        DiffOp::Equal { len, .. } => len as int,
        DiffOp::Delete { old_len, .. } => old_len as int,
        DiffOp::Insert { .. } => 0,
        DiffOp::Replace { old_len, .. } => old_len as int,
    }
}

/// How many characters of the new text an operation covers.
pub open spec fn new_len_of(op: DiffOp) -> int {
    match op {
        DiffOp::Equal { len, .. } => len as int,
        DiffOp::Delete { .. } => 0,
        DiffOp::Insert { new_len, .. } => new_len as int,
        DiffOp::Replace { new_len, .. } => new_len as int,
    }
}

/// The characters of the old text that the operations cover, together.
pub open spec fn total_old_len(ops: Seq<DiffOp>) -> int
    decreases ops.len(),
{
    if ops.len() == 0 {
        0
    } else {
        total_old_len(ops.drop_last()) + old_len_of(ops.last())
    }
}

/// The characters of the new text that the operations cover, together.
pub open spec fn total_new_len(ops: Seq<DiffOp>) -> int
    decreases ops.len(),
{
    if ops.len() == 0 {
        0
    } else {
        total_new_len(ops.drop_last()) + new_len_of(ops.last())
    }
}

proof fn lemma_totals_grow(ops: Seq<DiffOp>, k: int)
    requires
        0 <= k <= ops.len(),
    ensures
        0 <= total_old_len(ops.take(k)) <= total_old_len(ops),
        0 <= total_new_len(ops.take(k)) <= total_new_len(ops),
    decreases ops.len() - k,
{
    if k < ops.len() {
        assert(ops.take(k + 1).drop_last() =~= ops.take(k));
        lemma_totals_grow(ops, k + 1);
        lemma_totals_nonneg(ops.take(k));
    } else {
        assert(ops.take(k) =~= ops);
        lemma_totals_nonneg(ops);
    }
}

proof fn lemma_totals_nonneg(ops: Seq<DiffOp>)
    ensures
        total_old_len(ops) >= 0,
        total_new_len(ops) >= 0,
    decreases ops.len(),
{
    if ops.len() > 0 {
        lemma_totals_nonneg(ops.drop_last());
    }
}

/// The lengths of the old and of the new text that the operations of a page
/// cover, or `None` where a total does not fit in `usize`.
pub fn page_lengths(ops: &[DiffOp]) -> (res: Option<(usize, usize)>)
    ensures
        total_old_len(ops@) <= usize::MAX && total_new_len(ops@) <= usize::MAX ==> res == Some(
            (total_old_len(ops@) as usize, total_new_len(ops@) as usize),
        ),
        !(total_old_len(ops@) <= usize::MAX && total_new_len(ops@) <= usize::MAX) ==> res is None,
{
    let mut old_len: usize = 0;
    let mut new_len: usize = 0;
    let mut i: usize = 0;
    proof {
        assert(ops@.take(0) =~= Seq::<DiffOp>::empty());
    }
    while i < ops.len()
        invariant
            i <= ops.len(),
            old_len == total_old_len(ops@.take(i as int)),
            new_len == total_new_len(ops@.take(i as int)),
        decreases ops.len() - i,
    {
        let ghost next = ops@.take(i + 1);
        assert(next.drop_last() =~= ops@.take(i as int));
        proof {
            lemma_totals_grow(ops@, i + 1);
        }
        let (o, n): (usize, usize) = match ops[i] {
            DiffOp::Equal { len, .. } => (len, len),
            DiffOp::Delete { old_len, .. } => (old_len, 0),
            DiffOp::Insert { new_len, .. } => (0, new_len),
            DiffOp::Replace { old_len, new_len, .. } => (old_len, new_len),
        };
        if old_len > usize::MAX - o || new_len > usize::MAX - n {
            return None;
        }
        old_len = old_len + o;
        new_len = new_len + n;
        i = i + 1;
    }
    proof {
        assert(ops@.take(i as int) =~= ops@);
    }
    Some((old_len, new_len))
}

/// The OCR text of a scroll: the OCR texts of its pages one after another.
pub open spec fn scroll_ocr_text(pages: Seq<Vec<BoundingBox<String>>>) -> Seq<char>
    decreases pages.len(),
{
    if pages.len() == 0 {
        Seq::empty()
    } else {
        scroll_ocr_text(pages.drop_last()) + page_ocr_text(pages.last()@)
    }
}

/// The first page with a line that misses its line break, and that line.
pub open spec fn scroll_missing_newline(pages: Seq<Vec<BoundingBox<String>>>) -> Option<(int, int)>
    decreases pages.len(),
{
    if pages.len() == 0 {
        None
    } else {
        match scroll_missing_newline(pages.drop_last()) {
            Some(e) => Some(e),
            None => match missing_newline(pages.last()@) {
                Some(line) => Some((pages.len() - 1, line)),
                None => None,
            },
        }
    }
}

/// Whether the line ranges `lines` are those that [`ocr_page`] gives for `boxes`.
pub open spec fn ocr_lines_of(boxes: Seq<BoundingBox<String>>, lines: Seq<BoundingBox<Range<usize>>>) -> bool {
    lines.len() == boxes.len() && forall|k: int|
        0 <= k < boxes.len() ==> (#[trigger] lines[k]).value.start == page_chars(boxes.take(k)) && lines[k].value.end
            == page_chars(boxes.take(k + 1)) && lines[k].rect == boxes[k].rect && lines[k].page == boxes[k].page
}

/// The pages of a scroll, each with no more characters than fit in `usize`.
pub open spec fn pages_in_range(pages: Seq<Vec<BoundingBox<String>>>) -> bool {
    forall|k: int| 0 <= k < pages.len() ==> page_chars((#[trigger] pages[k])@) <= usize::MAX
}

proof fn lemma_scroll_missing_prefix(pages: Seq<Vec<BoundingBox<String>>>, k: int)
    requires
        0 < k <= pages.len(),
        scroll_missing_newline(pages.take(k)) is Some,
    ensures
        scroll_missing_newline(pages) == scroll_missing_newline(pages.take(k)),
    decreases pages.len() - k,
{
    if k < pages.len() {
        assert(pages.take(k + 1).drop_last() =~= pages.take(k));
        lemma_scroll_missing_prefix(pages, k + 1);
    } else {
        assert(pages.take(k) =~= pages);
    }
}

/// The OCR text of a scroll and the line ranges of each page, with
/// [`ocr_page`] on each page in turn; the first line without its line break
/// is reported by its page and line.  The ranges of a page count from the
/// start of that page's text, and every line covers at least one character.
pub fn ocr_pages(pages: &[Vec<BoundingBox<String>>]) -> (res: Result<
    (String, Vec<Vec<BoundingBox<Range<usize>>>>),
    (usize, usize),
>)
    requires
        pages_in_range(pages@),
    ensures
        match scroll_missing_newline(pages@) {
            Some((page, line)) => res == Err::<(String, Vec<Vec<BoundingBox<Range<usize>>>>), (usize, usize)>(
                (page as usize, line as usize),
            ),
            None => res matches Ok((text, lines)) && text@ == scroll_ocr_text(pages@) && pages_len(lines@)
                == text@.len() && lines@.len()
                == pages@.len() && pages_nonempty(lines@) && forall|k: int|
                0 <= k < pages@.len() ==> ocr_lines_of((#[trigger] pages@[k])@, lines@[k]@),
        },
{
    let mut text = String::new();
    let mut all: Vec<Vec<BoundingBox<Range<usize>>>> = Vec::new();
    let mut i: usize = 0;
    proof {
        assert(pages@.take(0) =~= Seq::<Vec<BoundingBox<String>>>::empty());
    }
    while i < pages.len()
        invariant
            i <= pages.len(),
            pages_in_range(pages@),
            scroll_missing_newline(pages@.take(i as int)) is None,
            text@ == scroll_ocr_text(pages@.take(i as int)),
            all@.len() == i,
            pages_len(all@) == text@.len(),
            pages_nonempty(all@),
            forall|k: int| 0 <= k < i ==> ocr_lines_of((#[trigger] pages@[k])@, all@[k]@),
        decreases pages.len() - i,
    {
        let ghost next = pages@.take(i + 1);
        assert(next.drop_last() =~= pages@.take(i as int));
        assert(next.last() == pages@[i as int]);
        assert(page_chars(pages@[i as int]@) <= usize::MAX);
        match ocr_page(pages[i].as_slice()) {
            Err(line) => {
                proof {
                    lemma_scroll_missing_prefix(pages@, i + 1);
                }
                return Err((i, line));
            },
            Ok(page) => {
                let ghost boxes = pages@[i as int]@;
                proof {
                    lemma_ocr_lines_tile(boxes);
                    assert forall|j: int| 0 <= j < page.lines@.len() implies #[trigger] page.lines@[j].value.start
                        < page.lines@[j].value.end by {
                        assert(page_chars(boxes.take(j)) < page_chars(boxes.take(j + 1)));
                    }
                }
                text.append(page.text.as_str());
                let ghost before = all@;
                all.push(page.lines);
                assert(all@.drop_last() =~= before);
                assert forall|k: int| 0 <= k < all@.len() implies lines_nonempty((#[trigger] all@[k])@) by {
                    if k < i {
                        assert(all@[k] == before[k]);
                    }
                }
            },
        }
        i = i + 1;
    }
    proof {
        assert(pages@.take(i as int) =~= pages@);
    }
    Ok((text, all))
}

} // verus!
