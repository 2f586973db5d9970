//! Distribution of a character diff between the reference text and the OCR
//! text of a scroll over the OCR lines of its pages.
//!
//! The diff operations come in one stream for the whole scroll; each page
//! takes the operations that fall on its lines, splitting an operation that
//! crosses a line or page boundary, and records for every line the pieces of
//! text that are equal, inserted or deleted.
use std::ops::Range;

use similar::utils::TextDiffRemapper;
use similar::DiffableStr;
use vstd::prelude::*;

use crate::boxes::BoundingBox;
use crate::pieces::{
    covers_rest, lemma_page_empty, lemma_page_pieces, lines_fresh, new_pos, old_pos, page_new, page_old,
};

verus! {

/// One operation of a diff between an old and a new sequence, over
/// character indices.
#[derive(Clone, Copy, PartialEq, Eq, Structural, Debug)]
pub enum DiffOp {
    Equal { old_index: usize, new_index: usize, len: usize },
    Delete { old_index: usize, old_len: usize, new_index: usize },
    Insert { old_index: usize, new_index: usize, new_len: usize },
    Replace { old_index: usize, old_len: usize, new_index: usize, new_len: usize },
}

/// A piece of the diff of one line, as text.
#[derive(Clone, PartialEq, Eq, Debug)]
pub enum LineDiffOp {
    Equal(String),
    Insert { err: String },
    Delete(String),
}

/// The view of a [`LineDiffOp`]: its kind and its characters.
pub enum LineDiffView {
    Equal(Seq<char>),
    Insert(Seq<char>),
    Delete(Seq<char>),
}

impl View for LineDiffOp {
    type V = LineDiffView;

    open spec fn view(&self) -> LineDiffView {
        match self {
            LineDiffOp::Equal(s) => LineDiffView::Equal(s@),
            LineDiffOp::Insert { err } => LineDiffView::Insert(err@),
            LineDiffOp::Delete(s) => LineDiffView::Delete(s@),
        }
    }
}

impl LineDiffOp {
    /// An inserted piece of text.
    pub fn insert(err: String) -> (res: Self)
        ensures
            res@ == LineDiffView::Insert(err@),
    {
        LineDiffOp::Insert { err }
    }
}

/// The part of the stream of diff operations that no page has taken yet; the
/// first operation may be the rest of one that a page took in part.
pub struct DiffOps {
    pub ops: Vec<DiffOp>,
    pub next: usize,
}

impl DiffOps {
    /// The operations not taken yet.
    pub open spec fn remaining(&self) -> Seq<DiffOp> {
        self.ops@.skip(self.next as int)
    }

    /// The stream of `ops`, none taken.
    pub fn new(ops: Vec<DiffOp>) -> (res: Self)
        ensures
            res.remaining() == ops@,
            res.next == 0,
    {
        DiffOps { ops, next: 0 }
    }
}

#[verifier::external_type_specification]
#[verifier::external_body]
#[verifier::reject_recursive_types(T)]
pub struct ExTextDiffRemapper<'x, T: ?Sized>(TextDiffRemapper<'x, T>);

/// The old text that a remapper slices, one token per character.
pub uninterp spec fn remapper_old(r: TextDiffRemapper<'_, str>) -> Seq<char>;

/// The new text that a remapper slices, one token per character.
pub uninterp spec fn remapper_new(r: TextDiffRemapper<'_, str>) -> Seq<char>;

/// A remapper from character positions of `old` and `new` to their text.
///
/// Trusted: calls `similar::utils::TextDiffRemapper::new` with the tokens of
/// a character diff, `similar::DiffableStr::tokenize_chars` of each text.  The contract
/// names the two texts that the remapper then slices.
#[verifier::external_body]
fn char_remapper<'x>(old: &'x str, new: &'x str) -> (res: TextDiffRemapper<'x, str>)
    ensures
        remapper_old(res) == old@,
        remapper_new(res) == new@,
{
    TextDiffRemapper::new(&old.tokenize_chars(), &new.tokenize_chars(), old, new)
}

/// The characters `start..end` of the old text, if they are all in it.
///
/// Trusted: calls `similar::utils::TextDiffRemapper::slice_old`, which looks up
/// the tokens `start` and `end - 1` and slices the text between them.
#[verifier::external_body]
fn slice_old<'x>(r: &TextDiffRemapper<'x, str>, start: usize, end: usize) -> (res: Option<&'x str>)
    requires
        start < end,
    ensures
        res is Some <==> end <= remapper_old(*r).len(),
        res matches Some(s) ==> s@ == remapper_old(*r).subrange(start as int, end as int),
{
    r.slice_old(start..end)
}

/// The characters `start..end` of the new text, if they are all in it.
///
/// Trusted: calls `similar::utils::TextDiffRemapper::slice_new`, which looks up
/// the tokens `start` and `end - 1` and slices the text between them.
#[verifier::external_body]
fn slice_new<'x>(r: &TextDiffRemapper<'x, str>, start: usize, end: usize) -> (res: Option<&'x str>)
    requires
        start < end,
    ensures
        res is Some <==> end <= remapper_new(*r).len(),
        res matches Some(s) ==> s@ == remapper_new(*r).subrange(start as int, end as int),
{
    r.slice_new(start..end)
}

/// Why a page could not be mapped.
#[derive(Debug, PartialEq, Eq, Structural)]
pub enum RemapError {
    /// A deleted piece lies outside the old text.
    SliceOld,
    /// An equal or inserted piece of `chunk_len` characters lies outside the new text.
    SliceNew { chunk_len: usize },
}

/// The kind of a diff operation.
#[derive(Clone, Copy, PartialEq, Eq, Structural, Debug)]
pub enum DiffTag {
    Equal,
    Delete,
    Insert,
    Replace,
}

impl DiffOp {
    /// The kind of the operation.
    pub open spec fn spec_tag(self) -> DiffTag {
        match self {
            DiffOp::Equal { .. } => DiffTag::Equal,
            DiffOp::Delete { .. } => DiffTag::Delete,
            DiffOp::Insert { .. } => DiffTag::Insert,
            DiffOp::Replace { .. } => DiffTag::Replace,
        }
    }

    /// The kind of the operation.
    pub fn tag(&self) -> (res: DiffTag)
        ensures
            res == self.spec_tag(),
    {
        match self {
            DiffOp::Equal { .. } => DiffTag::Equal,
            DiffOp::Delete { .. } => DiffTag::Delete,
            DiffOp::Insert { .. } => DiffTag::Insert,
            DiffOp::Replace { .. } => DiffTag::Replace,
        }
    }

    /// The operation covers at least one character and its index arithmetic
    /// stays within `usize`.
    pub open spec fn well_formed(self) -> bool {
        match self {
            DiffOp::Equal { old_index, new_index, len } => len > 0 && old_index + len <= usize::MAX
                && new_index + len <= usize::MAX,
            DiffOp::Delete { old_index, old_len, new_index } => old_len > 0 && old_index + old_len
                <= usize::MAX,
            DiffOp::Insert { old_index, new_index, new_len } => new_len > 0 && old_index + new_len
                <= usize::MAX && new_index + new_len <= usize::MAX,
            DiffOp::Replace { old_index, old_len, new_index, new_len } => old_len > 0 && new_len > 0
                && old_index + old_len <= usize::MAX && old_index + new_len <= usize::MAX && new_index
                + new_len <= usize::MAX,
        }
    }
}

/// The per-line state of a page: the current line, how far each line's range
/// has been covered, the diff recorded for each line, and the operations
/// recorded for the page.
pub struct LinesState {
    pub line: int,
    pub starts: Seq<usize>,
    pub diffs: Seq<Seq<LineDiffView>>,
    pub page_ops: Seq<DiffOp>,
}

/// The state of a page: the operations not taken yet and the per-line state.
pub struct PageState {
    pub ops: Seq<DiffOp>,
    pub lines: LinesState,
}

/// The result of covering lines with an equal or inserted operation: whether
/// the lines ran out first, and what is left of the operation.
pub struct Covered {
    pub exhausted: bool,
    pub old_index: usize,
    pub new_index: usize,
    pub new_len: usize,
    pub lines: LinesState,
}

/// Covers the lines, from the current one on, with an equal or inserted
/// operation of `new_len` characters at `new_index` of `new`, splitting it at
/// line ends.
pub open spec fn spec_cover(
    new: Seq<char>,
    ends: Seq<usize>,
    equal: bool,
    old_index: usize,
    new_index: usize,
    new_len: usize,
    st: LinesState,
) -> Result<Covered, RemapError>
    decreases ends.len() - st.line,
{
    let l = st.line;
    if l < 0 || l >= ends.len() || l >= st.starts.len() || l >= st.diffs.len() {
        Ok(Covered { exhausted: true, old_index, new_index, new_len, lines: st })
    } else {
        let lstart = st.starts[l];
        let lend = ends[l];
        let len: int = if lstart < lend {
            lend - lstart
        } else {
            0
        };
        let chunk: int = if new_len < len {
            new_len as int
        } else {
            len
        };
        if chunk == 0 || new_index + chunk > new.len() {
            Err(RemapError::SliceNew { chunk_len: chunk as usize })
        } else {
            let text = new.subrange(new_index as int, new_index + chunk);
            let piece = if equal {
                LineDiffView::Equal(text)
            } else {
                LineDiffView::Insert(text)
            };
            let recorded = if equal {
                DiffOp::Equal { old_index, new_index, len: chunk as usize }
            } else {
                DiffOp::Insert { old_index, new_index, new_len: chunk as usize }
            };
            let st2 = LinesState {
                line: if lstart + chunk >= lend {
                    l + 1
                } else {
                    l
                },
                starts: st.starts.update(l, (lstart + chunk) as usize),
                diffs: st.diffs.update(l, st.diffs[l].push(piece)),
                page_ops: st.page_ops.push(recorded),
            };
            let rest = (new_len - chunk) as usize;
            if rest == 0 {
                Ok(
                    Covered {
                        exhausted: false,
                        old_index: (old_index + chunk) as usize,
                        new_index: (new_index + chunk) as usize,
                        new_len: rest,
                        lines: st2,
                    },
                )
            } else {
                spec_cover(
                    new,
                    ends,
                    equal,
                    (old_index + chunk) as usize,
                    (new_index + chunk) as usize,
                    rest,
                    st2,
                )
            }
        }
    }
}

/// Records a deleted piece `old_index..old_index + old_len` of `old` on the current line.
pub open spec fn spec_delete(old: Seq<char>, old_index: usize, old_len: usize, recorded: DiffOp, st: LinesState) -> Result<
    LinesState,
    RemapError,
> {
    if old_len == 0 || old_index + old_len > old.len() {
        Err(RemapError::SliceOld)
    } else {
        let text = old.subrange(old_index as int, old_index + old_len);
        Ok(
            LinesState {
                diffs: st.diffs.update(st.line, st.diffs[st.line].push(LineDiffView::Delete(text))),
                page_ops: st.page_ops.push(recorded),
                ..st
            },
        )
    }
}

/// Whether the current line is past the last one.
pub open spec fn lines_done(ends: Seq<usize>, st: LinesState) -> bool {
    st.line < 0 || st.line >= ends.len() || st.line >= st.starts.len() || st.line >= st.diffs.len()
}

/// Continues a page after covering lines with the first operation: when the
/// lines ran out, what is left of the operation stays first; otherwise the
/// operation is taken and the page goes on.
pub open spec fn after_cover(ops: Seq<DiffOp>, c: Covered, equal: bool) -> PageState {
    if c.exhausted {
        PageState {
            ops: ops.update(
                0,
                if equal {
                    DiffOp::Equal { old_index: c.old_index, new_index: c.new_index, len: c.new_len }
                } else {
                    DiffOp::Insert {
                        old_index: c.old_index,
                        new_index: c.new_index,
                        new_len: c.new_len,
                    }
                },
            ),
            lines: c.lines,
        }
    } else {
        PageState { ops: ops.drop_first(), lines: c.lines }
    }
}

/// Maps the operations onto the lines of a page, from `st`, until the
/// operations or the lines run out.
pub open spec fn spec_page(old: Seq<char>, new: Seq<char>, ends: Seq<usize>, st: PageState) -> Result<
    PageState,
    RemapError,
>
    decreases st.ops.len(),
{
    if st.ops.len() == 0 {
        Ok(st)
    } else {
        match st.ops[0] {
            DiffOp::Delete { old_index, old_len, new_index } => if lines_done(ends, st.lines) {
                Ok(st)
            } else {
                match spec_delete(old, old_index, old_len, st.ops[0], st.lines) {
                    Err(e) => Err(e),
                    Ok(l2) => spec_page(old, new, ends, PageState { ops: st.ops.drop_first(), lines: l2 }),
                }
            },
            DiffOp::Equal { old_index, new_index, len } => match spec_cover(
                new,
                ends,
                true,
                old_index,
                new_index,
                len,
                st.lines,
            ) {
                Err(e) => Err(e),
                Ok(c) => if c.exhausted {
                    Ok(after_cover(st.ops, c, true))
                } else {
                    spec_page(old, new, ends, PageState { ops: st.ops.drop_first(), lines: c.lines })
                },
            },
            DiffOp::Insert { old_index, new_index, new_len } => match spec_cover(
                new,
                ends,
                false,
                old_index,
                new_index,
                new_len,
                st.lines,
            ) {
                Err(e) => Err(e),
                Ok(c) => if c.exhausted {
                    Ok(after_cover(st.ops, c, false))
                } else {
                    spec_page(old, new, ends, PageState { ops: st.ops.drop_first(), lines: c.lines })
                },
            },
            DiffOp::Replace { old_index, old_len, new_index, new_len } => if lines_done(ends, st.lines) {
                Ok(st)
            } else {
                match spec_delete(
                    old,
                    old_index,
                    old_len,
                    DiffOp::Delete { old_index, old_len, new_index },
                    st.lines,
                ) {
                    Err(e) => Err(e),
                    Ok(l2) => match spec_cover(new, ends, false, old_index, new_index, new_len, l2) {
                        Err(e) => Err(e),
                        Ok(c) => if c.exhausted {
                            Ok(after_cover(st.ops, c, false))
                        } else {
                            spec_page(
                                old,
                                new,
                                ends,
                                PageState { ops: st.ops.drop_first(), lines: c.lines },
                            )
                        },
                    },
                }
            },
        }
    }
}

/// The recorded diff of each line.
pub open spec fn diffs_view(boxes: Seq<BoundingBox<Vec<LineDiffOp>>>) -> Seq<Seq<LineDiffView>> {
    boxes.map_values(|b: BoundingBox<Vec<LineDiffOp>>| b.value@.map_values(|o: LineDiffOp| o@))
}

/// Where each line's range of the new text ends.
pub open spec fn line_ends(lines: Seq<BoundingBox<Range<usize>>>) -> Seq<usize> {
    lines.map_values(|b: BoundingBox<Range<usize>>| b.value.end)
}

/// Where each line's range of the new text starts.
pub open spec fn line_starts(lines: Seq<BoundingBox<Range<usize>>>) -> Seq<usize> {
    lines.map_values(|b: BoundingBox<Range<usize>>| b.value.start)
}

/// Every line covers at least one character.
pub open spec fn lines_nonempty(lines: Seq<BoundingBox<Range<usize>>>) -> bool {
    forall|i: int| 0 <= i < lines.len() ==> #[trigger] lines[i].value.start < lines[i].value.end
}

/// Every operation covers at least one character and its index arithmetic fits.
pub open spec fn ops_well_formed(ops: Seq<DiffOp>) -> bool {
    forall|i: int| 0 <= i < ops.len() ==> (#[trigger] ops[i]).well_formed()
}

/// The state in which a page starts: at its first line, nothing covered or recorded.
pub open spec fn page_start(ops: Seq<DiffOp>, lines: Seq<BoundingBox<Range<usize>>>, page_ops: Seq<DiffOp>) -> PageState {
    PageState {
        ops,
        lines: LinesState {
            line: 0,
            starts: line_starts(lines),
            diffs: Seq::new(lines.len(), |i: int| Seq::<LineDiffView>::empty()),
            page_ops,
        },
    }
}

/// The mapping of the diff of a scroll onto its pages.
pub struct RemapCtx<'s> {
    remapper: TextDiffRemapper<'s, str>,
    /// The operations recorded for the current page, split at line ends.
    page_ops: Vec<DiffOp>,
}

impl<'s> RemapCtx<'s> {
    /// The old text (the reference text) that the context slices.
    pub closed spec fn old_text(&self) -> Seq<char> {
        remapper_old(self.remapper)
    }

    /// The new text (the OCR text) that the context slices.
    pub closed spec fn new_text(&self) -> Seq<char> {
        remapper_new(self.remapper)
    }

    /// The operations recorded for the current page, split at line ends.
    pub closed spec fn recorded(&self) -> Seq<DiffOp> {
        self.page_ops@
    }

    /// The operations recorded for the current page.
    pub fn page_ops(&self) -> (res: &Vec<DiffOp>)
        ensures
            res@ == self.recorded(),
    {
        &self.page_ops
    }

    /// Hands out the operations recorded for the current page and starts
    /// recording afresh.
    pub fn take_page_ops(&mut self) -> (res: Vec<DiffOp>)
        ensures
            res@ == old(self).recorded(),
            final(self).recorded() == Seq::<DiffOp>::empty(),
            final(self).old_text() == old(self).old_text(),
            final(self).new_text() == old(self).new_text(),
    {
        let mut taken: Vec<DiffOp> = Vec::new();
        core::mem::swap(&mut taken, &mut self.page_ops);
        taken
    }

    /// A mapping for the character diff of `old` (the reference text) and `new` (the OCR text).
    pub fn new(old: &'s str, new: &'s str) -> (res: Self)
        ensures
            res.old_text() == old@,
            res.new_text() == new@,
            res.recorded() == Seq::<DiffOp>::empty(),
    {
        RemapCtx { remapper: char_remapper(old, new), page_ops: Vec::new() }
    }

    /// Records the deleted piece `old_index..old_index + old_len` on line `l`.
    fn delete_piece(
        &mut self,
        diffs: &mut Vec<BoundingBox<Vec<LineDiffOp>>>,
        l: usize,
        old_index: usize,
        old_len: usize,
        recorded: DiffOp,
        Ghost(starts): Ghost<Seq<usize>>,
    ) -> (res: Result<(), RemapError>)
        requires
            l < old(diffs).len(),
            old_index + old_len <= usize::MAX,
        ensures
            final(self).remapper == old(self).remapper,
            final(diffs).len() == old(diffs).len(),
            forall|i: int| 0 <= i < final(diffs).len() ==> (#[trigger] final(diffs)@[i]).rect == old(diffs)@[i].rect
                && final(diffs)@[i].page == old(diffs)@[i].page,
            match spec_delete(
                remapper_old(old(self).remapper),
                old_index,
                old_len,
                recorded,
                LinesState { line: l as int, starts, diffs: diffs_view(old(diffs)@), page_ops: old(self).page_ops@ },
            ) {
                Ok(st) => res is Ok && diffs_view(final(diffs)@) == st.diffs && final(self).page_ops@ == st.page_ops,
                Err(e) => res == Err::<(), RemapError>(e),
            },
    {
        if old_len == 0 {
            return Err(RemapError::SliceOld);
        }
        let text = match slice_old(&self.remapper, old_index, old_index + old_len) {
            Some(text) => text,
            None => {
                return Err(RemapError::SliceOld);
            },
        };
        let piece = LineDiffOp::Delete(text.to_owned());
        let ghost piece_view = piece@;
        let ghost before = diffs_view(diffs@);
        let ghost old_diffs = diffs@;
        diffs[l].value.push(piece);
        assert(diffs@[l as int].value@.map_values(|o: LineDiffOp| o@) =~= old_diffs[l as int].value@.map_values(
            |o: LineDiffOp| o@,
        ).push(piece_view));
        assert(diffs_view(diffs@) =~= before.update(l as int, before[l as int].push(piece_view)));
        self.page_ops.push(recorded);
        Ok(())
    }

    /// Maps the diff operations that fall on the lines of one page: takes
    /// operations from `ops` until they or the lines run out, splitting
    /// operations at line ends, and returns for each line its recorded diff.
    /// The operations recorded for the page are appended to `page_ops`; an
    /// operation that the page took only in part stays first in `ops`.
    pub fn map_diff_page(&mut self, ops: &mut DiffOps, ocr_lines: &[BoundingBox<Range<usize>>]) -> (res: Result<
        Vec<BoundingBox<Vec<LineDiffOp>>>,
        RemapError,
    >)
        requires
            old(ops).next <= old(ops).ops.len(),
            ops_well_formed(old(ops).remaining()),
            lines_nonempty(ocr_lines@),
        ensures
            final(self).old_text() == old(self).old_text() && final(self).new_text() == old(self).new_text(),
            final(ops).next <= final(ops).ops.len(),
            match spec_page(
                old(self).old_text(),
                old(self).new_text(),
                line_ends(ocr_lines@),
                page_start(old(ops).remaining(), ocr_lines@, old(self).recorded()),
            ) {
                Ok(st) => res matches Ok(boxes) && final(ops).remaining() == st.ops
                    && final(self).recorded() == st.lines.page_ops && boxes.len() == ocr_lines.len()
                    && diffs_view(boxes@) == st.lines.diffs
                    && forall|i: int| 0 <= i < ocr_lines.len() ==> (#[trigger] boxes@[i]).rect == ocr_lines@[i].rect
                        && boxes@[i].page == ocr_lines@[i].page,
                Err(e) => res == Err::<Vec<BoundingBox<Vec<LineDiffOp>>>, RemapError>(e),
            },
            res is Ok ==> ops_well_formed(final(ops).remaining()),
            covers_rest(old(ops).remaining(), old(self).old_text(), old(self).new_text()) ==> (res matches Ok(
                boxes,
            ) ==> {
                &&& page_new(diffs_view(boxes@)) == old(self).new_text().subrange(
                    new_pos(old(self).new_text(), old(ops).remaining()),
                    new_pos(old(self).new_text(), final(ops).remaining()),
                )
                &&& page_old(diffs_view(boxes@)) == old(self).old_text().subrange(
                    old_pos(old(self).old_text(), old(ops).remaining()),
                    old_pos(old(self).old_text(), final(ops).remaining()),
                )
            }),
    {
        let ghost st0 = page_start(old(ops).remaining(), ocr_lines@, old(self).recorded());
        let ghost old_text = self.old_text();
        let ghost new_text = self.new_text();
        let res = self.map_page_ops(ops, ocr_lines);
        proof {
            if covers_rest(st0.ops, old_text, new_text) {
                lemma_page_empty(ocr_lines@.len());
                assert(lines_fresh(line_ends(ocr_lines@), st0.lines));
                lemma_page_pieces(old_text, new_text, line_ends(ocr_lines@), st0);
            }
        }
        res
    }

    /// The steps of [`RemapCtx::map_diff_page`].
    fn map_page_ops(&mut self, ops: &mut DiffOps, ocr_lines: &[BoundingBox<Range<usize>>]) -> (res: Result<
        Vec<BoundingBox<Vec<LineDiffOp>>>,
        RemapError,
    >)
        requires
            old(ops).next <= old(ops).ops.len(),
            ops_well_formed(old(ops).remaining()),
            lines_nonempty(ocr_lines@),
        ensures
            final(self).old_text() == old(self).old_text() && final(self).new_text() == old(self).new_text(),
            final(ops).next <= final(ops).ops.len(),
            match spec_page(
                old(self).old_text(),
                old(self).new_text(),
                line_ends(ocr_lines@),
                page_start(old(ops).remaining(), ocr_lines@, old(self).recorded()),
            ) {
                Ok(st) => res matches Ok(boxes) && final(ops).remaining() == st.ops
                    && final(self).recorded() == st.lines.page_ops && boxes.len() == ocr_lines.len()
                    && diffs_view(boxes@) == st.lines.diffs
                    && forall|i: int| 0 <= i < ocr_lines.len() ==> (#[trigger] boxes@[i]).rect == ocr_lines@[i].rect
                        && boxes@[i].page == ocr_lines@[i].page,
                Err(e) => res == Err::<Vec<BoundingBox<Vec<LineDiffOp>>>, RemapError>(e),
            },
            res is Ok ==> ops_well_formed(final(ops).remaining()),
    {
        let n = ocr_lines.len();
        let mut starts: Vec<usize> = Vec::new();
        let mut diffs: Vec<BoundingBox<Vec<LineDiffOp>>> = Vec::new();
        let mut i: usize = 0;
        while i < n
            invariant
                i <= n,
                n == ocr_lines.len(),
                starts@ == line_starts(ocr_lines@).take(i as int),
                diffs.len() == i,
                forall|j: int| 0 <= j < i ==> (#[trigger] diffs@[j]).rect == ocr_lines@[j].rect
                    && diffs@[j].page == ocr_lines@[j].page && diffs@[j].value@ == Seq::<LineDiffOp>::empty(),
            decreases n - i,
        {
            starts.push(ocr_lines[i].value.start);
            diffs.push(ocr_lines[i].with_value(Vec::new()));
            i = i + 1;
            assert(starts@ =~= line_starts(ocr_lines@).take(i as int));
        }
        assert(starts@ =~= line_starts(ocr_lines@));
        assert forall|j: int| 0 <= j < n implies (#[trigger] diffs@[j]).value@.map_values(|o: LineDiffOp| o@)
            =~= Seq::<LineDiffView>::empty() by {}
        assert(diffs_view(diffs@) =~= Seq::new(n as nat, |i: int| Seq::<LineDiffView>::empty()));
        let mut line: usize = 0;
        let ghost goal = spec_page(
            remapper_old(self.remapper),
            remapper_new(self.remapper),
            line_ends(ocr_lines@),
            page_start(ops.remaining(), ocr_lines@, self.page_ops@),
        );
        loop
            invariant
                self.remapper == old(self).remapper,
                n == ocr_lines.len(),
                starts.len() == n,
                diffs.len() == n,
                line <= n,
                ops.next <= ops.ops.len(),
                ops_well_formed(ops.remaining()),
                forall|j: int| 0 <= j < n ==> (#[trigger] diffs@[j]).rect == ocr_lines@[j].rect
                    && diffs@[j].page == ocr_lines@[j].page,
                goal == spec_page(
                    remapper_old(old(self).remapper),
                    remapper_new(old(self).remapper),
                    line_ends(ocr_lines@),
                    page_start(old(ops).remaining(), ocr_lines@, old(self).page_ops@),
                ),
                spec_page(
                    remapper_old(self.remapper),
                    remapper_new(self.remapper),
                    line_ends(ocr_lines@),
                    PageState {
                        ops: ops.remaining(),
                        lines: LinesState {
                            line: line as int,
                            starts: starts@,
                            diffs: diffs_view(diffs@),
                            page_ops: self.page_ops@,
                        },
                    },
                ) == goal,
            decreases ops.ops.len() - ops.next,
        {
            if ops.next >= ops.ops.len() {
                return Ok(diffs);
            }
            let ghost rem = ops.remaining();
            let op = ops.ops[ops.next];
            assert(rem[0] == op);
            assert(op.well_formed());
            assert(rem.drop_first() == ops.ops@.skip(ops.next + 1));
            match op {
                DiffOp::Delete { old_index, old_len, new_index: _ } => {
                    if line >= n {
                        return Ok(diffs);
                    }
                    match self.delete_piece(&mut diffs, line, old_index, old_len, op, Ghost(starts@)) {
                        Ok(()) => {},
                        Err(e) => {
                            return Err(e);
                        },
                    }
                    ops.next = ops.next + 1;
                },
                DiffOp::Equal { old_index, new_index, len } => {
                    let mut oi = old_index;
                    let mut ni = new_index;
                    let mut nl = len;
                    match self.ins_eq(ocr_lines, &mut starts, &mut diffs, &mut line, DiffTag::Equal, &mut oi, &mut ni, &mut nl) {
                        Err(e) => {
                            return Err(e);
                        },
                        Ok(true) => {
                            ops.ops.set(ops.next, DiffOp::Equal { old_index: oi, new_index: ni, len: nl });
                            assert(ops.remaining() =~= rem.update(0, DiffOp::Equal { old_index: oi, new_index: ni, len: nl }));
                            return Ok(diffs);
                        },
                        Ok(false) => {
                            ops.next = ops.next + 1;
                        },
                    }
                },
                DiffOp::Insert { old_index, new_index, new_len } => {
                    let mut oi = old_index;
                    let mut ni = new_index;
                    let mut nl = new_len;
                    match self.ins_eq(ocr_lines, &mut starts, &mut diffs, &mut line, DiffTag::Insert, &mut oi, &mut ni, &mut nl) {
                        Err(e) => {
                            return Err(e);
                        },
                        Ok(true) => {
                            ops.ops.set(ops.next, DiffOp::Insert { old_index: oi, new_index: ni, new_len: nl });
                            assert(ops.remaining() =~= rem.update(0, DiffOp::Insert { old_index: oi, new_index: ni, new_len: nl }));
                            return Ok(diffs);
                        },
                        Ok(false) => {
                            ops.next = ops.next + 1;
                        },
                    }
                },
                DiffOp::Replace { old_index, old_len, new_index, new_len } => {
                    if line >= n {
                        return Ok(diffs);
                    }
                    // delete
                    match self.delete_piece(
                        &mut diffs,
                        line,
                        old_index,
                        old_len,
                        DiffOp::Delete { old_index, old_len, new_index },
                        Ghost(starts@),
                    ) {
                        Ok(()) => {},
                        Err(e) => {
                            return Err(e);
                        },
                    }
                    // insert
                    let mut oi = old_index;
                    let mut ni = new_index;
                    let mut nl = new_len;
                    match self.ins_eq(ocr_lines, &mut starts, &mut diffs, &mut line, DiffTag::Insert, &mut oi, &mut ni, &mut nl) {
                        Err(e) => {
                            return Err(e);
                        },
                        Ok(true) => {
                            ops.ops.set(ops.next, DiffOp::Insert { old_index: oi, new_index: ni, new_len: nl });
                            assert(ops.remaining() =~= rem.update(0, DiffOp::Insert { old_index: oi, new_index: ni, new_len: nl }));
                            return Ok(diffs);
                        },
                        Ok(false) => {
                            ops.next = ops.next + 1;
                        },
                    }
                },
            }
        }
    }

    /// Covers the lines, from `line` on, with the equal or inserted operation
    /// whose remaining part is `old_index`, `new_index`, `new_len`; returns
    /// whether the lines ran out first.
    fn ins_eq(
        &mut self,
        ocr_lines: &[BoundingBox<Range<usize>>],
        starts: &mut Vec<usize>,
        diffs: &mut Vec<BoundingBox<Vec<LineDiffOp>>>,
        line: &mut usize,
        tag: DiffTag,
        old_index: &mut usize,
        new_index: &mut usize,
        new_len: &mut usize,
    ) -> (res: Result<bool, RemapError>)
        requires
            tag == DiffTag::Equal || tag == DiffTag::Insert,
            old(starts).len() == ocr_lines.len(),
            old(diffs).len() == ocr_lines.len(),
            *old(line) <= ocr_lines.len(),
            *old(new_len) > 0,
            *old(old_index) + *old(new_len) <= usize::MAX,
            *old(new_index) + *old(new_len) <= usize::MAX,
        ensures
            final(self).remapper == old(self).remapper,
            final(starts).len() == ocr_lines.len(),
            final(diffs).len() == ocr_lines.len(),
            *final(line) <= ocr_lines.len(),
            forall|i: int| 0 <= i < ocr_lines.len() ==> (#[trigger] final(diffs)@[i]).rect == old(diffs)@[i].rect
                && final(diffs)@[i].page == old(diffs)@[i].page,
            match spec_cover(
                remapper_new(old(self).remapper),
                line_ends(ocr_lines@),
                tag == DiffTag::Equal,
                *old(old_index),
                *old(new_index),
                *old(new_len),
                LinesState {
                    line: *old(line) as int,
                    starts: old(starts)@,
                    diffs: diffs_view(old(diffs)@),
                    page_ops: old(self).page_ops@,
                },
            ) {
                Ok(c) => res == Ok::<bool, RemapError>(c.exhausted) && *final(old_index) == c.old_index
                    && *final(new_index) == c.new_index && *final(new_len) == c.new_len
                    && *final(line) as int == c.lines.line && final(starts)@ == c.lines.starts
                    && diffs_view(final(diffs)@) == c.lines.diffs && final(self).page_ops@ == c.lines.page_ops
                    && (c.exhausted ==> c.new_len > 0 && c.old_index + c.new_len <= usize::MAX
                    && c.new_index + c.new_len <= usize::MAX),
                Err(e) => res == Err::<bool, RemapError>(e),
            },
    {
        let ghost goal = spec_cover(
            remapper_new(self.remapper),
            line_ends(ocr_lines@),
            tag == DiffTag::Equal,
            *old_index,
            *new_index,
            *new_len,
            LinesState { line: *line as int, starts: starts@, diffs: diffs_view(diffs@), page_ops: self.page_ops@ },
        );
        loop
            invariant
                self.remapper == old(self).remapper,
                tag == DiffTag::Equal || tag == DiffTag::Insert,
                starts.len() == ocr_lines.len(),
                diffs.len() == ocr_lines.len(),
                *line <= ocr_lines.len(),
                *new_len > 0,
                *old_index + *new_len <= usize::MAX,
                *new_index + *new_len <= usize::MAX,
                forall|i: int| 0 <= i < ocr_lines.len() ==> (#[trigger] diffs@[i]).rect == old(diffs)@[i].rect
                    && diffs@[i].page == old(diffs)@[i].page,
                goal == spec_cover(
                    remapper_new(old(self).remapper),
                    line_ends(ocr_lines@),
                    tag == DiffTag::Equal,
                    *old(old_index),
                    *old(new_index),
                    *old(new_len),
                    LinesState {
                        line: *old(line) as int,
                        starts: old(starts)@,
                        diffs: diffs_view(old(diffs)@),
                        page_ops: old(self).page_ops@,
                    },
                ),
                spec_cover(
                    remapper_new(self.remapper),
                    line_ends(ocr_lines@),
                    tag == DiffTag::Equal,
                    *old_index,
                    *new_index,
                    *new_len,
                    LinesState { line: *line as int, starts: starts@, diffs: diffs_view(diffs@), page_ops: self.page_ops@ },
                ) == goal,
            decreases ocr_lines.len() - *line,
        {
            let l = *line;
            if l >= ocr_lines.len() {
                return Ok(true);
            }
            let lstart = starts[l];
            let lend = ocr_lines[l].value.end;
            let len: usize = if lstart < lend {
                lend - lstart
            } else {
                0
            };
            let chunk_len: usize = if *new_len < len {
                *new_len
            } else {
                len
            };
            if chunk_len == 0 {
                return Err(RemapError::SliceNew { chunk_len });
            }
            let chunk = match slice_new(&self.remapper, *new_index, *new_index + chunk_len) {
                Some(chunk) => chunk,
                None => {
                    return Err(RemapError::SliceNew { chunk_len });
                },
            };
            let ghost before = diffs_view(diffs@);
            let piece = if tag == DiffTag::Equal {
                self.page_ops.push(DiffOp::Equal { old_index: *old_index, new_index: *new_index, len: chunk_len });
                LineDiffOp::Equal(chunk.to_owned())
            } else {
                self.page_ops.push(DiffOp::Insert { old_index: *old_index, new_index: *new_index, new_len: chunk_len });
                LineDiffOp::insert(chunk.to_owned())
            };
            let ghost piece_view = piece@;
            let ghost old_diffs = diffs@;
            diffs[l].value.push(piece);
            assert(diffs@[l as int].value@.map_values(|o: LineDiffOp| o@) =~= old_diffs[l as int].value@.map_values(
                |o: LineDiffOp| o@,
            ).push(piece_view));
            assert(diffs_view(diffs@) =~= before.update(l as int, before[l as int].push(piece_view)));
            *old_index = *old_index + chunk_len;
            *new_index = *new_index + chunk_len;
            *new_len = *new_len - chunk_len;
            starts.set(l, lstart + chunk_len);
            if lstart + chunk_len >= lend {
                *line = l + 1;
            }
            if *new_len == 0 {
                return Ok(false);
            }
        }
    }
}

/// How many characters of the new text the pieces of a line hold: those of
/// its equal and inserted pieces.
pub open spec fn new_chars(pieces: Seq<LineDiffView>) -> int
    decreases pieces.len(),
{
    if pieces.len() == 0 {
        0
    } else {
        new_chars(pieces.drop_last()) + match pieces.last() {
            LineDiffView::Equal(t) => t.len() as int,
            LineDiffView::Insert(t) => t.len() as int,
            LineDiffView::Delete(_) => 0,
        }
    }
}

/// How far the lines of a page are filled, for lines that start at `orig`
/// and end at `ends`: each line holds as many new characters as its start
/// moved on, no line is filled past its end, the lines before the current one
/// are full and those after it untouched.
pub open spec fn lines_filled(ends: Seq<usize>, orig: Seq<usize>, st: LinesState) -> bool {
    &&& st.starts.len() == ends.len()
    &&& st.diffs.len() == ends.len()
    &&& orig.len() == ends.len()
    &&& 0 <= st.line
    &&& forall|l: int| 0 <= l < ends.len() ==> orig[l] <= #[trigger] st.starts[l] <= ends[l]
    &&& forall|l: int| 0 <= l < ends.len() ==> new_chars(#[trigger] st.diffs[l]) == st.starts[l] - orig[l]
    &&& forall|l: int| 0 <= l < ends.len() && l < st.line ==> #[trigger] st.starts[l] == ends[l]
}

proof fn lemma_cover_fills(
    new: Seq<char>,
    ends: Seq<usize>,
    orig: Seq<usize>,
    equal: bool,
    old_index: usize,
    new_index: usize,
    new_len: usize,
    st: LinesState,
)
    requires
        lines_filled(ends, orig, st),
    ensures
        spec_cover(new, ends, equal, old_index, new_index, new_len, st) matches Ok(c) ==> lines_filled(
            ends,
            orig,
            c.lines,
        ) && (c.exhausted ==> c.lines.line >= ends.len()),
    decreases ends.len() - st.line,
{
    let l = st.line;
    if 0 <= l < ends.len() {
        let lstart = st.starts[l];
        let lend = ends[l];
        let len: int = if lstart < lend {
            lend - lstart
        } else {
            0
        };
        let chunk: int = if new_len < len {
            new_len as int
        } else {
            len
        };
        if !(chunk == 0 || new_index + chunk > new.len()) {
            let text = new.subrange(new_index as int, new_index + chunk);
            let piece = if equal {
                LineDiffView::Equal(text)
            } else {
                LineDiffView::Insert(text)
            };
            let recorded = if equal {
                DiffOp::Equal { old_index, new_index, len: chunk as usize }
            } else {
                DiffOp::Insert { old_index, new_index, new_len: chunk as usize }
            };
            let st2 = LinesState {
                line: if lstart + chunk >= lend {
                    l + 1
                } else {
                    l
                },
                starts: st.starts.update(l, (lstart + chunk) as usize),
                diffs: st.diffs.update(l, st.diffs[l].push(piece)),
                page_ops: st.page_ops.push(recorded),
            };
            assert(st.diffs[l].push(piece).drop_last() =~= st.diffs[l]);
            assert(new_chars(st.diffs[l].push(piece)) == new_chars(st.diffs[l]) + chunk);
            assert(lines_filled(ends, orig, st2)) by {
                assert forall|j: int| 0 <= j < ends.len() implies new_chars(#[trigger] st2.diffs[j]) == st2.starts[j]
                    - orig[j] by {
                    if j != l {
                        assert(st2.diffs[j] == st.diffs[j]);
                        assert(st2.starts[j] == st.starts[j]);
                    }
                }
                assert forall|j: int| 0 <= j < ends.len() implies orig[j] <= #[trigger] st2.starts[j] <= ends[j] by {
                    if j != l {
                        assert(st2.starts[j] == st.starts[j]);
                    }
                }
                assert forall|j: int| 0 <= j < ends.len() && j < st2.line implies #[trigger] st2.starts[j] == ends[j] by {
                    if j != l {
                        assert(st2.starts[j] == st.starts[j]);
                    }
                }
            }
            let rest = (new_len - chunk) as usize;
            if rest != 0 {
                lemma_cover_fills(
                    new,
                    ends,
                    orig,
                    equal,
                    (old_index + chunk) as usize,
                    (new_index + chunk) as usize,
                    rest,
                    st2,
                );
            }
        }
    }
}

proof fn lemma_delete_fills(old: Seq<char>, ends: Seq<usize>, orig: Seq<usize>, old_index: usize, old_len: usize, recorded: DiffOp, st: LinesState)
    requires
        lines_filled(ends, orig, st),
        st.line < ends.len(),
    ensures
        spec_delete(old, old_index, old_len, recorded, st) matches Ok(l2) ==> lines_filled(ends, orig, l2) && l2.line == st.line,
{
    if !(old_len == 0 || old_index + old_len > old.len()) {
        let text = old.subrange(old_index as int, old_index + old_len);
        let l = st.line;
        let piece = LineDiffView::Delete(text);
        let l2 = LinesState {
            diffs: st.diffs.update(st.line, st.diffs[st.line].push(piece)),
            page_ops: st.page_ops.push(recorded),
            ..st
        };
        assert(st.diffs[l].push(piece).drop_last() =~= st.diffs[l]);
        assert forall|j: int| 0 <= j < ends.len() implies new_chars(#[trigger] l2.diffs[j]) == l2.starts[j] - orig[j] by {
            if j != l {
                assert(l2.diffs[j] == st.diffs[j]);
            }
        }
    }
}

proof fn lemma_page_fills(old: Seq<char>, new: Seq<char>, ends: Seq<usize>, orig: Seq<usize>, st: PageState)
    requires
        lines_filled(ends, orig, st.lines),
    ensures
        spec_page(old, new, ends, st) matches Ok(st2) ==> lines_filled(ends, orig, st2.lines) && (st2.ops.len() > 0
            ==> st2.lines.line >= ends.len()),
    decreases st.ops.len(),
{
    if st.ops.len() > 0 {
        match st.ops[0] {
            DiffOp::Delete { old_index, old_len, new_index } => {
                if !lines_done(ends, st.lines) {
                    lemma_delete_fills(old, ends, orig, old_index, old_len, st.ops[0], st.lines);
                    if let Ok(l2) = spec_delete(old, old_index, old_len, st.ops[0], st.lines) {
                        lemma_page_fills(old, new, ends, orig, PageState { ops: st.ops.drop_first(), lines: l2 });
                    }
                }
            },
            DiffOp::Equal { old_index, new_index, len } => {
                lemma_cover_fills(new, ends, orig, true, old_index, new_index, len, st.lines);
                if let Ok(c) = spec_cover(new, ends, true, old_index, new_index, len, st.lines) {
                    if !c.exhausted {
                        lemma_page_fills(old, new, ends, orig, PageState { ops: st.ops.drop_first(), lines: c.lines });
                    }
                }
            },
            DiffOp::Insert { old_index, new_index, new_len } => {
                lemma_cover_fills(new, ends, orig, false, old_index, new_index, new_len, st.lines);
                if let Ok(c) = spec_cover(new, ends, false, old_index, new_index, new_len, st.lines) {
                    if !c.exhausted {
                        lemma_page_fills(old, new, ends, orig, PageState { ops: st.ops.drop_first(), lines: c.lines });
                    }
                }
            },
            DiffOp::Replace { old_index, old_len, new_index, new_len } => {
                if !lines_done(ends, st.lines) {
                    let recorded = DiffOp::Delete { old_index, old_len, new_index };
                    lemma_delete_fills(old, ends, orig, old_index, old_len, recorded, st.lines);
                    if let Ok(l2) = spec_delete(old, old_index, old_len, recorded, st.lines) {
                        lemma_cover_fills(new, ends, orig, false, old_index, new_index, new_len, l2);
                        if let Ok(c) = spec_cover(new, ends, false, old_index, new_index, new_len, l2) {
                            if !c.exhausted {
                                lemma_page_fills(
                                    old,
                                    new,
                                    ends,
                                    orig,
                                    PageState { ops: st.ops.drop_first(), lines: c.lines },
                                );
                            }
                        }
                    }
                }
            },
        }
    }
}

/// Each line of a page receives, in its equal and inserted pieces, at most as
/// many characters of the OCR text as its range covers, and the lines before
/// the one the page stopped at receive exactly that many.  A page stops with
/// operations left only once all of its lines are full.
pub proof fn lemma_page_fills_lines(
    old: Seq<char>,
    new: Seq<char>,
    lines: Seq<BoundingBox<Range<usize>>>,
    ops: Seq<DiffOp>,
    page_ops: Seq<DiffOp>,
)
    requires
        lines_nonempty(lines),
    ensures
        spec_page(old, new, line_ends(lines), page_start(ops, lines, page_ops)) matches Ok(st) ==> {
            &&& forall|l: int|
                0 <= l < lines.len() ==> 0 <= new_chars(#[trigger] st.lines.diffs[l]) <= lines[l].value.end
                    - lines[l].value.start
            &&& forall|l: int|
                0 <= l < lines.len() && l < st.lines.line ==> new_chars(#[trigger] st.lines.diffs[l])
                    == lines[l].value.end - lines[l].value.start
            &&& st.ops.len() > 0 ==> st.lines.line >= lines.len()
        },
{
    let ends = line_ends(lines);
    let orig = line_starts(lines);
    let st0 = page_start(ops, lines, page_ops);
    assert forall|l: int| 0 <= l < lines.len() implies new_chars(#[trigger] st0.lines.diffs[l]) == st0.lines.starts[l]
        - orig[l] by {
        assert(st0.lines.diffs[l] =~= Seq::<LineDiffView>::empty());
    }
    assert(lines_filled(ends, orig, st0.lines));
    lemma_page_fills(old, new, ends, orig, st0);
}

} // verus!
