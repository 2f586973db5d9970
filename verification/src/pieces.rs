//! What the pieces recorded on the lines of the pages add up to: when the
//! operations are a diff of the two texts, the equal and inserted pieces of
//! all pages, in order, are the OCR text taken so far, and the equal and
//! deleted pieces are the reference text taken so far; nothing is lost or
//! repeated at line or page ends.
use std::ops::Range;

use vstd::prelude::*;

use crate::boxes::BoundingBox;
use crate::remap::{
    after_cover, line_ends, lines_done, lemma_page_fills_lines, lines_nonempty, new_chars, ops_well_formed, page_start, spec_cover, spec_delete, spec_page, Covered, DiffOp,
    LineDiffView, LinesState, PageState, RemapError,
};
use crate::remap::diffs_view;
use crate::scroll::{ops_after, ops_cover, ops_cover_from, pages_nonempty, spec_scroll, PageDiff};

verus! {

/// The characters of the new text that a piece holds.
pub open spec fn piece_new(p: LineDiffView) -> Seq<char> {
    match p {
        LineDiffView::Equal(t) => t,
        LineDiffView::Insert(t) => t,
        LineDiffView::Delete(_) => Seq::empty(),
    }
}

/// The characters of the old text that a piece holds.
pub open spec fn piece_old(p: LineDiffView) -> Seq<char> {
    match p {
        LineDiffView::Equal(t) => t,
        LineDiffView::Insert(_) => Seq::empty(),
        LineDiffView::Delete(t) => t,
    }
}

/// The new text that the pieces of a line hold, in order.
pub open spec fn line_new(ps: Seq<LineDiffView>) -> Seq<char>
    decreases ps.len(),
{
    if ps.len() == 0 {
        Seq::empty()
    } else {
        line_new(ps.drop_last()) + piece_new(ps.last())
    }
}

/// The old text that the pieces of a line hold, in order.
pub open spec fn line_old(ps: Seq<LineDiffView>) -> Seq<char>
    decreases ps.len(),
{
    if ps.len() == 0 {
        Seq::empty()
    } else {
        line_old(ps.drop_last()) + piece_old(ps.last())
    }
}

/// The new text that the lines of a page hold, line after line.
pub open spec fn page_new(ds: Seq<Seq<LineDiffView>>) -> Seq<char>
    decreases ds.len(),
{
    if ds.len() == 0 {
        Seq::empty()
    } else {
        page_new(ds.drop_last()) + line_new(ds.last())
    }
}

/// The old text that the lines of a page hold, line after line.
pub open spec fn page_old(ds: Seq<Seq<LineDiffView>>) -> Seq<char>
    decreases ds.len(),
{
    if ds.len() == 0 {
        Seq::empty()
    } else {
        page_old(ds.drop_last()) + line_old(ds.last())
    }
}

/// How many characters of the new text the operations take.
pub open spec fn new_left(ops: Seq<DiffOp>) -> int
    decreases ops.len(),
{
    if ops.len() == 0 {
        0
    } else {
        match ops[0] {
            DiffOp::Equal { len, .. } => len + new_left(ops.drop_first()),
            DiffOp::Delete { .. } => new_left(ops.drop_first()),
            DiffOp::Insert { new_len, .. } => new_len + new_left(ops.drop_first()),
            DiffOp::Replace { new_len, .. } => new_len + new_left(ops.drop_first()),
        }
    }
}

/// How many characters of the old text the operations take.
pub open spec fn old_left(ops: Seq<DiffOp>) -> int
    decreases ops.len(),
{
    if ops.len() == 0 {
        0
    } else {
        match ops[0] {
            DiffOp::Equal { len, .. } => len + old_left(ops.drop_first()),
            DiffOp::Delete { old_len, .. } => old_len + old_left(ops.drop_first()),
            DiffOp::Insert { .. } => old_left(ops.drop_first()),
            DiffOp::Replace { old_len, .. } => old_len + old_left(ops.drop_first()),
        }
    }
}

/// Operations that take the texts from `oi` and `ni` to their ends take what
/// is left of them.
proof fn lemma_cover_left(ops: Seq<DiffOp>, old: Seq<char>, new: Seq<char>, oi: int, ni: int)
    requires
        ops_cover_from(ops, old, new, oi, ni),
    ensures
        oi + old_left(ops) == old.len(),
        ni + new_left(ops) == new.len(),
    decreases ops.len(),
{
    if ops.len() > 0 {
        match ops[0] {
            DiffOp::Equal { len, .. } => lemma_cover_left(ops.drop_first(), old, new, oi + len, ni + len),
            DiffOp::Delete { old_len, .. } => lemma_cover_left(ops.drop_first(), old, new, oi + old_len, ni),
            DiffOp::Insert { new_len, .. } => lemma_cover_left(ops.drop_first(), old, new, oi, ni + new_len),
            DiffOp::Replace { old_len, new_len, .. } => lemma_cover_left(
                ops.drop_first(),
                old,
                new,
                oi + old_len,
                ni + new_len,
            ),
        }
    }
}

pub proof fn lemma_left_nonneg(ops: Seq<DiffOp>)
    ensures
        old_left(ops) >= 0,
        new_left(ops) >= 0,
    decreases ops.len(),
{
    if ops.len() > 0 {
        lemma_left_nonneg(ops.drop_first());
    }
}

/// Whether operations take both texts from where what is left of them starts.
pub open spec fn covers_rest(ops: Seq<DiffOp>, old: Seq<char>, new: Seq<char>) -> bool {
    &&& old_left(ops) <= old.len()
    &&& new_left(ops) <= new.len()
    &&& ops_cover_from(ops, old, new, old.len() - old_left(ops), new.len() - new_left(ops))
}

/// Whether the per-line state of a page is consistent, with every line after
/// the current one still without pieces.
pub open spec fn lines_fresh(ends: Seq<usize>, st: LinesState) -> bool {
    &&& st.starts.len() == ends.len()
    &&& st.diffs.len() == ends.len()
    &&& 0 <= st.line
    &&& forall|j: int| st.line < j < st.diffs.len() ==> (#[trigger] st.diffs[j]).len() == 0
}

proof fn lemma_line_push(ps: Seq<LineDiffView>, x: LineDiffView)
    ensures
        line_new(ps.push(x)) == line_new(ps) + piece_new(x),
        line_old(ps.push(x)) == line_old(ps) + piece_old(x),
{
    assert(ps.push(x).drop_last() =~= ps);
}

/// Adding a piece to line `l`, after which no line holds pieces, adds its text
/// at the end of the page's text.
proof fn lemma_page_push(ds: Seq<Seq<LineDiffView>>, l: int, x: LineDiffView)
    requires
        0 <= l < ds.len(),
        forall|j: int| l < j < ds.len() ==> (#[trigger] ds[j]).len() == 0,
    ensures
        page_new(ds.update(l, ds[l].push(x))) == page_new(ds) + piece_new(x),
        page_old(ds.update(l, ds[l].push(x))) == page_old(ds) + piece_old(x),
    decreases ds.len(),
{
    let ds2 = ds.update(l, ds[l].push(x));
    lemma_line_push(ds[l], x);
    if l == ds.len() - 1 {
        assert(ds2.drop_last() =~= ds.drop_last());
    } else {
        assert(ds2.drop_last() =~= ds.drop_last().update(l, ds[l].push(x)));
        lemma_page_push(ds.drop_last(), l, x);
        let last = ds.last();
        assert(last.len() == 0);
        assert(last =~= Seq::<LineDiffView>::empty());
        assert(ds2.last() == last);
        assert(line_new(last) =~= Seq::<char>::empty());
        assert(line_old(last) =~= Seq::<char>::empty());
        assert(page_new(ds2) =~= page_new(ds) + piece_new(x));
        assert(page_old(ds2) =~= page_old(ds) + piece_old(x));
    }
}

/// Lines without pieces hold no text.
pub proof fn lemma_page_empty(n: nat)
    ensures
        page_new(Seq::new(n, |i: int| Seq::<LineDiffView>::empty())) == Seq::<char>::empty(),
        page_old(Seq::new(n, |i: int| Seq::<LineDiffView>::empty())) == Seq::<char>::empty(),
    decreases n,
{
    let ds = Seq::new(n, |i: int| Seq::<LineDiffView>::empty());
    if n > 0 {
        lemma_page_empty((n - 1) as nat);
        assert(ds.drop_last() =~= Seq::new((n - 1) as nat, |i: int| Seq::<LineDiffView>::empty()));
        assert(line_new(ds.last()) =~= Seq::<char>::empty());
        assert(line_old(ds.last()) =~= Seq::<char>::empty());
        assert(page_new(ds) =~= Seq::<char>::empty());
        assert(page_old(ds) =~= Seq::<char>::empty());
    }
}

/// Covering lines with an equal or inserted operation records, at the end of
/// the page, the new text it takes (and, for an equal one, the same old
/// text), and leaves the rest of the operation where it stopped.
#[verifier::rlimit(60)]
proof fn lemma_cover_pieces(
    old: Seq<char>,
    new: Seq<char>,
    ends: Seq<usize>,
    equal: bool,
    old_index: usize,
    new_index: usize,
    new_len: usize,
    st: LinesState,
)
    requires
        lines_fresh(ends, st),
        new_len > 0,
        new_index + new_len <= new.len(),
        old_index + new_len <= usize::MAX,
        new_index + new_len <= usize::MAX,
        equal ==> old_index + new_len <= old.len() && old.subrange(old_index as int, old_index + new_len)
            == new.subrange(new_index as int, new_index + new_len),
    ensures
        spec_cover(new, ends, equal, old_index, new_index, new_len, st) matches Ok(c) ==> {
            &&& lines_fresh(ends, c.lines)
            &&& c.new_len <= new_len
            &&& c.new_index == new_index + (new_len - c.new_len)
            &&& c.old_index == old_index + (new_len - c.new_len)
            &&& page_new(c.lines.diffs) == page_new(st.diffs) + new.subrange(new_index as int, c.new_index as int)
            &&& page_old(c.lines.diffs) == page_old(st.diffs) + if equal {
                old.subrange(old_index as int, c.old_index as int)
            } else {
                Seq::empty()
            }
            &&& c.exhausted ==> c.new_len > 0 && c.lines.line >= ends.len()
            &&& !c.exhausted ==> c.new_len == 0
        },
    decreases ends.len() - st.line,
{
    let l = st.line;
    if l < 0 || l >= ends.len() || l >= st.starts.len() || l >= st.diffs.len() {
        assert(new.subrange(new_index as int, new_index as int) =~= Seq::<char>::empty());
        if equal {
            assert(old.subrange(old_index as int, old_index as int) =~= Seq::<char>::empty());
        }
        assert(page_new(st.diffs) + Seq::<char>::empty() =~= page_new(st.diffs));
        assert(page_old(st.diffs) + Seq::<char>::empty() =~= page_old(st.diffs));
    } else {
        let lstart = st.starts[l];
        let lend = ends[l];
        let len: int = if lstart < lend {
            lend - lstart
        } else {
            0
        };
        let chunk: int = if new_len < len {
            new_len as int
        } else {
            len
        };
        if !(chunk == 0 || new_index + chunk > new.len()) {
            let text = new.subrange(new_index as int, new_index + chunk);
            let piece = if equal {
                LineDiffView::Equal(text)
            } else {
                LineDiffView::Insert(text)
            };
            let recorded = if equal {
                DiffOp::Equal { old_index, new_index, len: chunk as usize }
            } else {
                DiffOp::Insert { old_index, new_index, new_len: chunk as usize }
            };
            let st2 = LinesState {
                line: if lstart + chunk >= lend {
                    l + 1
                } else {
                    l
                },
                starts: st.starts.update(l, (lstart + chunk) as usize),
                diffs: st.diffs.update(l, st.diffs[l].push(piece)),
                page_ops: st.page_ops.push(recorded),
            };
            lemma_page_push(st.diffs, l, piece);
            if equal {
                assert(old.subrange(old_index as int, old_index + chunk) =~= old.subrange(
                    old_index as int,
                    old_index + new_len,
                ).subrange(0, chunk));
                assert(text =~= new.subrange(new_index as int, new_index + new_len).subrange(0, chunk));
            }
            assert(lines_fresh(ends, st2)) by {
                assert forall|j: int| st2.line < j < st2.diffs.len() implies (#[trigger] st2.diffs[j]).len() == 0 by {
                    assert(st2.diffs[j] == st.diffs[j]);
                }
            }
            let rest = (new_len - chunk) as usize;
            if rest != 0 {
                let oi2 = (old_index + chunk) as usize;
                let ni2 = (new_index + chunk) as usize;
                assert(oi2 == old_index + chunk);
                assert(ni2 == new_index + chunk);
                if equal {
                    assert(old.subrange(oi2 as int, oi2 + rest) =~= old.subrange(
                        old_index as int,
                        old_index + new_len,
                    ).subrange(chunk, new_len as int));
                    assert(new.subrange(ni2 as int, ni2 + rest) =~= new.subrange(
                        new_index as int,
                        new_index + new_len,
                    ).subrange(chunk, new_len as int));
                }
                lemma_cover_pieces(old, new, ends, equal, oi2, ni2, rest, st2);
                if let Ok(c) = spec_cover(new, ends, equal, oi2, ni2, rest, st2) {
                    assert(ni2 <= c.new_index <= new.len());
                    assert(new.subrange(new_index as int, c.new_index as int) =~= text + new.subrange(
                        ni2 as int,
                        c.new_index as int,
                    ));
                    if equal {
                        assert(old.subrange(old_index as int, c.old_index as int) =~= text + old.subrange(
                            oi2 as int,
                            c.old_index as int,
                        ));
                    } else {
                        assert(Seq::<char>::empty() + Seq::<char>::empty() =~= Seq::<char>::empty());
                    }
                }
            } else {
                if !equal {
                    assert(page_old(st.diffs) + Seq::<char>::empty() =~= page_old(st.diffs));
                }
            }
        }
    }
}

/// Where the new text stands before the operations `ops`.
pub open spec fn new_pos(new: Seq<char>, ops: Seq<DiffOp>) -> int {
    new.len() - new_left(ops)
}

/// Where the old text stands before the operations `ops`.
pub open spec fn old_pos(old: Seq<char>, ops: Seq<DiffOp>) -> int {
    old.len() - old_left(ops)
}

/// The conditions under which a page is mapped from `st`.
pub open spec fn page_pre(old: Seq<char>, new: Seq<char>, ends: Seq<usize>, st: PageState) -> bool {
    &&& lines_fresh(ends, st.lines)
    &&& covers_rest(st.ops, old, new)
    &&& ops_well_formed(st.ops)
}

/// What a page records from `st`: the new and the old text from where they
/// stand to where the operations left stand, at the end of its pieces.
pub open spec fn page_ok(old: Seq<char>, new: Seq<char>, ends: Seq<usize>, st: PageState) -> bool {
    spec_page(old, new, ends, st) matches Ok(st2) ==> {
        &&& page_pre(old, new, ends, st2)
        &&& new_pos(new, st.ops) <= new_pos(new, st2.ops)
        &&& old_pos(old, st.ops) <= old_pos(old, st2.ops)
        &&& page_new(st2.lines.diffs) == page_new(st.lines.diffs) + new.subrange(
            new_pos(new, st.ops),
            new_pos(new, st2.ops),
        )
        &&& page_old(st2.lines.diffs) == page_old(st.lines.diffs) + old.subrange(
            old_pos(old, st.ops),
            old_pos(old, st2.ops),
        )
    }
}

proof fn lemma_rest_pre(old: Seq<char>, new: Seq<char>, ops: Seq<DiffOp>)
    requires
        ops.len() > 0,
        covers_rest(ops, old, new),
        ops_well_formed(ops),
    ensures
        ops_well_formed(ops.drop_first()),
        ops[0].well_formed(),
        old_left(ops) >= 0,
        new_left(ops) >= 0,
        old_left(ops.drop_first()) >= 0,
        new_left(ops.drop_first()) >= 0,
{
    let rest = ops.drop_first();
    assert forall|k: int| 0 <= k < rest.len() implies (#[trigger] rest[k]).well_formed() by {
        assert(rest[k] == ops[k + 1]);
    }
    lemma_left_nonneg(ops);
    lemma_left_nonneg(rest);
}

/// A page that stops at once records nothing.
proof fn lemma_stop(old: Seq<char>, new: Seq<char>, ends: Seq<usize>, st: PageState)
    requires
        page_pre(old, new, ends, st),
        spec_page(old, new, ends, st) == Ok::<PageState, RemapError>(st),
    ensures
        page_ok(old, new, ends, st),
{
    let ni = new_pos(new, st.ops);
    let oi = old_pos(old, st.ops);
    lemma_left_nonneg(st.ops);
    assert(new.subrange(ni, ni) =~= Seq::<char>::empty());
    assert(old.subrange(oi, oi) =~= Seq::<char>::empty());
    assert(page_new(st.lines.diffs) + Seq::<char>::empty() =~= page_new(st.lines.diffs));
    assert(page_old(st.lines.diffs) + Seq::<char>::empty() =~= page_old(st.lines.diffs));
}

/// Joining what a step records with what the page records after it.
proof fn lemma_join_step(
    old: Seq<char>,
    new: Seq<char>,
    ends: Seq<usize>,
    st: PageState,
    st1: PageState,
    new_step: Seq<char>,
    old_step: Seq<char>,
)
    requires
        page_pre(old, new, ends, st),
        page_pre(old, new, ends, st1),
        spec_page(old, new, ends, st) == spec_page(old, new, ends, st1),
        new_pos(new, st.ops) <= new_pos(new, st1.ops),
        old_pos(old, st.ops) <= old_pos(old, st1.ops),
        new_step == new.subrange(new_pos(new, st.ops), new_pos(new, st1.ops)),
        old_step == old.subrange(old_pos(old, st.ops), old_pos(old, st1.ops)),
        page_new(st1.lines.diffs) == page_new(st.lines.diffs) + new_step,
        page_old(st1.lines.diffs) == page_old(st.lines.diffs) + old_step,
        page_ok(old, new, ends, st1),
    ensures
        page_ok(old, new, ends, st),
{
    if let Ok(st2) = spec_page(old, new, ends, st1) {
        let n0 = new_pos(new, st.ops);
        let n1 = new_pos(new, st1.ops);
        let n2 = new_pos(new, st2.ops);
        let o0 = old_pos(old, st.ops);
        let o1 = old_pos(old, st1.ops);
        let o2 = old_pos(old, st2.ops);
        lemma_left_nonneg(st2.ops);
        lemma_left_nonneg(st.ops);
        assert(new.subrange(n0, n2) =~= new.subrange(n0, n1) + new.subrange(n1, n2));
        assert(old.subrange(o0, o2) =~= old.subrange(o0, o1) + old.subrange(o1, o2));
        assert(page_new(st2.lines.diffs) =~= page_new(st.lines.diffs) + new.subrange(n0, n2));
        assert(page_old(st2.lines.diffs) =~= page_old(st.lines.diffs) + old.subrange(o0, o2));
    }
}

/// A deletion records its old text and leaves the page to go on.
proof fn lemma_delete_step(old: Seq<char>, new: Seq<char>, ends: Seq<usize>, st: PageState, l2: LinesState)
    requires
        page_pre(old, new, ends, st),
        st.ops.len() > 0,
        st.ops[0] is Delete,
        !lines_done(ends, st.lines),
        spec_delete(old, st.ops[0]->Delete_old_index, st.ops[0]->Delete_old_len, st.ops[0], st.lines) == Ok::<
            LinesState,
            RemapError,
        >(l2),
    ensures
        page_pre(old, new, ends, PageState { ops: st.ops.drop_first(), lines: l2 }),
        page_ok(old, new, ends, PageState { ops: st.ops.drop_first(), lines: l2 }) ==> page_ok(old, new, ends, st),
{
    let ops = st.ops;
    let rest = ops.drop_first();
    lemma_rest_pre(old, new, ops);
    let old_index = ops[0]->Delete_old_index;
    let old_len = ops[0]->Delete_old_len;
    let oi = old_pos(old, ops);
    let ni = new_pos(new, ops);
    lemma_cover_left(rest, old, new, oi + old_len, ni);
    let text = old.subrange(old_index as int, old_index + old_len);
    lemma_page_push(st.lines.diffs, st.lines.line, LineDiffView::Delete(text));
    let st1 = PageState { ops: rest, lines: l2 };
    assert(lines_fresh(ends, l2)) by {
        assert forall|j: int| l2.line < j < l2.diffs.len() implies (#[trigger] l2.diffs[j]).len() == 0 by {
            assert(l2.diffs[j] == st.lines.diffs[j]);
        }
    }
    assert(new.subrange(ni, ni) =~= Seq::<char>::empty());
    assert(page_new(l2.diffs) =~= page_new(st.lines.diffs) + new.subrange(ni, ni));
    if page_ok(old, new, ends, st1) {
        lemma_join_step(old, new, ends, st, st1, new.subrange(ni, ni), text);
    }
}

/// An equal or inserted operation that the lines take whole records its text
/// and leaves the page to go on; one that they take in part ends the page.
proof fn lemma_cover_step(
    old: Seq<char>,
    new: Seq<char>,
    ends: Seq<usize>,
    st: PageState,
    lines: LinesState,
    equal: bool,
    old_step: Seq<char>,
    c: Covered,
)
    requires
        page_pre(old, new, ends, st),
        st.ops.len() > 0,
        equal ==> st.ops[0] is Equal,
        !equal ==> st.ops[0] is Insert || st.ops[0] is Replace,
        lines_fresh(ends, lines),
        page_old(lines.diffs) == page_old(st.lines.diffs) + old_step,
        page_new(lines.diffs) == page_new(st.lines.diffs),
        ({
            let (oi2, ni, nl) = match st.ops[0] {
                DiffOp::Equal { old_index, new_index, len } => (old_index, new_index, len),
                DiffOp::Insert { old_index, new_index, new_len } => (old_index, new_index, new_len),
                DiffOp::Replace { old_index, new_index, new_len, .. } => (old_index, new_index, new_len),
                DiffOp::Delete { old_index, new_index, old_len } => (old_index, new_index, old_len),
            };
            &&& spec_cover(new, ends, equal, oi2, ni, nl, lines) == Ok::<Covered, RemapError>(c)
            &&& old_step == old.subrange(old_pos(old, st.ops), old_pos(old, st.ops) + old_step.len())
            &&& (equal ==> old_step.len() == 0)
            &&& (!equal ==> old_step.len() == old_left(st.ops) - old_left(st.ops.drop_first()))
            &&& spec_page(old, new, ends, st) == if c.exhausted {
                Ok::<PageState, RemapError>(after_cover(st.ops, c, equal))
            } else {
                spec_page(old, new, ends, PageState { ops: st.ops.drop_first(), lines: c.lines })
            }
        }),
    ensures
        c.exhausted ==> page_ok(old, new, ends, st),
        !c.exhausted ==> page_pre(old, new, ends, PageState { ops: st.ops.drop_first(), lines: c.lines }),
        !c.exhausted ==> (page_ok(old, new, ends, PageState { ops: st.ops.drop_first(), lines: c.lines })
            ==> page_ok(old, new, ends, st)),
{
    let ops = st.ops;
    let rest = ops.drop_first();
    lemma_rest_pre(old, new, ops);
    let oi = old_pos(old, ops);
    let ni = new_pos(new, ops);
    let (oi2, ni2, nl) = match ops[0] {
        DiffOp::Equal { old_index, new_index, len } => (old_index, new_index, len),
        DiffOp::Insert { old_index, new_index, new_len } => (old_index, new_index, new_len),
        DiffOp::Replace { old_index, new_index, new_len, .. } => (old_index, new_index, new_len),
        DiffOp::Delete { old_index, new_index, old_len } => (old_index, new_index, old_len),
    };
    let ol = if equal { nl as int } else { 0 };
    lemma_cover_left(rest, old, new, oi + old_step.len() + ol, ni + nl);
    lemma_cover_pieces(old, new, ends, equal, oi2, ni2, nl, lines);
    if c.exhausted {
        let st2 = after_cover(ops, c, equal);
        let op2 = if equal {
            DiffOp::Equal { old_index: c.old_index, new_index: c.new_index, len: c.new_len }
        } else {
            DiffOp::Insert { old_index: c.old_index, new_index: c.new_index, new_len: c.new_len }
        };
        assert(st2.ops =~= seq![op2] + rest);
        assert(st2.ops[0] == op2);
        assert(st2.ops.drop_first() =~= rest);
        if equal {
            assert(old.subrange(c.old_index as int, c.old_index + c.new_len) =~= old.subrange(
                oi2 as int,
                oi2 + nl,
            ).subrange(nl - c.new_len, nl as int));
            assert(new.subrange(c.new_index as int, c.new_index + c.new_len) =~= new.subrange(
                ni2 as int,
                ni2 + nl,
            ).subrange(nl - c.new_len, nl as int));
            assert(old_step =~= Seq::<char>::empty());
            assert(page_old(c.lines.diffs) =~= page_old(st.lines.diffs) + old.subrange(oi, c.old_index as int));
        } else {
            assert(page_old(c.lines.diffs) =~= page_old(st.lines.diffs) + old_step);
        }
        assert(ops_well_formed(st2.ops)) by {
            assert forall|k: int| 0 <= k < st2.ops.len() implies (#[trigger] st2.ops[k]).well_formed() by {
                if k > 0 {
                    assert(st2.ops[k] == rest[k - 1]);
                }
            }
        }
    } else {
        let st1 = PageState { ops: rest, lines: c.lines };
        let new_step = new.subrange(ni, ni + nl);
        let old_all = if equal {
            old.subrange(oi, oi + nl)
        } else {
            old_step
        };
        if equal {
            assert(page_old(c.lines.diffs) =~= page_old(st.lines.diffs) + old_all);
        } else {
            assert(page_old(c.lines.diffs) =~= page_old(st.lines.diffs) + old_all);
        }
        if page_ok(old, new, ends, st1) {
            lemma_join_step(old, new, ends, st, st1, new_step, old_all);
        }
    }
}

/// What a page records, given operations that take both texts from where
/// they stand: the new and the old text from there to where the operations
/// left stand, at the end of the page's pieces.
pub proof fn lemma_page_pieces(old: Seq<char>, new: Seq<char>, ends: Seq<usize>, st: PageState)
    requires
        page_pre(old, new, ends, st),
    ensures
        page_ok(old, new, ends, st),
    decreases st.ops.len(),
{
    let ops = st.ops;
    if ops.len() == 0 {
        lemma_stop(old, new, ends, st);
    } else {
        let rest = ops.drop_first();
        match ops[0] {
            DiffOp::Delete { old_index, old_len, new_index } => {
                if lines_done(ends, st.lines) {
                    lemma_stop(old, new, ends, st);
                } else if let Ok(l2) = spec_delete(old, old_index, old_len, ops[0], st.lines) {
                    lemma_delete_step(old, new, ends, st, l2);
                    lemma_page_pieces(old, new, ends, PageState { ops: rest, lines: l2 });
                }
            },
            DiffOp::Equal { old_index, new_index, len } => {
                if let Ok(c) = spec_cover(new, ends, true, old_index, new_index, len, st.lines) {
                    assert(Seq::<char>::empty() =~= old.subrange(old_pos(old, ops), old_pos(old, ops)));
                    assert(page_old(st.lines.diffs) + Seq::<char>::empty() =~= page_old(st.lines.diffs));
                    lemma_cover_step(old, new, ends, st, st.lines, true, Seq::empty(), c);
                    if !c.exhausted {
                        lemma_page_pieces(old, new, ends, PageState { ops: rest, lines: c.lines });
                    }
                }
            },
            DiffOp::Insert { old_index, new_index, new_len } => {
                if let Ok(c) = spec_cover(new, ends, false, old_index, new_index, new_len, st.lines) {
                    lemma_left_nonneg(ops);
                    assert(Seq::<char>::empty() =~= old.subrange(old_pos(old, ops), old_pos(old, ops)));
                    assert(page_old(st.lines.diffs) + Seq::<char>::empty() =~= page_old(st.lines.diffs));
                    lemma_cover_step(old, new, ends, st, st.lines, false, Seq::empty(), c);
                    if !c.exhausted {
                        lemma_page_pieces(old, new, ends, PageState { ops: rest, lines: c.lines });
                    }
                }
            },
            DiffOp::Replace { old_index, old_len, new_index, new_len } => {
                if lines_done(ends, st.lines) {
                    lemma_stop(old, new, ends, st);
                } else {
                    let recorded = DiffOp::Delete { old_index, old_len, new_index };
                    if let Ok(l2) = spec_delete(old, old_index, old_len, recorded, st.lines) {
                        let text = old.subrange(old_index as int, old_index + old_len);
                        lemma_rest_pre(old, new, ops);
                        lemma_page_push(st.lines.diffs, st.lines.line, LineDiffView::Delete(text));
                        assert(lines_fresh(ends, l2)) by {
                            assert forall|j: int| l2.line < j < l2.diffs.len() implies (#[trigger] l2.diffs[j]).len()
                                == 0 by {
                                assert(l2.diffs[j] == st.lines.diffs[j]);
                            }
                        }
                        assert(page_new(l2.diffs) =~= page_new(st.lines.diffs));
                        if let Ok(c) = spec_cover(new, ends, false, old_index, new_index, new_len, l2) {
                            lemma_cover_step(old, new, ends, st, l2, false, text, c);
                            if !c.exhausted {
                                lemma_page_pieces(old, new, ends, PageState { ops: rest, lines: c.lines });
                            }
                        }
                    }
                }
            },
        }
    }
}

/// The new text that the pages hold, page after page.
pub open spec fn scroll_new(sts: Seq<PageState>) -> Seq<char>
    decreases sts.len(),
{
    if sts.len() == 0 {
        Seq::empty()
    } else {
        scroll_new(sts.drop_last()) + page_new(sts.last().lines.diffs)
    }
}

/// The old text that the pages hold, page after page.
pub open spec fn scroll_old(sts: Seq<PageState>) -> Seq<char>
    decreases sts.len(),
{
    if sts.len() == 0 {
        Seq::empty()
    } else {
        scroll_old(sts.drop_last()) + page_old(sts.last().lines.diffs)
    }
}

/// When the operations are a diff of the reference text `old` and the OCR
/// text `new`, the pages mapped one after another hold, line after line and
/// page after page, in their equal and inserted pieces the OCR text up to
/// where the operations left stand, and in their equal and deleted pieces
/// the reference text up to there: nothing is lost or repeated at line or page
/// ends.  Once the operations are used up, that is the whole of both texts.
pub proof fn lemma_scroll_pieces(
    old: Seq<char>,
    new: Seq<char>,
    pages: Seq<Vec<BoundingBox<Range<usize>>>>,
    ops: Seq<DiffOp>,
)
    requires
        ops_cover(ops, old, new),
        ops_well_formed(ops),
    ensures
        spec_scroll(old, new, pages, ops) matches Ok(sts) ==> {
            &&& covers_rest(ops_after(ops, sts), old, new)
            &&& ops_well_formed(ops_after(ops, sts))
            &&& scroll_new(sts) == new.subrange(0, new_pos(new, ops_after(ops, sts)))
            &&& scroll_old(sts) == old.subrange(0, old_pos(old, ops_after(ops, sts)))
            &&& ops_after(ops, sts).len() == 0 ==> scroll_new(sts) == new && scroll_old(sts) == old
        },
    decreases pages.len(),
{
    lemma_cover_left(ops, old, new, 0, 0);
    if pages.len() == 0 {
        assert(new.subrange(0, 0) =~= Seq::<char>::empty());
        assert(old.subrange(0, 0) =~= Seq::<char>::empty());
    } else {
        lemma_scroll_pieces(old, new, pages.drop_last(), ops);
        if let Ok(sts) = spec_scroll(old, new, pages.drop_last(), ops) {
            let rest = ops_after(ops, sts);
            let lines = pages.last()@;
            let ends = line_ends(lines);
            let st0 = page_start(rest, lines, Seq::empty());
            lemma_page_empty(lines.len());
            assert(lines_fresh(ends, st0.lines));
            lemma_page_pieces(old, new, ends, st0);
            if let Ok(st) = spec_page(old, new, ends, st0) {
                let sts2 = sts.push(st);
                assert(sts2.drop_last() =~= sts);
                assert(sts2.last() == st);
                assert(ops_after(ops, sts2) == st.ops);
                let n1 = new_pos(new, rest);
                let n2 = new_pos(new, st.ops);
                let o1 = old_pos(old, rest);
                let o2 = old_pos(old, st.ops);
                lemma_left_nonneg(st.ops);
                assert(page_new(st.lines.diffs) =~= new.subrange(n1, n2));
                assert(page_old(st.lines.diffs) =~= old.subrange(o1, o2));
                assert(new.subrange(0, n2) =~= new.subrange(0, n1) + new.subrange(n1, n2));
                assert(old.subrange(0, o2) =~= old.subrange(0, o1) + old.subrange(o1, o2));
                if st.ops.len() == 0 {
                    assert(new.subrange(0, n2) =~= new);
                    assert(old.subrange(0, o2) =~= old);
                }
            }
        }
    }
    if let Ok(sts) = spec_scroll(old, new, pages, ops) {
        if ops_after(ops, sts).len() == 0 && pages.len() == 0 {
            assert(sts.len() == 0);
        }
    }
}

/// How many characters the line ranges cover together.
pub open spec fn lines_len(lines: Seq<BoundingBox<Range<usize>>>) -> int
    decreases lines.len(),
{
    if lines.len() == 0 {
        0
    } else {
        lines_len(lines.drop_last()) + (lines.last().value.end - lines.last().value.start)
    }
}

/// How many characters the line ranges of all pages cover together.
pub open spec fn pages_len(pages: Seq<Vec<BoundingBox<Range<usize>>>>) -> int
    decreases pages.len(),
{
    if pages.len() == 0 {
        0
    } else {
        pages_len(pages.drop_last()) + lines_len(pages.last()@)
    }
}

proof fn lemma_line_new_len(ps: Seq<LineDiffView>)
    ensures
        line_new(ps).len() == new_chars(ps),
    decreases ps.len(),
{
    if ps.len() > 0 {
        lemma_line_new_len(ps.drop_last());
    }
}

/// Full lines hold as many new characters as their ranges cover.
proof fn lemma_page_new_len(ds: Seq<Seq<LineDiffView>>, lines: Seq<BoundingBox<Range<usize>>>)
    requires
        ds.len() == lines.len(),
        forall|l: int| 0 <= l < lines.len() ==> new_chars(#[trigger] ds[l]) == lines[l].value.end - lines[l].value.start,
    ensures
        page_new(ds).len() == lines_len(lines),
    decreases ds.len(),
{
    if ds.len() > 0 {
        let d2 = ds.drop_last();
        let l2 = lines.drop_last();
        assert forall|l: int| 0 <= l < l2.len() implies new_chars(#[trigger] d2[l]) == l2[l].value.end
            - l2[l].value.start by {
            assert(d2[l] == ds[l]);
            assert(l2[l] == lines[l]);
        }
        lemma_page_new_len(d2, l2);
        lemma_line_new_len(ds.last());
        assert(new_chars(ds[ds.len() - 1]) == lines[lines.len() - 1].value.end - lines[lines.len() - 1].value.start);
    }
}

/// While operations are left, the pages mapped so far are full: the new text
/// stands at the end of their line ranges.
proof fn lemma_scroll_full(
    old: Seq<char>,
    new: Seq<char>,
    pages: Seq<Vec<BoundingBox<Range<usize>>>>,
    ops: Seq<DiffOp>,
)
    requires
        ops_cover(ops, old, new),
        ops_well_formed(ops),
        pages_nonempty(pages),
    ensures
        spec_scroll(old, new, pages, ops) matches Ok(sts) ==> (ops_after(ops, sts).len() > 0 ==> new_pos(
            new,
            ops_after(ops, sts),
        ) == pages_len(pages)),
    decreases pages.len(),
{
    lemma_cover_left(ops, old, new, 0, 0);
    if pages.len() > 0 {
        let init = pages.drop_last();
        assert(pages_nonempty(init)) by {
            assert forall|k: int| 0 <= k < init.len() implies lines_nonempty((#[trigger] init[k])@) by {
                assert(init[k] == pages[k]);
            }
        }
        lemma_scroll_full(old, new, init, ops);
        lemma_scroll_pieces(old, new, init, ops);
        if let Ok(sts) = spec_scroll(old, new, init, ops) {
            let rest = ops_after(ops, sts);
            let lines = pages.last()@;
            assert(lines_nonempty(lines));
            let ends = line_ends(lines);
            let st0 = page_start(rest, lines, Seq::empty());
            lemma_page_empty(lines.len());
            assert(lines_fresh(ends, st0.lines));
            lemma_page_pieces(old, new, ends, st0);
            lemma_page_fills_lines(old, new, lines, rest, Seq::empty());
            if let Ok(st) = spec_page(old, new, ends, st0) {
                let sts2 = sts.push(st);
                assert(sts2.drop_last() =~= sts);
                assert(ops_after(ops, sts2) == st.ops);
                if st.ops.len() > 0 {
                    assert(rest.len() > 0);
                    lemma_page_new_len(st.lines.diffs, lines);
                    lemma_left_nonneg(st.ops);
                    assert(page_new(st.lines.diffs) =~= new.subrange(new_pos(new, rest), new_pos(new, st.ops)));
                }
            }
        }
    }
}

proof fn lemma_only_deletions(ops: Seq<DiffOp>)
    requires
        new_left(ops) == 0,
        ops_well_formed(ops),
    ensures
        forall|k: int| 0 <= k < ops.len() ==> (#[trigger] ops[k]) is Delete,
    decreases ops.len(),
{
    if ops.len() > 0 {
        let rest = ops.drop_first();
        assert(ops[0].well_formed());
        lemma_left_nonneg(rest);
        assert(ops_well_formed(rest)) by {
            assert forall|k: int| 0 <= k < rest.len() implies (#[trigger] rest[k]).well_formed() by {
                assert(rest[k] == ops[k + 1]);
            }
        }
        lemma_only_deletions(rest);
        assert forall|k: int| 0 <= k < ops.len() implies (#[trigger] ops[k]) is Delete by {
            if k > 0 {
                assert(ops[k] == rest[k - 1]);
            }
        }
    }
}

/// When the line ranges of the pages cover as many characters as the OCR
/// text has (as [`crate::scroll::ocr_pages`] gives them), mapping a diff of
/// the two texts onto the pages leaves only deletions: the pages' equal and
/// inserted pieces give the whole OCR text back, and their equal and deleted
/// pieces the reference text but for the deletions left at its end.
pub proof fn lemma_tiled_scroll_pieces(
    old: Seq<char>,
    new: Seq<char>,
    pages: Seq<Vec<BoundingBox<Range<usize>>>>,
    ops: Seq<DiffOp>,
)
    requires
        ops_cover(ops, old, new),
        ops_well_formed(ops),
        pages_nonempty(pages),
        pages_len(pages) == new.len(),
    ensures
        spec_scroll(old, new, pages, ops) matches Ok(sts) ==> {
            &&& scroll_new(sts) == new
            &&& forall|k: int| 0 <= k < ops_after(ops, sts).len() ==> (#[trigger] ops_after(ops, sts)[k]) is Delete
            &&& scroll_old(sts) == old.subrange(0, old.len() - old_left(ops_after(ops, sts)))
        },
{
    lemma_scroll_pieces(old, new, pages, ops);
    lemma_scroll_full(old, new, pages, ops);
    if let Ok(sts) = spec_scroll(old, new, pages, ops) {
        let rest = ops_after(ops, sts);
        if rest.len() > 0 {
            assert(new_left(rest) == 0);
            lemma_only_deletions(rest);
            assert(new.subrange(0, new.len() as int) =~= new);
        }
    }
}

/// The new text that the mapped pages hold, page after page.
pub open spec fn mapped_new(v: Seq<PageDiff>) -> Seq<char>
    decreases v.len(),
{
    if v.len() == 0 {
        Seq::empty()
    } else {
        mapped_new(v.drop_last()) + page_new(diffs_view(v.last().lines@))
    }
}

/// The old text that the mapped pages hold, page after page.
pub open spec fn mapped_old(v: Seq<PageDiff>) -> Seq<char>
    decreases v.len(),
{
    if v.len() == 0 {
        Seq::empty()
    } else {
        mapped_old(v.drop_last()) + page_old(diffs_view(v.last().lines@))
    }
}

/// Mapped pages hold the text of the page states they stand for.
pub proof fn lemma_mapped_text(v: Seq<PageDiff>, sts: Seq<PageState>)
    requires
        v.len() == sts.len(),
        forall|k: int| 0 <= k < v.len() ==> diffs_view((#[trigger] v[k]).lines@) == sts[k].lines.diffs,
    ensures
        mapped_new(v) == scroll_new(sts),
        mapped_old(v) == scroll_old(sts),
    decreases v.len(),
{
    if v.len() > 0 {
        let v2 = v.drop_last();
        let s2 = sts.drop_last();
        assert forall|k: int| 0 <= k < v2.len() implies diffs_view((#[trigger] v2[k]).lines@) == s2[k].lines.diffs by {
            assert(v2[k] == v[k]);
            assert(s2[k] == sts[k]);
        }
        lemma_mapped_text(v2, s2);
        assert(diffs_view(v[v.len() - 1].lines@) == sts[sts.len() - 1].lines.diffs);
    }
}

} // verus!
