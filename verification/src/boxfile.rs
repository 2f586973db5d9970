//! Box files, one character box per line in tesseract's format
//! `<char> <left> <bottom> <right> <top> <page>`, and the line boxes they
//! make: the characters up to a tab box, with the place of the first.
use vstd::prelude::*;
use vstd::string::*;

use crate::boxes::{BoundingBox, Rect};
use crate::numbers::{
    decimal, lemma_signed_no_space, lemma_signed_read_back, parse_i32, parse_usize, push_decimal, push_signed,
    signed_decimal, spec_i32, spec_usize,
};
use crate::words::{char_string, lemma_split_join, lemma_split_single, piece_ranges, split_on};

verus! {

broadcast use vstd::string::group_string_axioms;

/// The character of the box that ends a line.
pub const LINE_TERMINATOR: char = '\t';

/// The character box that a line of a box file describes: its character,
/// a space, and the left, bottom, right and top coordinates and the page,
/// separated by single spaces.
pub open spec fn spec_char_box(line: Seq<char>) -> Option<BoundingBox<char>> {
    if line.len() >= 2 && line[1] == ' ' {
        let f = split_on(line.skip(2), ' ');
        if f.len() == 5 && spec_i32(f[0]) is Some && spec_i32(f[1]) is Some && spec_i32(f[2]) is Some && spec_i32(
            f[3],
        ) is Some && spec_usize(f[4]) is Some {
            Some(
                BoundingBox {
                    value: line[0],
                    rect: Rect {
                        left: spec_i32(f[0])->0,
                        bottom: spec_i32(f[1])->0,
                        right: spec_i32(f[2])->0,
                        top: spec_i32(f[3])->0,
                    },
                    page: spec_usize(f[4])->0,
                },
            )
        } else {
            None
        }
    } else {
        None
    }
}

/// Reads a line of a box file as a character box.
pub fn parse_char_box(line: &str) -> (res: Option<BoundingBox<char>>)
    ensures
        match spec_char_box(line@) {
            Some(b) => res matches Some(r) && r.value == b.value && r.rect == b.rect && r.page == b.page,
            None => res is None,
        },
{
    let n = line.unicode_len();
    if n < 2 || line.get_char(1) != ' ' {
        return None;
    }
    let value = line.get_char(0);
    let rest = line.substring_char(2, n);
    assert(rest@ =~= line@.skip(2));
    let ranges = piece_ranges(rest, ' ');
    if ranges.len() != 5 {
        return None;
    }
    let left = parse_i32(rest.substring_char(ranges[0].0, ranges[0].1));
    let bottom = parse_i32(rest.substring_char(ranges[1].0, ranges[1].1));
    let right = parse_i32(rest.substring_char(ranges[2].0, ranges[2].1));
    let top = parse_i32(rest.substring_char(ranges[3].0, ranges[3].1));
    let page = parse_usize(rest.substring_char(ranges[4].0, ranges[4].1));
    match (left, bottom, right, top, page) {
        (Some(left), Some(bottom), Some(right), Some(top), Some(page)) => Some(
            BoundingBox { value, rect: Rect { left, bottom, right, top }, page },
        ),
        _ => None,
    }
}

/// Where the grouping of character boxes into lines stands: the lines
/// closed so far, the line being read, and the index of a tab that closed
/// no line, which ends the grouping.
pub struct Grouping {
    pub lines: Seq<BoundingBox<Seq<char>>>,
    pub current: Option<BoundingBox<Seq<char>>>,
    pub empty_at: Option<int>,
}

/// The grouping of character boxes into line boxes: a line takes the
/// characters up to a tab box, and the rectangle and page of its first
/// character.
pub open spec fn spec_grouping(chars: Seq<BoundingBox<char>>) -> Grouping
    decreases chars.len(),
{
    if chars.len() == 0 {
        Grouping { lines: Seq::empty(), current: None, empty_at: None }
    } else {
        let g = spec_grouping(chars.drop_last());
        let bx = chars.last();
        if g.empty_at is Some {
            g
        } else if bx.value == LINE_TERMINATOR {
            match g.current {
                None => Grouping { empty_at: Some(chars.len() - 1), ..g },
                Some(l) => Grouping { lines: g.lines.push(l), current: None, ..g },
            }
        } else {
            match g.current {
                Some(l) => Grouping { current: Some(BoundingBox { value: l.value.push(bx.value), ..l }), ..g },
                None => Grouping {
                    current: Some(BoundingBox { value: seq![bx.value], rect: bx.rect, page: bx.page }),
                    ..g
                },
            }
        }
    }
}

proof fn lemma_grouping_stopped(chars: Seq<BoundingBox<char>>, k: int)
    requires
        0 <= k <= chars.len(),
        spec_grouping(chars.take(k)).empty_at is Some,
    ensures
        spec_grouping(chars) == spec_grouping(chars.take(k)),
    decreases chars.len() - k,
{
    if k < chars.len() {
        assert(chars.take(k + 1).drop_last() =~= chars.take(k));
        lemma_grouping_stopped(chars, k + 1);
    } else {
        assert(chars.take(k) =~= chars);
    }
}

/// The line boxes of the character boxes of a box file: each line holds the
/// characters up to a tab box, with the rectangle and page of its first
/// character; characters after the last tab make no line.  A tab that ends
/// no line is an error, reported by its index.
pub fn group_lines(chars: &[BoundingBox<char>]) -> (res: Result<Vec<BoundingBox<String>>, usize>)
    ensures
        match spec_grouping(chars@).empty_at {
            Some(i) => res == Err::<Vec<BoundingBox<String>>, usize>(i as usize),
            None => res matches Ok(v) && v@.len() == spec_grouping(chars@).lines.len() && forall|k: int|
                0 <= k < v@.len() ==> (#[trigger] v@[k]).value@ == spec_grouping(chars@).lines[k].value && v@[k].rect
                    == spec_grouping(chars@).lines[k].rect && v@[k].page == spec_grouping(chars@).lines[k].page,
        },
{
    let mut lines: Vec<BoundingBox<String>> = Vec::new();
    let mut current: Option<BoundingBox<String>> = None;
    let mut i: usize = 0;
    while i < chars.len()
        invariant
            i <= chars.len(),
            ({
                let g = spec_grouping(chars@.take(i as int));
                &&& g.empty_at is None
                &&& lines@.len() == g.lines.len()
                &&& forall|k: int|
                    0 <= k < lines@.len() ==> (#[trigger] lines@[k]).value@ == g.lines[k].value && lines@[k].rect
                        == g.lines[k].rect && lines@[k].page == g.lines[k].page
                &&& match current {
                    None => g.current is None,
                    Some(c) => g.current matches Some(l) && c.value@ == l.value && c.rect == l.rect && c.page
                        == l.page,
                }
            }),
        decreases chars.len() - i,
    {
        assert(chars@.take(i + 1).drop_last() =~= chars@.take(i as int));
        let bx = &chars[i];
        if bx.value == LINE_TERMINATOR {
            match current {
                None => {
                    proof {
                        lemma_grouping_stopped(chars@, i + 1);
                    }
                    return Err(i);
                },
                Some(line) => {
                    lines.push(line);
                    current = None;
                },
            }
        } else {
            match current {
                Some(mut line) => {
                    let s = char_string(bx.value);
                    line.value.append(s.as_str());
                    current = Some(line);
                },
                None => {
                    current = Some(bx.with_value(char_string(bx.value)));
                },
            }
        }
        i = i + 1;
    }
    assert(chars@.take(i as int) =~= chars@);
    Ok(lines)
}

/// The line of a box file that describes a character box.
pub open spec fn char_box_text(bx: BoundingBox<char>) -> Seq<char> {
    seq![bx.value, ' '] + signed_decimal(bx.rect.left as int) + seq![' '] + signed_decimal(bx.rect.bottom as int)
        + seq![' '] + signed_decimal(bx.rect.right as int) + seq![' '] + signed_decimal(bx.rect.top as int) + seq![
        ' ',
    ] + decimal(bx.page as nat)
}

/// The line of a box file that describes `bx`.
pub fn format_char_box(bx: &BoundingBox<char>) -> (res: String)
    ensures
        res@ == char_box_text(*bx),
{
    let mut out = char_string(bx.value);
    out.append(" ");
    push_signed(&mut out, bx.rect.left);
    out.append(" ");
    push_signed(&mut out, bx.rect.bottom);
    out.append(" ");
    push_signed(&mut out, bx.rect.right);
    out.append(" ");
    push_signed(&mut out, bx.rect.top);
    out.append(" ");
    push_decimal(&mut out, bx.page);
    proof {
        reveal_strlit(" ");
        assert(out@ =~= char_box_text(*bx));
    }
    out
}

/// Reading the line written for a character box gives the box back.
#[verifier::rlimit(40)]
pub proof fn lemma_char_box_read_back(bx: BoundingBox<char>)
    ensures
        spec_char_box(char_box_text(bx)) == Some(bx),
{
    let l = signed_decimal(bx.rect.left as int);
    let b = signed_decimal(bx.rect.bottom as int);
    let r = signed_decimal(bx.rect.right as int);
    let t = signed_decimal(bx.rect.top as int);
    let p = signed_decimal(bx.page as int);
    assert(decimal(bx.page as nat) == p);
    let line = char_box_text(bx);
    let sp = seq![' '];
    let rest3 = t + sp + p;
    let rest2 = r + sp + rest3;
    let rest1 = b + sp + rest2;
    assert(line.skip(2) =~= l + sp + rest1);
    lemma_split_join(l, rest1, ' ');
    lemma_split_join(b, rest2, ' ');
    lemma_split_join(r, rest3, ' ');
    lemma_split_join(t, p, ' ');
    lemma_signed_no_space(bx.rect.left as int);
    lemma_signed_no_space(bx.rect.bottom as int);
    lemma_signed_no_space(bx.rect.right as int);
    lemma_signed_no_space(bx.rect.top as int);
    lemma_signed_no_space(bx.page as int);
    lemma_split_single(l, ' ');
    lemma_split_single(b, ' ');
    lemma_split_single(r, ' ');
    lemma_split_single(t, ' ');
    lemma_split_single(p, ' ');
    let f = split_on(line.skip(2), ' ');
    assert(f =~= seq![l, b, r, t, p]);
    lemma_signed_read_back(bx.rect.left as int);
    lemma_signed_read_back(bx.rect.bottom as int);
    lemma_signed_read_back(bx.rect.right as int);
    lemma_signed_read_back(bx.rect.top as int);
    lemma_signed_read_back(bx.page as int);
    assert(line[1] == ' ');
}

/// The lines of a normalized box file: each line read as a character box and
/// written again, without the boxes of line breaks; or the index of the first
/// line that is not a character box.
pub open spec fn spec_normalized(lines: Seq<String>) -> Result<Seq<Seq<char>>, int>
    decreases lines.len(),
{
    if lines.len() == 0 {
        Ok(Seq::empty())
    } else {
        match spec_normalized(lines.drop_last()) {
            Err(i) => Err(i),
            Ok(out) => match spec_char_box(lines.last()@) {
                None => Err(lines.len() - 1),
                Some(bx) => if bx.value == '\n' {
                    Ok(out)
                } else {
                    Ok(out.push(char_box_text(bx)))
                },
            },
        }
    }
}

proof fn lemma_normalized_failed(lines: Seq<String>, k: int)
    requires
        0 < k <= lines.len(),
        spec_normalized(lines.take(k)) is Err,
    ensures
        spec_normalized(lines) == spec_normalized(lines.take(k)),
    decreases lines.len() - k,
{
    if k < lines.len() {
        assert(lines.take(k + 1).drop_last() =~= lines.take(k));
        lemma_normalized_failed(lines, k + 1);
    } else {
        assert(lines.take(k) =~= lines);
    }
}

/// Normalizes the lines of a box file: reads each as a character box and
/// writes it again, leaving out the boxes of line breaks.  A line that is not
/// a character box is an error, reported by its index.
pub fn normalize_box_lines(lines: &[String]) -> (res: Result<Vec<String>, usize>)
    ensures
        match spec_normalized(lines@) {
            Err(i) => res == Err::<Vec<String>, usize>(i as usize),
            Ok(out) => res matches Ok(v) && v@.len() == out.len() && forall|k: int|
                0 <= k < out.len() ==> (#[trigger] v@[k])@ == out[k],
        },
{
    let mut out: Vec<String> = Vec::new();
    let mut i: usize = 0;
    proof {
        assert(lines@.take(0) =~= Seq::<String>::empty());
    }
    while i < lines.len()
        invariant
            i <= lines.len(),
            spec_normalized(lines@.take(i as int)) matches Ok(o) && out@.len() == o.len() && forall|k: int|
                0 <= k < o.len() ==> (#[trigger] out@[k])@ == o[k],
        decreases lines.len() - i,
    {
        let ghost next = lines@.take(i + 1);
        assert(next.drop_last() =~= lines@.take(i as int));
        assert(next.last() == lines@[i as int]);
        match parse_char_box(lines[i].as_str()) {
            None => {
                proof {
                    lemma_normalized_failed(lines@, i + 1);
                }
                return Err(i);
            },
            Some(bx) => {
                if bx.value != '\n' {
                    let ghost before = out@;
                    out.push(format_char_box(&bx));
                    assert forall|k: int| 0 <= k < out@.len() - 1 implies (#[trigger] out@[k]) == before[k] by {}
                }
            },
        }
        i = i + 1;
    }
    assert(lines@.take(i as int) =~= lines@);
    Ok(out)
}

} // verus!
