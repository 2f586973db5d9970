//! Helpers of the training tools: where tesseract lives, wide letters in box
//! files, word lists, checkpoint names and searches in corrected box files.
use vstd::prelude::*;
use vstd::hash_set::StringHashSet;
use vstd::string::*;
use vstd::utf8::*;

use crate::boxes::{BoundingBox, Rect};
use crate::boxfile::{spec_grouping, LINE_TERMINATOR};
use crate::bytes::{append_bytes, contains_bytes, occurs_in, push_char_utf8};
use crate::mam::spec_wide_letter;
use crate::utf8::{lemma_chars_le_bytes, lemma_encode_append, lemma_encode_single};
use crate::words::{first_index_of, piece_ranges, split_on, split_once};

verus! {

broadcast use vstd::string::group_string_axioms;

/// The directory of the tesseract programs, elsewhere than on Windows.
pub fn tess_dir() -> (res: &'static str)
    ensures
        res@ == "/usr/bin"@,
{
    "/usr/bin"
}

/// The directory of the tesseract programs on Windows (`windows`) or
/// elsewhere.
pub fn tess_dir_on(windows: bool) -> (res: &'static str)
    ensures
        windows ==> res@ == "C:\\Program Files\\Tesseract-OCR"@,
        !windows ==> res@ == "/usr/bin"@,
{
    if windows {
        "C:\\Program Files\\Tesseract-OCR"
    } else {
        tess_dir()
    }
}

/// The directory of tesseract's language data on Windows (`windows`) or
/// elsewhere.
pub fn tessdata_dir_on(windows: bool) -> (res: &'static str)
    ensures
        windows ==> res@ == "C:\\Program Files\\Tesseract-OCR\\tessdata"@,
        !windows ==> res@ == "/usr/share/tessdata"@,
{
    if windows {
        "C:\\Program Files\\Tesseract-OCR\\tessdata"
    } else {
        tessdata_dir()
    }
}

/// The directory of tesseract's language data, elsewhere than on Windows.
pub fn tessdata_dir() -> (res: &'static str)
    ensures
        res@ == "/usr/share/tessdata"@,
{
    "/usr/share/tessdata"
}

/// The plain Hebrew letter of a wide presentation form, for the eight wide
/// letters.
pub open spec fn spec_narrow_letter(c: char) -> Option<char> {
    if c == 'ﬡ' {
        Some('א')
    } else if c == 'ﬢ' {
        Some('ד')
    } else if c == 'ﬣ' {
        Some('ה')
    } else if c == 'ﬤ' {
        Some('כ')
    } else if c == 'ﬥ' {
        Some('ל')
    } else if c == 'ﬦ' {
        Some('ס')
    } else if c == 'ﬧ' {
        Some('ר')
    } else if c == 'ﬨ' {
        Some('ת')
    } else {
        None
    }
}

/// The plain Hebrew letter of a wide presentation form, for the eight wide
/// letters.
pub fn narrow_letter(c: char) -> (res: Option<char>)
    ensures
        res == spec_narrow_letter(c),
{
    if c == 'ﬡ' {
        Some('א')
    } else if c == 'ﬢ' {
        Some('ד')
    } else if c == 'ﬣ' {
        Some('ה')
    } else if c == 'ﬤ' {
        Some('כ')
    } else if c == 'ﬥ' {
        Some('ל')
    } else if c == 'ﬦ' {
        Some('ס')
    } else if c == 'ﬧ' {
        Some('ר')
    } else if c == 'ﬨ' {
        Some('ת')
    } else {
        None
    }
}

/// Widening a letter and narrowing it again gives the letter back, and the
/// wide forms are exactly the letters that narrow.
pub proof fn lemma_narrow_wide(c: char, w: char)
    ensures
        spec_wide_letter(c) == Some(w) <==> spec_narrow_letter(w) == Some(c),
{
}

/// The character written to a box file for a rendered character: wide
/// letters stand for their plain letter when the text is the wide one.
pub open spec fn spec_box_char(c: char, is_wide: bool) -> char {
    if is_wide && spec_narrow_letter(c) is Some {
        spec_narrow_letter(c)->0
    } else {
        c
    }
}

/// The character written to a box file for a rendered character: wide
/// letters stand for their plain letter when the text is the wide one.
pub fn box_char(c: char, is_wide: bool) -> (res: char)
    ensures
        res == spec_box_char(c, is_wide),
{
    if is_wide {
        match narrow_letter(c) {
            Some(n) => n,
            None => c,
        }
    } else {
        c
    }
}

/// A line of a box file with its first character narrowed, if it is a wide
/// letter.
pub open spec fn spec_narrow_line(line: Seq<char>) -> Seq<char> {
    if line.len() > 0 && spec_narrow_letter(line[0]) is Some {
        seq![spec_narrow_letter(line[0])->0] + line.drop_first()
    } else {
        line
    }
}

/// The UTF-8 bytes of a box-file line whose first character, if it is a wide
/// letter, is replaced by its plain letter.
pub fn narrow_box_line(line: &str) -> (res: Vec<u8>)
    ensures
        res@ == encode_utf8(spec_narrow_line(line@)),
{
    let mut out: Vec<u8> = Vec::new();
    let n = line.unicode_len();
    if n > 0 {
        let c = line.get_char(0);
        if let Some(narrow) = narrow_letter(c) {
            push_char_utf8(&mut out, narrow);
            let rest = line.substring_char(1, n);
            append_bytes(&mut out, rest.as_bytes());
            proof {
                assert(rest@ =~= line@.drop_first());
                lemma_encode_single(narrow);
                lemma_encode_append(seq![narrow], line@.drop_first());
            }
            return out;
        }
    }
    append_bytes(&mut out, line.as_bytes());
    out
}

/// The training error in the name of a checkpoint file,
/// `<model>_<error>_<learning iteration>_<training iteration>`: the second of
/// exactly four pieces separated by `_`.
pub fn checkpoint_error<'a>(stem: &'a str) -> (res: Option<&'a str>)
    ensures
        split_on(stem@, '_').len() == 4 ==> (res matches Some(e) && e@ == split_on(stem@, '_')[1]),
        split_on(stem@, '_').len() != 4 ==> res is None,
{
    let ranges = piece_ranges(stem, '_');
    if ranges.len() != 4 {
        return None;
    }
    let (a, b) = ranges[1];
    Some(stem.substring_char(a, b))
}

/// Whether `w` is one of `ws`.
pub open spec fn has_word(ws: Seq<String>, w: Seq<char>) -> bool {
    exists|k: int| 0 <= k < ws.len() && #[trigger] ws[k]@ == w
}

/// The distinct words of `text`, the pieces between single spaces, each once,
/// in the order in which they first occur.
pub fn unique_words(text: &str) -> (res: Vec<String>)
    ensures
        forall|i: int| 0 <= i < split_on(text@, ' ').len() ==> has_word(res@, #[trigger] split_on(text@, ' ')[i]),
        forall|k: int|
            0 <= k < res@.len() ==> exists|i: int|
                0 <= i < split_on(text@, ' ').len() && #[trigger] split_on(text@, ' ')[i] == (#[trigger] res@[k])@,
        forall|k: int, l: int| 0 <= k < l < res@.len() ==> (#[trigger] res@[k])@ != (#[trigger] res@[l])@,
{
    let ghost words = split_on(text@, ' ');
    let ranges = piece_ranges(text, ' ');
    let mut seen = StringHashSet::new();
    let mut out: Vec<String> = Vec::new();
    let mut i: usize = 0;
    while i < ranges.len()
        invariant
            i <= ranges.len(),
            ranges@.len() == words.len(),
            words == split_on(text@, ' '),
            forall|j: int|
                0 <= j < ranges@.len() ==> (#[trigger] ranges@[j]).0 <= ranges@[j].1 <= text@.len()
                    && text@.subrange(ranges@[j].0 as int, ranges@[j].1 as int) == words[j],
            forall|w: Seq<char>| seen@.contains(w) <==> has_word(out@, w),
            forall|j: int| 0 <= j < i ==> has_word(out@, #[trigger] words[j]),
            forall|k: int| 0 <= k < out@.len() ==> exists|j: int| 0 <= j < i && #[trigger] words[j] == (#[trigger] out@[k])@,
            forall|k: int, l: int| 0 <= k < l < out@.len() ==> (#[trigger] out@[k])@ != (#[trigger] out@[l])@,
        decreases ranges.len() - i,
    {
        let (a, b) = ranges[i];
        let word = text.substring_char(a, b);
        assert(word@ == words[i as int]);
        if !seen.contains(word) {
            let ghost before = out@;
            seen.insert(word.to_owned());
            out.push(word.to_owned());
            assert(out@.last()@ == words[i as int]);
            assert forall|w: Seq<char>| seen@.contains(w) <==> has_word(out@, w) by {
                if has_word(before, w) {
                    let k = choose|k: int| 0 <= k < before.len() && #[trigger] before[k]@ == w;
                    assert(out@[k] == before[k]);
                }
                if has_word(out@, w) && w != words[i as int] {
                    let k = choose|k: int| 0 <= k < out@.len() && #[trigger] out@[k]@ == w;
                    assert(before[k] == out@[k]);
                }
                if w == words[i as int] {
                    assert(out@[before.len() as int]@ == w);
                }
            }
            assert forall|j: int| 0 <= j <= i implies has_word(out@, #[trigger] words[j]) by {
                if j < i {
                    let k = choose|k: int| 0 <= k < before.len() && #[trigger] before[k]@ == words[j];
                    assert(out@[k] == before[k]);
                } else {
                    assert(out@[before.len() as int]@ == words[j]);
                }
            }
            assert forall|k: int| 0 <= k < out@.len() implies exists|j: int| 0 <= j < i + 1 && #[trigger] words[j] == (#[trigger] out@[k])@ by {
                if k < before.len() {
                    assert(out@[k] == before[k]);
                    let j = choose|j: int| 0 <= j < i && #[trigger] words[j] == before[k]@;
                    assert(words[j] == out@[k]@);
                } else {
                    assert(words[i as int] == out@[k]@);
                }
            }
            assert forall|k: int, l: int| 0 <= k < l < out@.len() implies (#[trigger] out@[k])@ != (#[trigger] out@[l])@ by {
                if l < before.len() {
                    assert(out@[k] == before[k]);
                    assert(out@[l] == before[l]);
                } else {
                    assert(out@[k] == before[k]);
                    assert(!has_word(before, words[i as int]));
                }
            }
        }
        i = i + 1;
    }
    out
}

/// Where a search through the character boxes of a box file stands: the
/// numbers of the lines found so far, the number of the last line begun, the
/// characters of the line being read, and the index of a line terminator
/// that closed no line, which ends the search.
pub struct TermScan {
    pub found: Seq<usize>,
    pub line_no: int,
    pub line: Option<Seq<char>>,
    pub empty_at: Option<int>,
}

/// The search for `term` (as UTF-8 bytes) through the character boxes `boxes`:
/// boxes up to a tab make a line, and each line that holds the term is
/// found under its number.  Numbering starts at 1 before the first line, so
/// the first line is number 2.
pub open spec fn spec_term_scan(boxes: Seq<BoundingBox<char>>, term: Seq<u8>) -> TermScan
    decreases boxes.len(),
{
    if boxes.len() == 0 {
        TermScan { found: Seq::empty(), line_no: 1, line: None, empty_at: None }
    } else {
        let st = spec_term_scan(boxes.drop_last(), term);
        let c = boxes.last().value;
        if st.empty_at is Some {
            st
        } else if c == '\t' {
            match st.line {
                None => TermScan { empty_at: Some(boxes.len() - 1), ..st },
                Some(l) => TermScan {
                    found: if occurs_in(encode_utf8(l), term) {
                        st.found.push(st.line_no as usize)
                    } else {
                        st.found
                    },
                    line: None,
                    ..st
                },
            }
        } else {
            match st.line {
                Some(l) => TermScan { line: Some(l.push(c)), ..st },
                None => TermScan { line_no: st.line_no + 1, line: Some(seq![c]), ..st },
            }
        }
    }
}

/// What a search for a term in a box file found.
pub struct TermLines {
    /// The numbers of the lines that hold the term, in order.
    pub found: Vec<usize>,
    /// The index of a line terminator that closed no line, where the search
    /// stopped.
    pub empty_line_at: Option<usize>,
}

/// Searches the character boxes of a box file for `term`, line by line.  A
/// line ends at a tab box; one that is not ended is not searched.  A tab that
/// ends no line stops the search.
#[verifier::loop_isolation(false)]
pub fn term_lines(boxes: &[BoundingBox<char>], term: &str) -> (res: TermLines)
    requires
        boxes@.len() < usize::MAX,
    ensures
        res.found@ == spec_term_scan(boxes@, encode_utf8(term@)).found,
        res.empty_line_at matches Some(i) ==> spec_term_scan(boxes@, encode_utf8(term@)).empty_at == Some(i as int),
        res.empty_line_at is None ==> spec_term_scan(boxes@, encode_utf8(term@)).empty_at is None,
{
    let ghost t = encode_utf8(term@);
    let needle = term.as_bytes();
    let mut found: Vec<usize> = Vec::new();
    let mut line_no: usize = 1;
    let mut line: Vec<u8> = Vec::new();
    let mut in_line = false;
    let ghost mut chars: Seq<char> = Seq::empty();
    let mut i: usize = 0;
    while i < boxes.len()
        invariant
            i <= boxes.len(),
            needle@ == t,
            1 <= line_no <= i + 1,
            ({
                let st = spec_term_scan(boxes@.take(i as int), t);
                &&& st.empty_at is None
                &&& st.found == found@
                &&& st.line_no == line_no
                &&& in_line ==> st.line == Some(chars)
                &&& !in_line ==> st.line is None
            }),
            line@ == encode_utf8(chars),
            !in_line ==> chars == Seq::<char>::empty(),
        decreases boxes.len() - i,
    {
        let ghost prefix = boxes@.take(i as int);
        assert(boxes@.take(i + 1).drop_last() =~= prefix);
        let c = boxes[i].value;
        if c == '\t' {
            if !in_line {
                proof {
                    lemma_scan_stopped(boxes@, t, i + 1);
                }
                return TermLines { found, empty_line_at: Some(i) };
            }
            if contains_bytes(line.as_slice(), needle) {
                found.push(line_no);
            }
            line = Vec::new();
            in_line = false;
            proof {
                chars = Seq::empty();
                assert(encode_utf8(chars) =~= Seq::<u8>::empty());
            }
        } else {
            if !in_line {
                line_no = line_no + 1;
                in_line = true;
                proof {
                    chars = Seq::empty();
                }
            }
            push_char_utf8(&mut line, c);
            proof {
                lemma_encode_single(c);
                lemma_encode_append(chars, seq![c]);
                assert(chars + seq![c] =~= chars.push(c));
                chars = chars.push(c);
            }
        }
        i = i + 1;
    }
    proof {
        assert(boxes@.take(i as int) =~= boxes@);
    }
    TermLines { found, empty_line_at: None }
}

/// Once a search has stopped, the boxes after that change nothing.
proof fn lemma_scan_stopped(boxes: Seq<BoundingBox<char>>, term: Seq<u8>, k: int)
    requires
        0 <= k <= boxes.len(),
        spec_term_scan(boxes.take(k), term).empty_at is Some,
    ensures
        spec_term_scan(boxes, term) == spec_term_scan(boxes.take(k), term),
    decreases boxes.len() - k,
{
    if k < boxes.len() {
        assert(boxes.take(k + 1).drop_last() =~= boxes.take(k));
        lemma_scan_stopped(boxes, term, k + 1);
    } else {
        assert(boxes.take(k) =~= boxes);
    }
}

/// The book and the page of a box file's stem `<book>_<page>`: what stands
/// before and after its first `_`.
pub fn book_and_page<'a>(stem: &'a str) -> (res: Option<(&'a str, &'a str)>)
    ensures
        match first_index_of(stem@, '_') {
            Some(t) => res matches Some((book, page)) && book@ == stem@.take(t) && page@ == stem@.skip(t + 1),
            None => res is None,
        },
{
    split_once(stem, '_')
}

/// The numbers of the lines that hold `term` (as UTF-8 bytes), the first
/// line being number 2.
pub open spec fn numbered_matches(lines: Seq<BoundingBox<Seq<char>>>, term: Seq<u8>) -> Seq<usize>
    decreases lines.len(),
{
    if lines.len() == 0 {
        Seq::empty()
    } else {
        let prev = numbered_matches(lines.drop_last(), term);
        if occurs_in(encode_utf8(lines.last().value), term) {
            prev.push((lines.len() + 1) as usize)
        } else {
            prev
        }
    }
}

/// The search for a term reads the character boxes into the same lines as
/// [`crate::boxfile::group_lines`] does: it stops at the same tab, and it
/// finds exactly the closed lines that hold the term, each under its place
/// among them plus two.
pub proof fn lemma_term_lines_grouped(boxes: Seq<BoundingBox<char>>, term: Seq<u8>)
    ensures
        ({
            let s = spec_term_scan(boxes, term);
            let g = spec_grouping(boxes);
            &&& s.empty_at == g.empty_at
            &&& s.found == numbered_matches(g.lines, term)
            &&& match g.current {
                None => s.line is None,
                Some(l) => s.line == Some(l.value),
            }
            &&& s.line_no == g.lines.len() + 1 + if g.current is Some {
                1int
            } else {
                0int
            }
        }),
    decreases boxes.len(),
{
    if boxes.len() > 0 {
        lemma_term_lines_grouped(boxes.drop_last(), term);
        let g = spec_grouping(boxes.drop_last());
        if g.empty_at is None && boxes.last().value == '\t' {
            if let Some(l) = g.current {
                assert(g.lines.push(l).drop_last() =~= g.lines);
            }
        }
    }
}

/// The character boxes of a rendered line of text, all with the line's
/// rectangle and page: a line terminator first when the line follows another
/// on the page, then one box per character.
pub fn line_char_boxes(line: &str, rect: Rect, page: usize, is_wide: bool, after_line: bool) -> (res: Vec<
    BoundingBox<char>,
>)
    ensures
        ({
            let off: int = if after_line {
                1
            } else {
                0
            };
            &&& res@.len() == off + line@.len()
            &&& after_line ==> res@[0].value == LINE_TERMINATOR
            &&& forall|i: int| 0 <= i < line@.len() ==> (#[trigger] res@[off + i]).value == spec_box_char(line@[i], is_wide)
            &&& forall|i: int| 0 <= i < res@.len() ==> (#[trigger] res@[i]).rect == rect && res@[i].page == page
        }),
{
    let mut out: Vec<BoundingBox<char>> = Vec::new();
    if after_line {
        out.push(BoundingBox { value: LINE_TERMINATOR, rect, page });
    }
    let ghost off: int = if after_line {
        1
    } else {
        0
    };
    let total = line.as_bytes().len();
    proof {
        lemma_chars_le_bytes(line@);
    }
    let mut idx: usize = 0;
    for c in it: line.chars()
        invariant
            it.seq() == line@,
            idx == it.index(),
            idx <= line@.len(),
            line@.len() <= total,
            out@.len() == off + idx,
            after_line ==> (out@.len() > 0 && out@[0].value == LINE_TERMINATOR),
            off == (if after_line {
                1int
            } else {
                0int
            }),
            forall|i: int| 0 <= i < idx ==> (#[trigger] out@[off + i]).value == spec_box_char(line@[i], is_wide),
            forall|i: int| 0 <= i < out@.len() ==> (#[trigger] out@[i]).rect == rect && out@[i].page == page,
    {
        let ghost before = out@;
        out.push(BoundingBox { value: box_char(c, is_wide), rect, page });
        assert(out@[off + idx] == BoundingBox { value: spec_box_char(line@[idx as int], is_wide), rect, page });
        assert forall|i: int| 0 <= i < idx + 1 implies (#[trigger] out@[off + i]).value == spec_box_char(line@[i], is_wide) by {
            if i < idx {
                assert(out@[off + i] == before[off + i]);
            }
        }
        idx = idx + 1;
    }
    out
}

} // verus!
