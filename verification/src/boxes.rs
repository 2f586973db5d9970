//! Bounding boxes of recognized text, and the checks of corrected box files.
use vstd::prelude::*;
use vstd::string::*;
use vstd::utf8::*;

use crate::bytes::{contains_bytes, occurs_in};
use crate::numbers::{decimal, push_decimal, push_signed, signed_decimal};
use crate::words::{piece_ranges, split_on, str_eq};
use crate::utf8::{byte_index_of_char, lemma_chars_le_bytes, lemma_encode_split, lemma_subrange_bytes_le};

verus! {

/// A rectangle in image coordinates with the origin at the bottom left.
#[derive(Clone, Copy, PartialEq, Eq, Structural, Debug)]
pub struct Rect {
    pub left: i32,
    pub bottom: i32,
    pub right: i32,
    pub top: i32,
}

/// A value (a character, a line of text, a diff) with the rectangle and page
/// where it was found.
#[derive(Debug)]
pub struct BoundingBox<T> {
    pub value: T,
    pub rect: Rect,
    pub page: usize,
}

impl<T> BoundingBox<T> {
    /// The same place with another value.
    pub fn with_value<U>(&self, value: U) -> (res: BoundingBox<U>)
        ensures
            res.value == value,
            res.rect == self.rect,
            res.page == self.page,
    {
        BoundingBox { value, rect: self.rect, page: self.page }
    }
}

broadcast use vstd::string::group_string_axioms;

/// The least width and height, in pixels, of a line box.
pub const MIN_WIDTH: i32 = 3;

/// What is wrong with a line of a corrected box file.
#[derive(Debug, PartialEq, Eq)]
pub enum BoxError {
    /// The line could not be read or parsed.
    Parse(String),
    LineTooSmall { width: i32, height: i32 },
    EmptyLine,
    /// A word of fewer than two letters (other than the word "ה").
    WordTooShort { page: usize, word: String, len: usize, line: String },
    /// A character that is not a Hebrew consonant.
    InvalidChar(char),
    /// The text of the page, which is not part of the training text.
    TextNotFound(String),
}

/// The view of a [`BoxError`], with its texts as characters.
pub enum BoxErrorView {
    Parse(Seq<char>),
    LineTooSmall { width: i32, height: i32 },
    EmptyLine,
    WordTooShort { page: usize, word: Seq<char>, len: usize, line: Seq<char> },
    InvalidChar(char),
    TextNotFound(Seq<char>),
}

impl View for BoxError {
    type V = BoxErrorView;

    open spec fn view(&self) -> BoxErrorView {
        match self {
            BoxError::Parse(s) => BoxErrorView::Parse(s@),
            BoxError::LineTooSmall { width, height } => BoxErrorView::LineTooSmall { width: *width, height: *height },
            BoxError::EmptyLine => BoxErrorView::EmptyLine,
            BoxError::WordTooShort { page, word, len, line } => BoxErrorView::WordTooShort {
                page: *page,
                word: word@,
                len: *len,
                line: line@,
            },
            BoxError::InvalidChar(c) => BoxErrorView::InvalidChar(*c),
            BoxError::TextNotFound(s) => BoxErrorView::TextNotFound(s@),
        }
    }
}

/// A box-file error at a line (`row`) and column (`col`), both counted from zero.
#[derive(Debug, PartialEq, Eq)]
pub struct LocatedError {
    pub row: usize,
    pub col: usize,
    pub err: BoxError,
}

impl LocatedError {
    pub fn new(row: usize, col: usize, err: BoxError) -> (res: Self)
        ensures
            res.row == row,
            res.col == col,
            res.err == err,
    {
        LocatedError { row, col, err }
    }
}

/// A located error in the file at `path`.
#[derive(Debug)]
pub struct FiledError {
    pub path: String,
    pub err: LocatedError,
}

impl FiledError {
    pub fn new(path: String, err: LocatedError) -> (res: Self)
        ensures
            res.path == path,
            res.err == err,
    {
        FiledError { path, err }
    }
}

/// A Hebrew consonant, alef to tav.
pub open spec fn is_consonant(c: char) -> bool {
    'א' <= c <= 'ת'
}

/// The index of the first character of `w` that is not a consonant, if any.
pub open spec fn first_non_consonant(w: Seq<char>) -> Option<int> {
    if exists|j: int| 0 <= j < w.len() && !is_consonant(w[j]) {
        Some(choose|j: int| 0 <= j < w.len() && !is_consonant(w[j]) && forall|k: int| 0 <= k < j ==> is_consonant(w[k]))
    } else {
        None
    }
}

/// The result of checking the word `w` at column `col`: the column and the
/// kind of the first error, if any.
pub open spec fn spec_check_word(w: Seq<char>, col: int) -> Option<(int, int)> {
    if w.len() < 2 && w != "ה"@ {
        Some((col, 0))
    } else {
        match first_non_consonant(w) {
            Some(j) => Some((col + encode_utf8(w.take(j)).len(), 1)),
            None => None,
        }
    }
}

/// The first error of the words `ws` starting at column `col`: its word, column
/// and kind (0 for a short word, 1 for an invalid character).
pub open spec fn spec_check_words(ws: Seq<Seq<char>>, col: int) -> Option<(int, int, int)>
    decreases ws.len(),
{
    if ws.len() == 0 {
        None
    } else {
        match spec_check_word(ws[0], col) {
            Some((c, kind)) => Some((0, c, kind)),
            None => match spec_check_words(ws.drop_first(), col + ws[0].len()) {
                Some((i, c, kind)) => Some((i + 1, c, kind)),
                None => None,
            },
        }
    }
}

/// The first error of a line box, with its column, if it has one.
pub open spec fn spec_check_line(bx: BoundingBox<String>) -> Option<(int, BoxErrorView)> {
    let width = bx.rect.right - bx.rect.left;
    let height = bx.rect.top - bx.rect.bottom;
    let words = split_on(bx.value@, ' ');
    if !(width >= MIN_WIDTH && height >= MIN_WIDTH) {
        Some((0, BoxErrorView::LineTooSmall { width: width as i32, height: height as i32 }))
    } else if bx.value@.len() == 0 {
        Some((0, BoxErrorView::EmptyLine))
    } else {
        match spec_check_words(words, 0) {
            None => None,
            Some((i, col, kind)) => Some(
                (
                    col,
                    if kind == 0 {
                        BoxErrorView::WordTooShort {
                            page: bx.page,
                            word: words[i],
                            len: words[i].len() as usize,
                            line: bx.value@,
                        }
                    } else {
                        BoxErrorView::InvalidChar(words[i][first_non_consonant(words[i])->0])
                    },
                ),
            ),
        }
    }
}

/// Checks a line of a corrected box file: the line must be at least
/// [`MIN_WIDTH`] wide and high, hold text, and its words must be at least two
/// consonants long (but for the word "ה") and hold only consonants.  The
/// error comes with its column: for a short word the number of characters
/// before it, for an invalid character that plus the byte position of the
/// character in its word.
#[verifier::loop_isolation(false)]
pub fn check_line(bx: &BoundingBox<String>) -> (res: Result<(), (usize, BoxError)>)
    requires
        i32::MIN <= bx.rect.right - bx.rect.left <= i32::MAX,
        i32::MIN <= bx.rect.top - bx.rect.bottom <= i32::MAX,
        2 * encode_utf8(bx.value@).len() <= usize::MAX,
    ensures
        match spec_check_line(*bx) {
            None => res is Ok,
            Some((col, err)) => res matches Err((c, e)) && c == col && e@ == err,
        },
{
    let width = bx.rect.right - bx.rect.left;
    let height = bx.rect.top - bx.rect.bottom;
    if !(width >= MIN_WIDTH && height >= MIN_WIDTH) {
        return Err((0, BoxError::LineTooSmall { width, height }));
    }
    let value = bx.value.as_str();
    if value.unicode_len() == 0 {
        return Err((0, BoxError::EmptyLine));
    }
    let ranges = piece_ranges(value, ' ');
    proof {
        lemma_chars_le_bytes(value@);
    }
    let ghost words = split_on(value@, ' ');
    let mut col_idx: usize = 0;
    let mut i: usize = 0;
    proof {
        assert(words.skip(0) =~= words);
    }
    while i < ranges.len()
        invariant
            i <= ranges.len(),
            ranges@.len() == words.len(),
            words == split_on(value@, ' '),
            value@ == bx.value@,
            forall|j: int|
                0 <= j < ranges@.len() ==> (#[trigger] ranges@[j]).0 <= ranges@[j].1 <= value@.len()
                    && value@.subrange(ranges@[j].0 as int, ranges@[j].1 as int) == words[j],
            bx.rect.right - bx.rect.left >= MIN_WIDTH,
            bx.rect.top - bx.rect.bottom >= MIN_WIDTH,
            bx.value@.len() != 0,
            ranges@[0].0 == 0,
            forall|j: int| 0 <= j < ranges@.len() - 1 ==> #[trigger] ranges@[j + 1].0 == ranges@[j].1 + 1,
            i < ranges@.len() ==> col_idx + i == ranges@[i as int].0,
            value@.len() <= encode_utf8(value@).len(),
            2 * encode_utf8(value@).len() <= usize::MAX,
            match spec_check_words(words.skip(i as int), col_idx as int) {
                None => spec_check_words(words, 0) is None,
                Some((k, c, kind)) => spec_check_words(words, 0) == Some((k + i, c, kind)),
            },
        decreases ranges.len() - i,
    {
        let (ws, we) = ranges[i];
        let word = value.substring_char(ws, we);
        let len = we - ws;
        let ghost w = words[i as int];
        assert(words.skip(i as int)[0] == w);
        assert(words.skip(i as int).drop_first() =~= words.skip(i + 1));
        if len < 2 && !(len == 1 && word.get_char(0) == 'ה') {
            proof {
                reveal_strlit("ה");
                if len == 1 {
                    assert(w[0] != "ה"@[0]);
                }
                assert(w != "ה"@);
            }
            let word_owned = word.to_owned();
            let line_owned = value.to_owned();
            assert(spec_check_word(w, col_idx as int) == Some((col_idx as int, 0int)));
            assert(spec_check_words(words.skip(i as int), col_idx as int) == Some((0int, col_idx as int, 0int)));
            assert(spec_check_words(words, 0) == Some((i as int, col_idx as int, 0int)));
            assert(word_owned@ == w);
            return Err((col_idx, BoxError::WordTooShort { page: bx.page, word: word_owned, len, line: line_owned }));
        }
        proof {
            reveal_strlit("ה");
            if len == 1 {
                assert(w =~= "ה"@);
            }
        }
        proof {
            lemma_subrange_bytes_le(value@, ws as int, we as int);
        }
        let mut j: usize = 0;
        while j < len
            invariant
                j <= len,
                len == w.len(),
                encode_utf8(w).len() <= encode_utf8(value@).len(),
                col_idx <= value@.len(),
                value@.len() <= encode_utf8(value@).len(),
                2 * encode_utf8(value@).len() <= usize::MAX,
                word@ == w,
                forall|k: int| 0 <= k < j ==> is_consonant(w[k]),
            decreases len - j,
        {
            let c = word.get_char(j);
            if !('א' <= c && c <= 'ת') {
                proof {
                    assert(first_non_consonant(w) == Some(j as int)) by {
                        assert(exists|jj: int| 0 <= jj < w.len() && !is_consonant(w[jj]));
                        let jj = choose|jj: int| 0 <= jj < w.len() && !is_consonant(w[jj]) && forall|k: int| 0 <= k < jj ==> is_consonant(w[k]);
                        if jj < j {
                        } else if jj > j {
                            assert(is_consonant(w[j as int]));
                        }
                    }
                }
                let byte_idx = byte_index_of_char(word, j);
                proof {
                    lemma_encode_split(w, j as int);
                }
                return Err((col_idx + byte_idx, BoxError::InvalidChar(c)));
            }
            j = j + 1;
        }
        assert(first_non_consonant(w) is None);
        col_idx = col_idx + len;
        i = i + 1;
    }
    Ok(())
}

/// The first error of a line as it was read, with its column, if it has one.
pub open spec fn line_error(line: Result<BoundingBox<String>, String>) -> Option<(int, BoxErrorView)> {
    match line {
        Err(msg) => Some((0, BoxErrorView::Parse(msg@))),
        Ok(bx) => spec_check_line(bx),
    }
}

/// The first error of a page: its line, column and kind.
pub open spec fn page_error(lines: Seq<Result<BoundingBox<String>, String>>) -> Option<(int, int, BoxErrorView)>
    decreases lines.len(),
{
    if lines.len() == 0 {
        None
    } else {
        match page_error(lines.drop_last()) {
            Some(e) => Some(e),
            None => match line_error(lines.last()) {
                Some((col, err)) => Some((lines.len() - 1, col, err)),
                None => None,
            },
        }
    }
}

/// The text of a line that was read.
pub open spec fn line_text(line: Result<BoundingBox<String>, String>) -> Seq<char> {
    match line {
        Ok(bx) => bx.value@,
        Err(_) => Seq::empty(),
    }
}

/// The texts of the lines of a page joined by single spaces.
pub open spec fn page_text(lines: Seq<Result<BoundingBox<String>, String>>) -> Seq<char>
    decreases lines.len(),
{
    if lines.len() == 0 {
        Seq::empty()
    } else if lines.len() == 1 {
        line_text(lines[0])
    } else {
        page_text(lines.drop_last()) + seq![' '] + line_text(lines.last())
    }
}

/// Whether the lines of a page can be checked without overflow.
pub open spec fn lines_in_range(lines: Seq<Result<BoundingBox<String>, String>>) -> bool {
    forall|i: int|
        0 <= i < lines.len() ==> match #[trigger] lines[i] {
            Ok(bx) => i32::MIN <= bx.rect.right - bx.rect.left <= i32::MAX && i32::MIN <= bx.rect.top
                - bx.rect.bottom <= i32::MAX && 2 * encode_utf8(bx.value@).len() <= usize::MAX,
            Err(_) => true,
        }
}

/// The result of checking a page against the training text: its text, or
/// the first error with its line and column.
pub open spec fn spec_verify_page(lines: Seq<Result<BoundingBox<String>, String>>, training: Seq<char>) -> Result<
    Seq<char>,
    (int, int, BoxErrorView),
> {
    match page_error(lines) {
        Some(e) => Err(e),
        None => if occurs_in(encode_utf8(training), encode_utf8(page_text(lines))) {
            Ok(page_text(lines))
        } else {
            Err((0, 0, BoxErrorView::TextNotFound(page_text(lines))))
        },
    }
}

/// Checks the lines of a page of a corrected box file, in order, with
/// [`check_line`], and then that the text of the page (the lines joined by
/// single spaces) is part of the training text.  Returns that text.  The
/// first error is reported with its line and column; a page whose text is not
/// found is reported at line and column zero.
pub fn verify_page(lines: &Vec<Result<BoundingBox<String>, String>>, training: &str) -> (res: Result<String, LocatedError>)
    requires
        lines_in_range(lines@),
    ensures
        match spec_verify_page(lines@, training@) {
            Ok(text) => res matches Ok(t) && t@ == text,
            Err((row, col, err)) => res matches Err(e) && e.row == row && e.col == col && e.err@ == err,
        },
{
    let mut text = String::new();
    let mut i: usize = 0;
    proof {
        assert(lines@.take(0) =~= Seq::<Result<BoundingBox<String>, String>>::empty());
    }
    while i < lines.len()
        invariant
            i <= lines.len(),
            lines_in_range(lines@),
            page_error(lines@.take(i as int)) is None,
            text@ == page_text(lines@.take(i as int)),
        decreases lines.len() - i,
    {
        let ghost prefix = lines@.take(i as int);
        let ghost next = lines@.take(i + 1);
        assert(next.drop_last() =~= prefix);
        assert(next.last() == lines@[i as int]);
        match &lines[i] {
            Err(msg) => {
                let err = BoxError::Parse(msg.clone());
                assert(page_error(next) == Some((i as int, 0int, err@)));
                proof {
                    lemma_page_error_prefix(lines@, i as int + 1);
                }
                return Err(LocatedError::new(i, 0, err));
            },
            Ok(bx) => {
                assert(lines@[i as int] matches Ok(b) && b == *bx);
                match check_line(bx) {
                    Err((col, err)) => {
                        proof {
                            lemma_page_error_prefix(lines@, i as int + 1);
                        }
                        return Err(LocatedError::new(i, col, err));
                    },
                    Ok(()) => {},
                }
                if i > 0 {
                    text.append(" ");
                    proof {
                        reveal_strlit(" ");
                        assert(" "@ =~= seq![' ']);
                    }
                }
                text.append(bx.value.as_str());
            },
        }
        i = i + 1;
    }
    proof {
        assert(lines@.take(i as int) =~= lines@);
    }
    let found = contains_bytes(training.as_bytes(), text.as_str().as_bytes());
    if found {
        Ok(text)
    } else {
        let err = BoxError::TextNotFound(text);
        Err(LocatedError::new(0, 0, err))
    }
}

/// An error at line `k - 1` of a page is its first error when the lines
/// before it have none.
proof fn lemma_page_error_prefix(lines: Seq<Result<BoundingBox<String>, String>>, k: int)
    requires
        0 < k <= lines.len(),
        page_error(lines.take(k)) is Some,
    ensures
        page_error(lines) == page_error(lines.take(k)),
    decreases lines.len() - k,
{
    if k < lines.len() {
        assert(lines.take(k + 1).drop_last() =~= lines.take(k));
        lemma_page_error_prefix(lines, k + 1);
    } else {
        assert(lines.take(k) =~= lines);
    }
}

/// Whether a file is a box file to check, given its extension and stem: box
/// files are, but for page 248_088, whose scribe wrote "הבער".
pub fn is_checked_file(extension: Option<&str>, stem: Option<&str>) -> (res: bool)
    ensures
        res == (extension matches Some(e) && e@ == "box"@ && !(stem matches Some(s) && s@ == "248_088"@)),
{
    let is_box = match extension {
        Some(e) => str_eq(e, "box"),
        None => false,
    };
    let skipped = match stem {
        Some(s) => str_eq(s, "248_088"),
        None => false,
    };
    is_box && !skipped
}

/// A word that a corrected box file may hold: only consonants, and at least
/// two of them unless it is the word "ה".
pub open spec fn word_ok(w: Seq<char>) -> bool {
    (w.len() >= 2 || w == "ה"@) && forall|j: int| 0 <= j < w.len() ==> is_consonant(#[trigger] w[j])
}

proof fn lemma_words_ok(ws: Seq<Seq<char>>, col: int)
    requires
        spec_check_words(ws, col) is None,
    ensures
        forall|i: int| 0 <= i < ws.len() ==> word_ok(#[trigger] ws[i]),
    decreases ws.len(),
{
    if ws.len() > 0 {
        lemma_words_ok(ws.drop_first(), col + ws[0].len());
        assert(spec_check_word(ws[0], col) is None);
        assert forall|i: int| 0 <= i < ws.len() implies word_ok(#[trigger] ws[i]) by {
            if i > 0 {
                assert(ws[i] == ws.drop_first()[i - 1]);
            } else {
                let w = ws[0];
                assert(first_non_consonant(w) is None);
                assert forall|j: int| 0 <= j < w.len() implies is_consonant(#[trigger] w[j]) by {
                    if !is_consonant(w[j]) {
                        assert(exists|jj: int| 0 <= jj < w.len() && !is_consonant(w[jj]));
                    }
                }
            }
        }
    }
}

proof fn lemma_page_error_none(lines: Seq<Result<BoundingBox<String>, String>>)
    requires
        page_error(lines) is None,
    ensures
        forall|i: int| 0 <= i < lines.len() ==> line_error(#[trigger] lines[i]) is None,
    decreases lines.len(),
{
    if lines.len() > 0 {
        lemma_page_error_none(lines.drop_last());
        assert forall|i: int| 0 <= i < lines.len() implies line_error(#[trigger] lines[i]) is None by {
            if i < lines.len() - 1 {
                assert(lines[i] == lines.drop_last()[i]);
            }
        }
    }
}

/// A page that passes the check holds only lines that were read, are at
/// least [`MIN_WIDTH`] wide and high, hold text, and whose words are each
/// consonants only, at least two of them unless the word is "ה"; and its
/// text occurs in the training text.
pub proof fn lemma_verified_page(lines: Seq<Result<BoundingBox<String>, String>>, training: Seq<char>)
    requires
        spec_verify_page(lines, training) is Ok,
    ensures
        forall|i: int|
            0 <= i < lines.len() ==> (#[trigger] lines[i] matches Ok(bx) && bx.rect.right - bx.rect.left >= MIN_WIDTH
                && bx.rect.top - bx.rect.bottom >= MIN_WIDTH && bx.value@.len() > 0 && forall|k: int|
                0 <= k < split_on(bx.value@, ' ').len() ==> word_ok(#[trigger] split_on(bx.value@, ' ')[k])),
        occurs_in(encode_utf8(training), encode_utf8(page_text(lines))),
{
    lemma_page_error_none(lines);
    assert forall|i: int| 0 <= i < lines.len() implies (#[trigger] lines[i] matches Ok(bx) && bx.rect.right
        - bx.rect.left >= MIN_WIDTH && bx.rect.top - bx.rect.bottom >= MIN_WIDTH && bx.value@.len() > 0
        && forall|k: int| 0 <= k < split_on(bx.value@, ' ').len() ==> word_ok(#[trigger] split_on(bx.value@, ' ')[k])) by {
        assert(line_error(lines[i]) is None);
        if let Ok(bx) = lines[i] {
            assert(spec_check_line(bx) is None);
            lemma_words_ok(split_on(bx.value@, ' '), 0);
        }
    }
}

/// How `{:?}` writes a string: quoted, with escapes.
pub uninterp spec fn debug_str(s: Seq<char>) -> Seq<char>;

/// How `{:?}` writes a character: quoted, with escapes.
pub uninterp spec fn debug_char(c: char) -> Seq<char>;

/// `s` as `{:?}` writes it.
///
/// Trusted: calls `<str as std::fmt::Debug>::fmt` through `format!`; the
/// result depends on `s` alone.
#[verifier::external_body]
fn str_debug(s: &str) -> (res: String)
    ensures
        res@ == debug_str(s@),
{
    format!("{s:?}")
}

/// `c` as `{:?}` writes it.
///
/// Trusted: calls `<char as std::fmt::Debug>::fmt` through `format!`; the
/// result depends on `c` alone.
#[verifier::external_body]
fn char_debug(c: char) -> (res: String)
    ensures
        res@ == debug_char(c),
{
    format!("{c:?}")
}

/// The message of a box-file error, with `first` and `second` the quoted
/// forms it shows: of the word and the line of a short word, of an invalid
/// character, or of the file a page's text was written to when it was not
/// found.
pub open spec fn error_text(err: BoxErrorView, first: Seq<char>, second: Seq<char>) -> Seq<char> {
    match err {
        BoxErrorView::Parse(msg) => msg,
        BoxErrorView::LineTooSmall { width, height } => "line too small "@ + signed_decimal(width as int) + "x"@
            + signed_decimal(height as int) + ", min 3"@,
        BoxErrorView::EmptyLine => "empty line"@,
        BoxErrorView::WordTooShort { page, len, .. } => "page "@ + decimal(page as nat) + ": word "@ + first
            + " too short with "@ + decimal(len as nat) + ", min 2\nline: "@ + second,
        BoxErrorView::InvalidChar(_) => "invalid char "@ + first,
        BoxErrorView::TextNotFound(_) => "text not found (wrote to "@ + first + ")"@,
    }
}

/// The quoted forms that the message of `err` shows, as `{:?}` writes them;
/// `txt_path` is the file a page's text was written to.
pub open spec fn quoted_forms(err: BoxErrorView, txt_path: Seq<char>) -> (Seq<char>, Seq<char>) {
    match err {
        BoxErrorView::WordTooShort { word, line, .. } => (debug_str(word), debug_str(line)),
        BoxErrorView::InvalidChar(c) => (debug_char(c), Seq::empty()),
        BoxErrorView::TextNotFound(_) => (debug_str(txt_path), Seq::empty()),
        _ => (Seq::empty(), Seq::empty()),
    }
}

impl FiledError {
    /// The message of the error with the quoted forms `first` and `second`
    /// (see [`error_text`]): the file, then the line and the column counted
    /// from one, then what is wrong.
    pub open spec fn spec_describe(&self, first: Seq<char>, second: Seq<char>) -> Seq<char> {
        self.path@ + ":"@ + decimal((self.err.row + 1) as nat) + ":"@ + decimal((self.err.col + 1) as nat) + ": "@
            + error_text(self.err.err@, first, second)
    }

    /// The message of the error as `path:line:column: message`, showing the
    /// quoted forms `first` and `second`.
    pub fn describe_with(&self, first: &str, second: &str) -> (res: String)
        requires
            self.err.row < usize::MAX,
            self.err.col < usize::MAX,
        ensures
            res@ == self.spec_describe(first@, second@),
    {
        let mut out = String::new();
        out.append(self.path.as_str());
        out.append(":");
        push_decimal(&mut out, self.err.row + 1);
        out.append(":");
        push_decimal(&mut out, self.err.col + 1);
        out.append(": ");
        let ghost head = out@;
        match &self.err.err {
            BoxError::Parse(msg) => out.append(msg.as_str()),
            BoxError::LineTooSmall { width, height } => {
                out.append("line too small ");
                push_signed(&mut out, *width);
                out.append("x");
                push_signed(&mut out, *height);
                out.append(", min 3");
            },
            BoxError::EmptyLine => out.append("empty line"),
            BoxError::WordTooShort { page, len, .. } => {
                out.append("page ");
                push_decimal(&mut out, *page);
                out.append(": word ");
                out.append(first);
                out.append(" too short with ");
                push_decimal(&mut out, *len);
                out.append(", min 2\nline: ");
                out.append(second);
            },
            BoxError::InvalidChar(_) => {
                out.append("invalid char ");
                out.append(first);
            },
            BoxError::TextNotFound(_) => {
                out.append("text not found (wrote to ");
                out.append(first);
                out.append(")");
            },
        }
        assert(out@ =~= head + error_text(self.err.err@, first@, second@));
        assert(out@ =~= self.spec_describe(first@, second@));
        out
    }

    /// The message of the error as `path:line:column: message`, with words,
    /// lines, characters and the file `txt_path` (where a page's text that
    /// was not found was written) quoted as `{:?}` writes them.
    pub fn describe(&self, txt_path: &str) -> (res: String)
        requires
            self.err.row < usize::MAX,
            self.err.col < usize::MAX,
        ensures
            res@ == self.spec_describe(
                quoted_forms(self.err.err@, txt_path@).0,
                quoted_forms(self.err.err@, txt_path@).1,
            ),
    {
        let (first, second) = match &self.err.err {
            BoxError::WordTooShort { word, line, .. } => (str_debug(word.as_str()), str_debug(line.as_str())),
            BoxError::InvalidChar(c) => (char_debug(*c), String::new()),
            BoxError::TextNotFound(_) => (str_debug(txt_path), String::new()),
            _ => (String::new(), String::new()),
        };
        self.describe_with(first.as_str(), second.as_str())
    }
}

} // verus!
