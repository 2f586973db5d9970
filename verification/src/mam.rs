//! Extraction of plain text from the Miqra-according-to-the-Masorah (MAM)
//! XML books.
//!
//! The XML is read elsewhere into a list of [`XmlEvent`]s; the functions here
//! walk that list the way a streaming reader would and append the extracted
//! text, shaped for one [`Target`], to an output buffer.  Every parsing
//! function is specified by a `spec_*` function of the same shape over a
//! [`ParseState`].
use vstd::prelude::*;
use vstd::string::*;
use vstd::utf8::*;

use crate::mam_output::{allowed_char, grows, lemma_chapters_output};
use crate::bytes::{append_bytes, bytes_eq_str, bytes_from, push_char_utf8, starts_with_str, str_from_utf8};

verus! {

broadcast use vstd::string::group_string_axioms;

/// What the extracted text is meant for.
#[derive(Clone, Copy, PartialEq, Eq, Structural, Debug)]
pub enum Target {
    /// With teamim, sof-pasuq, maqaf, and verse per line
    Teamim,
    /// Consonants only, no spaces, single line
    Search,
    /// Consonants only, with spaces, single line
    Training,
    /// Same as [`Target::Training`], but with wide letters inserted every
    /// [`WIDE_LETTER_INTERVAL`] letters that have a wide form
    TrainingWideLetters,
}

impl Default for Target {
    fn default() -> (t: Self)
        ensures
            t == Target::Teamim,
    {
        Target::Teamim
    }
}

impl Target {
    /// The name under which the target is given on the command line.
    pub fn name(self) -> (s: &'static str)
        ensures
            s@ == match self {
                Target::Teamim => "teamim"@,
                Target::Search => "search"@,
                Target::TrainingWideLetters => "training"@,
                Target::Training => "diff"@,
            },
    {
        match self {
            Target::Teamim => "teamim",
            Target::Search => "search",
            Target::TrainingWideLetters => "training",
            Target::Training => "diff",
        }
    }
}

/// Under [`Target::TrainingWideLetters`] a wide letter is written for every
/// this many letters that have a wide form: the last of each run of them.
pub const WIDE_LETTER_INTERVAL: usize = 25;

/// The wide presentation form of a Hebrew letter, for the letters that have one.
pub open spec fn spec_wide_letter(c: char) -> Option<char> {
    if c == 'א' {
        Some('ﬡ')
    } else if c == 'ד' {
        Some('ﬢ')
    } else if c == 'ה' {
        Some('ﬣ')
    } else if c == 'כ' {
        Some('ﬤ')
    } else if c == 'ל' {
        Some('ﬥ')
    } else if c == 'ס' {
        Some('ﬦ')
    } else if c == 'ר' {
        Some('ﬧ')
    } else if c == 'ת' {
        Some('ﬨ')
    } else {
        None
    }
}

/// The wide presentation form of a Hebrew letter, for the letters that have one.
pub fn wide_letter(c: char) -> (res: Option<char>)
    ensures
        res == spec_wide_letter(c),
{
    if c == 'א' {
        Some('ﬡ')
    } else if c == 'ד' {
        Some('ﬢ')
    } else if c == 'ה' {
        Some('ﬣ')
    } else if c == 'כ' {
        Some('ﬤ')
    } else if c == 'ל' {
        Some('ﬥ')
    } else if c == 'ס' {
        Some('ﬦ')
    } else if c == 'ר' {
        Some('ﬧ')
    } else if c == 'ת' {
        Some('ﬨ')
    } else {
        None
    }
}

/// A Hebrew consonant, alef to tav.
pub open spec fn is_hebrew_letter(c: char) -> bool {
    '\u{05d0}' <= c <= '\u{05ea}'
}

/// The bytes written for the consonants of `chars` under [`Target::Search`].
pub open spec fn search_bytes(chars: Seq<char>) -> Seq<u8>
    decreases chars.len(),
{
    if chars.len() == 0 {
        seq![]
    } else {
        search_bytes(chars.drop_last()) + if is_hebrew_letter(chars.last()) {
            encode_scalar(chars.last() as u32)
        } else {
            seq![]
        }
    }
}

/// What one character becomes in the training targets, and the new count of
/// plainly written letters since the last wide one.
pub open spec fn training_step(target: Target, elapsed: nat, c: char) -> (Seq<u8>, nat) {
    if is_hebrew_letter(c) || c == ' ' {
        match spec_wide_letter(c) {
            Some(w) => if target == Target::TrainingWideLetters {
                if elapsed + 1 >= WIDE_LETTER_INTERVAL {
                    (encode_scalar(w as u32), 0)
                } else {
                    (encode_scalar(c as u32), elapsed + 1)
                }
            } else {
                (encode_scalar(c as u32), elapsed)
            },
            None => (encode_scalar(c as u32), elapsed),
        }
    } else if c == '\u{05be}' {
        // maqaf
        (seq![0x20u8], elapsed)
    } else {
        // sof pasuq and all marks
        (seq![], elapsed)
    }
}

/// The bytes written for `chars` under the training targets, left to right.
pub open spec fn training_bytes(target: Target, elapsed: nat, chars: Seq<char>) -> (Seq<u8>, nat)
    decreases chars.len(),
{
    if chars.len() == 0 {
        (seq![], elapsed)
    } else {
        let (prefix, e) = training_bytes(target, elapsed, chars.drop_last());
        let (last, e2) = training_step(target, e, chars.last());
        (prefix + last, e2)
    }
}

/// The kind of an XML event.
#[derive(Clone, Copy, PartialEq, Eq, Structural, Debug)]
pub enum EventKind {
    Start,
    Empty,
    End,
    Eof,
    /// The reader failed at this point.
    ReadError,
    /// Text, comments, declarations and the like.
    Other,
}

/// One event of the XML reader, as plain values.
#[derive(Debug)]
pub struct XmlEvent {
    pub kind: EventKind,
    /// The raw tag name (of a start, empty or end tag).
    pub name: Vec<u8>,
    /// The raw content of a start or empty tag: its name followed by its attributes.
    pub content: String,
}

/// Why the extraction failed; `at` is the index of the event concerned.
#[derive(Debug, PartialEq, Eq, Structural)]
pub enum MamError {
    /// The reader failed.
    Read { at: usize },
    UnknownTag { at: usize },
    Unexpected { at: usize },
    /// The attributes of a tag are malformed.
    Attribute { at: usize },
    ExpectedText { at: usize },
    InvalidUtf8 { at: usize },
    ExpectedNoteText { at: usize },
    TwoQ { at: usize },
    TwoK { at: usize },
    NoQ { at: usize },
    NoK { at: usize },
    ExpectedCombined { at: usize },
    ExpectedAlef { at: usize },
    ExpectedBet { at: usize },
    ExpectedEnd { at: usize },
    ExpectedAllThree { at: usize },
    ExpectedSdtTarget { at: usize },
    /// The document ended where a streaming reader would wait forever for a
    /// closing tag.
    EndOfInput,
}

/// The abstract state of the extraction: the index of the next event, the
/// bytes written so far, and the number of plainly written letters since the
/// last wide one.
pub struct ParseState {
    pub pos: int,
    pub out: Seq<u8>,
    pub elapsed: nat,
}

/// The outcome of a parsing step.
pub type Parsed = Result<ParseState, MamError>;

/// Extraction state kept between events.
pub struct Context {
    pub target: Target,
    pub wide_letter_elapsed: usize,
}

/// The kind of the event at `p`; past the end a reader only reports the end.
pub open spec fn kind_at(evs: Seq<XmlEvent>, p: int) -> EventKind {
    if 0 <= p < evs.len() {
        evs[p].kind
    } else {
        EventKind::Eof
    }
}

/// Whether the event at `p` has the tag name `tag`.
pub open spec fn named(evs: Seq<XmlEvent>, p: int, tag: &str) -> bool {
    0 <= p < evs.len() && evs[p].name@ == tag.spec_bytes()
}

/// Whether the name of the event at `p` starts with `prefix`.
pub open spec fn prefixed(evs: Seq<XmlEvent>, p: int, prefix: &str) -> bool {
    &&& 0 <= p < evs.len()
    &&& evs[p].name@.len() >= prefix.spec_bytes().len()
    &&& evs[p].name@.take(prefix.spec_bytes().len() as int) == prefix.spec_bytes()
}

/// The attributes of a tag, each as a key and a raw value, or a parse error,
/// in the order in which `quick_xml` reports them.
pub uninterp spec fn xml_attributes(content: Seq<char>, name_len: usize) -> Seq<
    Result<(Seq<u8>, Seq<u8>), ()>,
>;

/// The view of one attribute item as keys and values of bytes.
pub open spec fn attr_item_view(r: Result<(Vec<u8>, Vec<u8>), ()>) -> Result<(Seq<u8>, Seq<u8>), ()> {
    match r {
        Ok((k, v)) => Ok((k@, v@)),
        Err(_) => Err(()),
    }
}

/// The attributes of a tag whose content is `content` and whose name takes the
/// first `name_len` bytes of it.
///
/// Trusted: calls `quick_xml::events::BytesStart::attributes` (through
/// `BytesStart::from_content`) and turns each item it yields into an owned key
/// and value, or `Err(())` for an item that is a parse error.  The contract only
/// says that the result is what `quick_xml` yields for these arguments; nothing
/// is claimed of how it splits the attributes.
#[verifier::external_body]
fn tag_attributes(content: &str, name_len: usize) -> (res: Vec<Result<(Vec<u8>, Vec<u8>), ()>>)
    requires
        name_len <= content.spec_bytes().len(),
    ensures
        res@.map_values(|r: Result<(Vec<u8>, Vec<u8>), ()>| attr_item_view(r)) == xml_attributes(
            content@,
            name_len,
        ),
{
    quick_xml::events::BytesStart::from_content(content, name_len)
        .attributes()
        .map(|item| item.map(|a| (a.key.as_ref().to_vec(), a.value.to_vec())).map_err(|_| ()))
        .collect()
}

/// The value of the first `text` attribute, unless an error comes first.
pub open spec fn first_text_attr(items: Seq<Result<(Seq<u8>, Seq<u8>), ()>>) -> Result<
    Option<Seq<u8>>,
    (),
>
    decreases items.len(),
{
    if items.len() == 0 {
        Ok(None)
    } else {
        match items[0] {
            Err(_) => Err(()),
            Ok((key, value)) => if key == "text".spec_bytes() {
                Ok(Some(value))
            } else {
                first_text_attr(items.drop_first())
            },
        }
    }
}

/// The `text` attribute of the tag at `p`.
pub open spec fn text_attr_at(evs: Seq<XmlEvent>, p: int) -> Result<Option<Seq<u8>>, ()> {
    first_text_attr(xml_attributes(evs[p].content@, evs[p].name@.len() as usize))
}

/// The result of writing `text` (taken from the event at `at`).
pub open spec fn spec_write_text(target: Target, s: ParseState, text: Seq<u8>, at: int) -> Parsed {
    if target == Target::Teamim {
        Ok(ParseState { out: s.out + text, ..s })
    } else if !valid_utf8(text) {
        Err(MamError::InvalidUtf8 { at: at as usize })
    } else if target == Target::Search {
        Ok(ParseState { out: s.out + search_bytes(decode_utf8(text)), ..s })
    } else {
        let (bytes, e) = training_bytes(target, s.elapsed, decode_utf8(text));
        Ok(ParseState { pos: s.pos, out: s.out + bytes, elapsed: e })
    }
}

/// The result of writing the `text` attribute of the tag at `p`.
pub open spec fn spec_expect_text(target: Target, evs: Seq<XmlEvent>, p: int, s: ParseState) -> Parsed {
    match text_attr_at(evs, p) {
        Err(_) => Err(MamError::Attribute { at: p as usize }),
        Ok(None) => Err(MamError::ExpectedText { at: p as usize }),
        Ok(Some(t)) => spec_write_text(target, s, t, p),
    }
}

/// Whether the event at `p` is one of the empty tags that stand for a sof pasuq mark.
pub open spec fn is_sof_pasuq(evs: Seq<XmlEvent>, p: int) -> bool {
    &&& kind_at(evs, p) == EventKind::Empty
    &&& named(evs, p, "lp-paseq") || named(evs, p, "lp-legarmeih") || named(evs, p, "lp-legarmeih ")
}

/// What a sof pasuq mark becomes.
pub open spec fn sof_pasuq_bytes(target: Target) -> Seq<u8> {
    match target {
        Target::Teamim => seq![0x20u8, 0xD7u8, 0x80u8, 0x20u8],
        Target::TrainingWideLetters | Target::Training => seq![0x20u8],
        Target::Search => seq![],
    }
}

/// What ends a verse given as a single empty tag.
pub open spec fn verse_separator(target: Target) -> Seq<u8> {
    match target {
        Target::Teamim => seq![0x0Au8],
        Target::TrainingWideLetters | Target::Training => seq![0x20u8],
        Target::Search => seq![],
    }
}

/// `s` after reading the event at its position.
pub open spec fn advanced(s: ParseState) -> ParseState {
    ParseState { pos: s.pos + 1, ..s }
}

// ---------------------------------------------------------------------------
// Specification of the parsing functions.
// ---------------------------------------------------------------------------

/// Skips events until the end tag `tag`.
pub open spec fn spec_skip_to_end(evs: Seq<XmlEvent>, s: ParseState, tag: &str) -> Parsed
    decreases evs.len() - s.pos,
{
    let p = s.pos;
    if p < 0 || p >= evs.len() {
        Err(MamError::EndOfInput)
    } else if evs[p].kind == EventKind::ReadError {
        Err(MamError::Read { at: p as usize })
    } else if evs[p].kind == EventKind::Eof {
        Err(MamError::EndOfInput)
    } else if evs[p].kind == EventKind::End && named(evs, p, tag) {
        Ok(advanced(s))
    } else {
        spec_skip_to_end(evs, advanced(s), tag)
    }
}

/// A `<slh-word>` element, after its start tag.
pub open spec fn spec_slh_word(t: Target, evs: Seq<XmlEvent>, s: ParseState) -> Parsed
    decreases evs.len() - s.pos,
{
    let p = s.pos;
    if p < 0 || p >= evs.len() {
        Err(MamError::Unexpected { at: p as usize })
    } else {
        let s1 = advanced(s);
        let k = evs[p].kind;
        if k == EventKind::ReadError {
            Err(MamError::Read { at: p as usize })
        } else if is_sof_pasuq(evs, p) {
            spec_slh_word(t, evs, ParseState { out: s1.out + sof_pasuq_bytes(t), ..s1 })
        } else if k == EventKind::Empty {
            if named(evs, p, "text") || named(evs, p, "letter-large") || named(evs, p, "letter-small") {
                match spec_expect_text(t, evs, p, s1) {
                    Ok(s2) => spec_slh_word(t, evs, ParseState { pos: p + 1, ..s2 }),
                    Err(e) => Err(e),
                }
            } else {
                Err(MamError::UnknownTag { at: p as usize })
            }
        } else if k == EventKind::End && named(evs, p, "slh-word") {
            Ok(s1)
        } else {
            Err(MamError::Unexpected { at: p as usize })
        }
    }
}

/// A `<kq>` element (ketiv and qere), after its start tag; the ketiv is written.
pub open spec fn spec_kq(t: Target, evs: Seq<XmlEvent>, s: ParseState, found_q: bool, found_k: bool) -> Parsed
    decreases evs.len() - s.pos,
{
    let p = s.pos;
    if p < 0 || p >= evs.len() {
        Err(MamError::Unexpected { at: p as usize })
    } else {
        let s1 = advanced(s);
        let k = evs[p].kind;
        if k == EventKind::ReadError {
            Err(MamError::Read { at: p as usize })
        } else if k == EventKind::Empty {
            if named(evs, p, "kq-q") {
                if found_q {
                    Err(MamError::TwoQ { at: p as usize })
                } else {
                    spec_kq(t, evs, s1, true, found_k)
                }
            } else if named(evs, p, "kq-k") {
                if found_k {
                    Err(MamError::TwoK { at: p as usize })
                } else {
                    match spec_expect_text(t, evs, p, s1) {
                        Ok(s2) => spec_kq(t, evs, ParseState { pos: p + 1, ..s2 }, found_q, true),
                        Err(e) => Err(e),
                    }
                }
            } else {
                Err(MamError::UnknownTag { at: p as usize })
            }
        } else if k == EventKind::End && named(evs, p, "kq") {
            if !found_q {
                Err(MamError::NoQ { at: p as usize })
            } else if !found_k {
                Err(MamError::NoK { at: p as usize })
            } else {
                Ok(s1)
            }
        } else {
            Err(MamError::Unexpected { at: p as usize })
        }
    }
}

/// A `<cant-alef>` element with nested tags, after its start tag.
pub open spec fn spec_complicated_cant(t: Target, evs: Seq<XmlEvent>, s: ParseState) -> Parsed
    decreases evs.len() - s.pos,
{
    let p = s.pos;
    if p < 0 || p >= evs.len() {
        Err(MamError::Unexpected { at: p as usize })
    } else {
        let s1 = advanced(s);
        let k = evs[p].kind;
        if k == EventKind::ReadError {
            Err(MamError::Read { at: p as usize })
        } else if is_sof_pasuq(evs, p) {
            spec_complicated_cant(t, evs, ParseState { out: s1.out + sof_pasuq_bytes(t), ..s1 })
        } else if k == EventKind::Empty && named(evs, p, "text") {
            match spec_expect_text(t, evs, p, s1) {
                Ok(s2) => spec_complicated_cant(t, evs, ParseState { pos: p + 1, ..s2 }),
                Err(e) => Err(e),
            }
        } else if k == EventKind::Empty && prefixed(evs, p, "spi-") {
            spec_complicated_cant(t, evs, s1)
        } else if k == EventKind::End && named(evs, p, "cant-alef") {
            Ok(s1)
        } else {
            Err(MamError::Unexpected { at: p as usize })
        }
    }
}

/// Skips the combined cantillation of a `<cant-all-three>` element, given as
/// an empty tag or as an element named `tag`; `missing` is the error when
/// neither comes.
pub open spec fn spec_skip_element(evs: Seq<XmlEvent>, s: ParseState, tag: &str, missing: MamError) -> Parsed {
    let p = s.pos;
    if p < 0 || p >= evs.len() {
        Err(missing)
    } else if evs[p].kind == EventKind::ReadError {
        Err(MamError::Read { at: p as usize })
    } else if evs[p].kind == EventKind::Empty && named(evs, p, tag) {
        Ok(advanced(s))
    } else if evs[p].kind == EventKind::Start && named(evs, p, tag) {
        spec_skip_to_end(evs, advanced(s), tag)
    } else {
        Err(missing)
    }
}

/// The alef cantillation of a `<cant-all-three>` element, which is written.
pub open spec fn spec_cant_alef(t: Target, evs: Seq<XmlEvent>, s: ParseState) -> Parsed {
    let p = s.pos;
    if p < 0 || p >= evs.len() {
        Err(MamError::ExpectedAlef { at: p as usize })
    } else if evs[p].kind == EventKind::ReadError {
        Err(MamError::Read { at: p as usize })
    } else if evs[p].kind == EventKind::Empty && named(evs, p, "cant-alef") {
        spec_expect_text(t, evs, p, advanced(s))
    } else if evs[p].kind == EventKind::Start && named(evs, p, "cant-alef") {
        spec_complicated_cant(t, evs, advanced(s))
    } else {
        Err(MamError::ExpectedAlef { at: p as usize })
    }
}

/// The end tag of a `<cant-all-three>` element.
pub open spec fn spec_cant_end(evs: Seq<XmlEvent>, s: ParseState) -> Parsed {
    let p = s.pos;
    if 0 <= p < evs.len() && evs[p].kind == EventKind::ReadError {
        Err(MamError::Read { at: p as usize })
    } else if kind_at(evs, p) != EventKind::End {
        Err(MamError::ExpectedEnd { at: p as usize })
    } else if !named(evs, p, "cant-all-three") {
        Err(MamError::ExpectedAllThree { at: p as usize })
    } else {
        Ok(advanced(s))
    }
}

/// A `<cant-all-three>` element, after its start tag: the combined and the
/// bet cantillation are skipped, the alef cantillation is written.
pub open spec fn spec_cant_all_three(t: Target, evs: Seq<XmlEvent>, s: ParseState) -> Parsed {
    match spec_skip_element(evs, s, "cant-combined", MamError::ExpectedCombined { at: s.pos as usize }) {
        Err(e) => Err(e),
        Ok(s2) => match spec_cant_alef(t, evs, s2) {
            Err(e) => Err(e),
            Ok(s3) => match spec_skip_element(evs, s3, "cant-bet", MamError::ExpectedBet { at: s3.pos as usize }) {
                Err(e) => Err(e),
                Ok(s4) => spec_cant_end(evs, s4),
            },
        },
    }
}

/// A `<sdt-target>` element with nested tags, after its start tag.
pub open spec fn spec_complicated_sdt(t: Target, evs: Seq<XmlEvent>, s: ParseState) -> Parsed
    decreases evs.len() - s.pos,
{
    let p = s.pos;
    let len = evs.len() as int;
    if p < 0 || p >= len {
        Err(MamError::Unexpected { at: p as usize })
    } else {
        let s1 = advanced(s);
        let k = evs[p].kind;
        if k == EventKind::ReadError {
            Err(MamError::Read { at: p as usize })
        } else if k == EventKind::Start {
            let r = if named(evs, p, "slh-word") {
                spec_slh_word(t, evs, s1)
            } else if named(evs, p, "kq") {
                spec_kq(t, evs, s1, false, false)
            } else if named(evs, p, "cant-all-three") {
                spec_cant_all_three(t, evs, s1)
            } else {
                Err(MamError::Unexpected { at: p as usize })
            };
            match r {
                Ok(s2) => if s.pos < s2.pos <= len {
                    spec_complicated_sdt(t, evs, s2)
                } else {
                    Err(MamError::EndOfInput)
                },
                Err(e) => Err(e),
            }
        } else if k == EventKind::Empty && (named(evs, p, "text") || named(evs, p, "kq-trivial")) {
            match spec_expect_text(t, evs, p, s1) {
                Ok(s2) => spec_complicated_sdt(t, evs, ParseState { pos: p + 1, ..s2 }),
                Err(e) => Err(e),
            }
        } else if k == EventKind::Empty && prefixed(evs, p, "spi-") {
            spec_complicated_sdt(t, evs, s1)
        } else if k == EventKind::End && named(evs, p, "sdt-target") {
            Ok(s1)
        } else {
            Err(MamError::Unexpected { at: p as usize })
        }
    }
}

/// The note of the Spanish and Ashkenazi books that keeps the vav short.
pub open spec fn short_vav_note() -> Seq<u8> {
    "בספרי ספרד ואשכנז וי״ו קטיעא".spec_bytes()
}

/// The prefix of a note that gives the reading of the Spanish and Ashkenazi books.
pub open spec fn sefarad_ashkenaz_prefix() -> Seq<u8> {
    "בספרי ספרד ואשכנז ".spec_bytes()
}

/// The prefix of a note that gives the reading of the Spanish and most Ashkenazi books.
pub open spec fn sefarad_most_ashkenaz_prefix() -> Seq<u8> {
    "בספרי ספרד ורוב ספרי אשכנז ".spec_bytes()
}

/// Reads a `<sdt-note>`; when it gives the reading of the Spanish and Ashkenazi
/// books, that reading is written and the result says so.
pub open spec fn spec_besifrei_note(t: Target, evs: Seq<XmlEvent>, s: ParseState) -> Result<
    (bool, ParseState),
    MamError,
> {
    let p = s.pos;
    if p < 0 || p >= evs.len() {
        Err(MamError::Unexpected { at: p as usize })
    } else if evs[p].kind == EventKind::ReadError {
        Err(MamError::Read { at: p as usize })
    } else if evs[p].kind == EventKind::Start && named(evs, p, "sdt-note") {
        Ok((false, advanced(s)))
    } else if evs[p].kind == EventKind::Empty && named(evs, p, "sdt-note") {
        let s1 = advanced(s);
        match text_attr_at(evs, p) {
            Err(_) => Err(MamError::Attribute { at: p as usize }),
            Ok(None) => Err(MamError::ExpectedNoteText { at: p as usize }),
            Ok(Some(note)) => if note == short_vav_note() {
                Ok((false, s1))
            } else if note.len() >= sefarad_ashkenaz_prefix().len() && note.take(
                sefarad_ashkenaz_prefix().len() as int,
            ) == sefarad_ashkenaz_prefix() {
                match spec_write_text(t, s1, note.skip(sefarad_ashkenaz_prefix().len() as int), p) {
                    Ok(s2) => Ok((true, s2)),
                    Err(e) => Err(e),
                }
            } else if note.len() >= sefarad_most_ashkenaz_prefix().len() && note.take(
                sefarad_most_ashkenaz_prefix().len() as int,
            ) == sefarad_most_ashkenaz_prefix() {
                match spec_write_text(
                    t,
                    s1,
                    note.skip(sefarad_most_ashkenaz_prefix().len() as int),
                    p,
                ) {
                    Ok(s2) => Ok((true, s2)),
                    Err(e) => Err(e),
                }
            } else {
                Ok((false, s1))
            },
        }
    } else {
        Err(MamError::Unexpected { at: p as usize })
    }
}

/// A `<scrdfftar>` element (scribal difference), after its start tag.
pub open spec fn spec_scrdfftar(t: Target, evs: Seq<XmlEvent>, s: ParseState) -> Parsed {
    let p = s.pos;
    let r: Parsed = if p < 0 || p >= evs.len() {
        Err(MamError::ExpectedSdtTarget { at: p as usize })
    } else if evs[p].kind == EventKind::ReadError {
        Err(MamError::Read { at: p as usize })
    } else if evs[p].kind == EventKind::Start && named(evs, p, "sdt-target") {
        spec_complicated_sdt(t, evs, advanced(s))
    } else if evs[p].kind == EventKind::Empty && named(evs, p, "sdt-target") {
        match text_attr_at(evs, p) {
            Err(_) => Err(MamError::Attribute { at: p as usize }),
            Ok(None) => Ok(advanced(s)),
            Ok(Some(target_text)) => match spec_besifrei_note(t, evs, advanced(s)) {
                Err(e) => Err(e),
                Ok((true, s2)) => Ok(s2),
                Ok((false, s2)) => spec_write_text(t, s2, target_text, p),
            },
        }
    } else {
        Err(MamError::ExpectedSdtTarget { at: p as usize })
    };
    match r {
        Err(e) => Err(e),
        Ok(s3) => spec_skip_to_end(evs, s3, "scrdfftar"),
    }
}

/// An element nested in a verse, whose start tag is at `p`.
#[verifier::opaque]
pub open spec fn spec_verse_child(t: Target, evs: Seq<XmlEvent>, p: int, s: ParseState) -> Parsed {
    if named(evs, p, "slh-word") {
        spec_slh_word(t, evs, s)
    } else if named(evs, p, "scrdfftar") {
        spec_scrdfftar(t, evs, s)
    } else if named(evs, p, "kq") {
        spec_kq(t, evs, s, false, false)
    } else if named(evs, p, "cant-all-three") {
        spec_cant_all_three(t, evs, s)
    } else {
        Err(MamError::Unexpected { at: p as usize })
    }
}

/// A `<verse>` element, after its start tag; `trailing` says whether the last
/// event was a shirah space.
pub open spec fn spec_verse(t: Target, evs: Seq<XmlEvent>, s: ParseState, trailing: bool) -> Parsed
    decreases evs.len() - s.pos,
{
    let p = s.pos;
    let len = evs.len() as int;
    if p < 0 || p >= len {
        Err(MamError::Unexpected { at: p as usize })
    } else {
        let s1 = advanced(s);
        let k = evs[p].kind;
        if k == EventKind::ReadError {
            Err(MamError::Read { at: p as usize })
        } else if k == EventKind::Empty && named(evs, p, "shirah-space") {
            let sp = if t != Target::Search {
                seq![0x20u8]
            } else {
                seq![]
            };
            spec_verse(t, evs, ParseState { out: s1.out + sp, ..s1 }, true)
        } else if k == EventKind::End && named(evs, p, "verse") {
            let end = match t {
                Target::Teamim => seq![0x0Au8],
                Target::Training | Target::TrainingWideLetters => if !trailing {
                    seq![0x20u8]
                } else {
                    seq![]
                },
                Target::Search => seq![],
            };
            Ok(ParseState { out: s1.out + end, ..s1 })
        } else if is_sof_pasuq(evs, p) {
            spec_verse(t, evs, ParseState { out: s1.out + sof_pasuq_bytes(t), ..s1 }, false)
        } else if k == EventKind::Start {
            match spec_verse_child(t, evs, p, s1) {
                Ok(s2) => if s.pos < s2.pos <= len {
                    spec_verse(t, evs, s2, false)
                } else {
                    Err(MamError::EndOfInput)
                },
                Err(e) => Err(e),
            }
        } else if k == EventKind::Empty && (named(evs, p, "text") || named(evs, p, "kq-trivial")) {
            match spec_expect_text(t, evs, p, s1) {
                Ok(s2) => spec_verse(t, evs, ParseState { pos: p + 1, ..s2 }, false),
                Err(e) => Err(e),
            }
        } else if k == EventKind::Empty && prefixed(evs, p, "spi-") {
            spec_verse(t, evs, s1, false)
        } else {
            Err(MamError::Unexpected { at: p as usize })
        }
    }
}

/// The chapters of a book, up to the end of the document.
pub open spec fn spec_chapters(t: Target, evs: Seq<XmlEvent>, s: ParseState) -> Parsed
    decreases evs.len() - s.pos,
{
    let p = s.pos;
    let len = evs.len() as int;
    if p < 0 || p >= len {
        Ok(s)
    } else {
        let s1 = advanced(s);
        let k = evs[p].kind;
        if k == EventKind::ReadError {
            Err(MamError::Read { at: p as usize })
        } else if k == EventKind::Start {
            if named(evs, p, "chapter") {
                spec_chapters(t, evs, s1)
            } else if named(evs, p, "verse") {
                match spec_verse(t, evs, s1, false) {
                    Ok(s2) => if s.pos < s2.pos <= len {
                        spec_chapters(t, evs, s2)
                    } else {
                        Err(MamError::EndOfInput)
                    },
                    Err(e) => Err(e),
                }
            } else {
                Err(MamError::UnknownTag { at: p as usize })
            }
        } else if k == EventKind::Empty && named(evs, p, "verse") {
            match spec_expect_text(t, evs, p, s1) {
                Ok(s2) => spec_chapters(
                    t,
                    evs,
                    ParseState { pos: p + 1, out: s2.out + verse_separator(t), elapsed: s2.elapsed },
                ),
                Err(e) => Err(e),
            }
        } else if k == EventKind::Empty && prefixed(evs, p, "spi-") {
            spec_chapters(t, evs, s1)
        } else if k == EventKind::End {
            spec_chapters(t, evs, s1)
        } else if k == EventKind::Eof {
            Ok(s1)
        } else {
            Err(MamError::Unexpected { at: p as usize })
        }
    }
}

// ---------------------------------------------------------------------------
// The extraction itself.
// ---------------------------------------------------------------------------

/// A tag's name is the start of its content.
pub open spec fn event_wf(ev: XmlEvent) -> bool {
    ev.name@.len() <= encode_utf8(ev.content@).len()
}

/// Every event of the list is well formed.
pub open spec fn events_wf(evs: Seq<XmlEvent>) -> bool {
    forall|i: int| 0 <= i < evs.len() ==> event_wf(#[trigger] evs[i])
}

/// The abstract state for the next event `pos`, output `out` and counter `elapsed`.
pub open spec fn state(pos: int, out: Seq<u8>, elapsed: usize) -> ParseState {
    ParseState { pos, out, elapsed: elapsed as nat }
}

/// The concrete outcome `res` (new position or error), output `out` and
/// counter `elapsed` are those of the abstract outcome `r`.
pub open spec fn outcome(r: Parsed, res: Result<usize, MamError>, out: Seq<u8>, elapsed: usize) -> bool {
    match r {
        Ok(s) => res matches Ok(p) && p as int == s.pos && out == s.out && elapsed == s.elapsed,
        Err(e) => res == Err::<usize, MamError>(e),
    }
}

/// Whether `ev` has the tag name `tag`.
fn is_named(ev: &XmlEvent, tag: &str) -> (res: bool)
    ensures
        res == (ev.name@ == tag.spec_bytes()),
{
    bytes_eq_str(ev.name.as_slice(), tag)
}

/// Whether the name of `ev` starts with `prefix`.
fn is_prefixed(ev: &XmlEvent, prefix: &str) -> (res: bool)
    ensures
        res == (ev.name@.len() >= prefix.spec_bytes().len() && ev.name@.take(
            prefix.spec_bytes().len() as int,
        ) == prefix.spec_bytes()),
{
    starts_with_str(ev.name.as_slice(), prefix)
}

/// The value of the first `text` attribute among the attribute items
/// `items`, or `Err(())` when an item before it is malformed.
pub fn find_text_attr(items: &[Result<(Vec<u8>, Vec<u8>), ()>]) -> (res: Result<Option<Vec<u8>>, ()>)
    ensures
        match first_text_attr(items@.map_values(|r: Result<(Vec<u8>, Vec<u8>), ()>| attr_item_view(r))) {
            Ok(Some(v)) => res matches Ok(Some(r)) && r@ == v,
            Ok(None) => res matches Ok(None),
            Err(_) => res is Err,
        },
{
    let ghost view = items@.map_values(|r: Result<(Vec<u8>, Vec<u8>), ()>| attr_item_view(r));
    let mut i: usize = 0;
    assert(view.skip(0) == view);
    while i < items.len()
        invariant
            i <= items.len(),
            view == items@.map_values(|r: Result<(Vec<u8>, Vec<u8>), ()>| attr_item_view(r)),
            first_text_attr(view.skip(i as int)) == first_text_attr(view),
        decreases items.len() - i,
    {
        assert(view.skip(i as int)[0] == view[i as int]);
        assert(view.skip(i as int).drop_first() == view.skip(i + 1));
        match &items[i] {
            Err(_) => {
                return Err(());
            },
            Ok((key, value)) => {
                if bytes_eq_str(key.as_slice(), "text") {
                    let v = bytes_from(value.as_slice(), 0);
                    assert(value@.skip(0) == value@);
                    return Ok(Some(v));
                }
            },
        }
        i = i + 1;
    }
    assert(view.skip(i as int).len() == 0);
    Ok(None)
}

/// The value of the first `text` attribute of `ev`, or `Err(())` when the
/// attributes are malformed before one is found.
pub fn get_text_attr(ev: &XmlEvent) -> (res: Result<Option<Vec<u8>>, ()>)
    requires
        event_wf(*ev),
    ensures
        match first_text_attr(xml_attributes(ev.content@, ev.name@.len() as usize)) {
            Ok(Some(v)) => res matches Ok(Some(r)) && r@ == v,
            Ok(None) => res matches Ok(None),
            Err(_) => res is Err,
        },
{
    let items = tag_attributes(ev.content.as_str(), ev.name.len());
    find_text_attr(items.as_slice())
}

impl Context {
    /// A fresh context for `target`.
    pub fn new(target: Target) -> (res: Self)
        ensures
            res.target == target,
            res.wide_letter_elapsed == 0,
    {
        Context { target, wide_letter_elapsed: 0 }
    }

    /// Writes the `text` attribute of the tag at `p`.
    fn expect_text_attr(&mut self, evs: &[XmlEvent], p: usize, out: &mut Vec<u8>) -> (res: Result<(), MamError>)
        requires
            p < evs.len(),
            events_wf(evs@),
        ensures
            final(self).target == old(self).target,
            match spec_expect_text(old(self).target, evs@, p as int, state(p + 1, old(out)@, old(self).wide_letter_elapsed)) {
                Ok(s) => res is Ok && final(out)@ == s.out && final(self).wide_letter_elapsed == s.elapsed,
                Err(e) => res == Err::<(), MamError>(e),
            },
    {
        assert(event_wf(evs@[p as int]));
        match get_text_attr(&evs[p]) {
            Err(_) => Err(MamError::Attribute { at: p }),
            Ok(None) => Err(MamError::ExpectedText { at: p }),
            Ok(Some(text)) => self.write_text(text.as_slice(), p, out, Ghost(p + 1)),
        }
    }

    /// Writes a sof pasuq mark if the event at `p` is one, and says whether it was.
    fn sof_pasuq(&self, evs: &[XmlEvent], p: usize, out: &mut Vec<u8>) -> (res: bool)
        requires
            p < evs.len(),
        ensures
            res == is_sof_pasuq(evs@, p as int),
            res ==> final(out)@ == old(out)@ + sof_pasuq_bytes(self.target),
            !res ==> final(out)@ == old(out)@,
    {
        let ev = &evs[p];
        if ev.kind != EventKind::Empty {
            return false;
        }
        if !(is_named(ev, "lp-paseq") || is_named(ev, "lp-legarmeih") || is_named(ev, "lp-legarmeih ")) {
            return false;
        }
        match self.target {
            Target::Teamim => {
                out.push(0x20);
                out.push(0xD7);
                out.push(0x80);
                out.push(0x20);
            },
            Target::TrainingWideLetters | Target::Training => {
                out.push(0x20);
            },
            Target::Search => {},
        }
        true
    }

    /// Skips events until the end tag `tag`.
    fn skip_to_end(&self, evs: &[XmlEvent], start: usize, tag: &str, Ghost(out): Ghost<Seq<u8>>, Ghost(elapsed): Ghost<usize>) -> (res: Result<usize, MamError>)
        requires
            start <= evs.len(),
        ensures
            outcome(spec_skip_to_end(evs@, state(start as int, out, elapsed), tag), res, out, elapsed),
            res matches Ok(p2) ==> start < p2 <= evs.len(),
    {
        let mut pos = start;
        loop
            invariant
                start <= pos <= evs.len(),
                spec_skip_to_end(evs@, state(pos as int, out, elapsed), tag) == spec_skip_to_end(
                    evs@,
                    state(start as int, out, elapsed),
                    tag,
                ),
            decreases evs.len() - pos,
        {
            if pos >= evs.len() {
                return Err(MamError::EndOfInput);
            }
            let p = pos;
            pos = pos + 1;
            let ev = &evs[p];
            if ev.kind == EventKind::ReadError {
                return Err(MamError::Read { at: p });
            }
            if ev.kind == EventKind::Eof {
                return Err(MamError::EndOfInput);
            }
            if ev.kind == EventKind::End && is_named(ev, tag) {
                return Ok(pos);
            }
        }
    }

    /// Parses a `<slh-word>` element from `start`, just after its start tag.
    fn parse_slh_word(&mut self, evs: &[XmlEvent], start: usize, out: &mut Vec<u8>) -> (res: Result<usize, MamError>)
        requires
            start <= evs.len(),
            events_wf(evs@),
        ensures
            final(self).target == old(self).target,
            outcome(
                spec_slh_word(old(self).target, evs@, state(start as int, old(out)@, old(self).wide_letter_elapsed)),
                res,
                final(out)@,
                final(self).wide_letter_elapsed,
            ),
            res matches Ok(p2) ==> start < p2 <= evs.len(),
    {
        let mut pos = start;
        loop
            invariant
                self.target == old(self).target,
                start <= pos <= evs.len(),
                events_wf(evs@),
                spec_slh_word(self.target, evs@, state(pos as int, out@, self.wide_letter_elapsed))
                    == spec_slh_word(self.target, evs@, state(start as int, old(out)@, old(self).wide_letter_elapsed)),
            decreases evs.len() - pos,
        {
            if pos >= evs.len() {
                return Err(MamError::Unexpected { at: pos });
            }
            let p = pos;
            pos = pos + 1;
            let kind = evs[p].kind;
            if kind == EventKind::ReadError {
                return Err(MamError::Read { at: p });
            }
            if self.sof_pasuq(evs, p, out) {
                continue;
            }
            if kind == EventKind::Empty {
                let ev = &evs[p];
                if is_named(ev, "text") || is_named(ev, "letter-large") || is_named(ev, "letter-small") {
                    match self.expect_text_attr(evs, p, out) {
                        Ok(()) => {},
                        Err(e) => {
                            return Err(e);
                        },
                    }
                } else {
                    return Err(MamError::UnknownTag { at: p });
                }
            } else if kind == EventKind::End && is_named(&evs[p], "slh-word") {
                return Ok(pos);
            } else {
                return Err(MamError::Unexpected { at: p });
            }
        }
    }

    /// Parses a `<kq>` element from `start`, just after its start tag.
    fn parse_kq(&mut self, evs: &[XmlEvent], start: usize, out: &mut Vec<u8>) -> (res: Result<usize, MamError>)
        requires
            start <= evs.len(),
            events_wf(evs@),
        ensures
            final(self).target == old(self).target,
            outcome(
                spec_kq(old(self).target, evs@, state(start as int, old(out)@, old(self).wide_letter_elapsed), false, false),
                res,
                final(out)@,
                final(self).wide_letter_elapsed,
            ),
            res matches Ok(p2) ==> start < p2 <= evs.len(),
    {
        let mut found_q = false;
        let mut found_k = false;
        let mut pos = start;
        loop
            invariant
                self.target == old(self).target,
                start <= pos <= evs.len(),
                events_wf(evs@),
                spec_kq(self.target, evs@, state(pos as int, out@, self.wide_letter_elapsed), found_q, found_k)
                    == spec_kq(self.target, evs@, state(start as int, old(out)@, old(self).wide_letter_elapsed), false, false),
            decreases evs.len() - pos,
        {
            if pos >= evs.len() {
                return Err(MamError::Unexpected { at: pos });
            }
            let p = pos;
            pos = pos + 1;
            let kind = evs[p].kind;
            if kind == EventKind::ReadError {
                return Err(MamError::Read { at: p });
            }
            if kind == EventKind::Empty {
                let ev = &evs[p];
                if is_named(ev, "kq-q") {
                    if found_q {
                        return Err(MamError::TwoQ { at: p });
                    }
                    found_q = true;
                } else if is_named(ev, "kq-k") {
                    if found_k {
                        return Err(MamError::TwoK { at: p });
                    }
                    found_k = true;
                    match self.expect_text_attr(evs, p, out) {
                        Ok(()) => {},
                        Err(e) => {
                            return Err(e);
                        },
                    }
                } else {
                    return Err(MamError::UnknownTag { at: p });
                }
            } else if kind == EventKind::End && is_named(&evs[p], "kq") {
                if !found_q {
                    return Err(MamError::NoQ { at: p });
                }
                if !found_k {
                    return Err(MamError::NoK { at: p });
                }
                return Ok(pos);
            } else {
                return Err(MamError::Unexpected { at: p });
            }
        }
    }

    /// Parses a `<cant-alef>` element with nested tags from `start`, just after its start tag.
    fn parse_complicated_cant(&mut self, evs: &[XmlEvent], start: usize, out: &mut Vec<u8>) -> (res: Result<usize, MamError>)
        requires
            start <= evs.len(),
            events_wf(evs@),
        ensures
            final(self).target == old(self).target,
            outcome(
                spec_complicated_cant(old(self).target, evs@, state(start as int, old(out)@, old(self).wide_letter_elapsed)),
                res,
                final(out)@,
                final(self).wide_letter_elapsed,
            ),
            res matches Ok(p2) ==> start < p2 <= evs.len(),
    {
        let mut pos = start;
        loop
            invariant
                self.target == old(self).target,
                start <= pos <= evs.len(),
                events_wf(evs@),
                spec_complicated_cant(self.target, evs@, state(pos as int, out@, self.wide_letter_elapsed))
                    == spec_complicated_cant(self.target, evs@, state(start as int, old(out)@, old(self).wide_letter_elapsed)),
            decreases evs.len() - pos,
        {
            if pos >= evs.len() {
                return Err(MamError::Unexpected { at: pos });
            }
            let p = pos;
            pos = pos + 1;
            let kind = evs[p].kind;
            if kind == EventKind::ReadError {
                return Err(MamError::Read { at: p });
            }
            if self.sof_pasuq(evs, p, out) {
                continue;
            }
            if kind == EventKind::Empty && is_named(&evs[p], "text") {
                match self.expect_text_attr(evs, p, out) {
                    Ok(()) => {},
                    Err(e) => {
                        return Err(e);
                    },
                }
            } else if kind == EventKind::Empty && is_prefixed(&evs[p], "spi-") {
                continue;
            } else if kind == EventKind::End && is_named(&evs[p], "cant-alef") {
                return Ok(pos);
            } else {
                return Err(MamError::Unexpected { at: p });
            }
        }
    }

    /// Parses a `<cant-all-three>` element from `start`, just after its start tag.
    fn parse_cant_all_three(&mut self, evs: &[XmlEvent], start: usize, out: &mut Vec<u8>) -> (res: Result<usize, MamError>)
        requires
            start <= evs.len(),
            events_wf(evs@),
        ensures
            final(self).target == old(self).target,
            outcome(
                spec_cant_all_three(old(self).target, evs@, state(start as int, old(out)@, old(self).wide_letter_elapsed)),
                res,
                final(out)@,
                final(self).wide_letter_elapsed,
            ),
            res matches Ok(p2) ==> start < p2 <= evs.len(),
    {
        let ghost s0 = state(start as int, out@, self.wide_letter_elapsed);
        // the combined cantillation
        let pos = match self.skip_element(evs, start, "cant-combined", MamError::ExpectedCombined { at: start }, Ghost(out@), Ghost(self.wide_letter_elapsed)) {
            Ok(p) => p,
            Err(e) => {
                return Err(e);
            },
        };
        let ghost s2 = state(pos as int, out@, self.wide_letter_elapsed);
        assert(spec_skip_element(evs@, s0, "cant-combined", MamError::ExpectedCombined { at: start }) == Ok::<ParseState, MamError>(s2));
        // the alef cantillation
        let p2 = pos;
        if p2 >= evs.len() {
            return Err(MamError::ExpectedAlef { at: p2 });
        }
        let kind = evs[p2].kind;
        let pos = if kind == EventKind::ReadError {
            return Err(MamError::Read { at: p2 });
        } else if kind == EventKind::Empty && is_named(&evs[p2], "cant-alef") {
            match self.expect_text_attr(evs, p2, out) {
                Ok(()) => p2 + 1,
                Err(e) => {
                    return Err(e);
                },
            }
        } else if kind == EventKind::Start && is_named(&evs[p2], "cant-alef") {
            match self.parse_complicated_cant(evs, p2 + 1, out) {
                Ok(p) => p,
                Err(e) => {
                    return Err(e);
                },
            }
        } else {
            return Err(MamError::ExpectedAlef { at: p2 });
        };
        let ghost s3 = state(pos as int, out@, self.wide_letter_elapsed);
        assert(spec_cant_alef(self.target, evs@, s2) == Ok::<ParseState, MamError>(s3));
        // the bet cantillation
        let p3 = pos;
        let pos = match self.skip_element(evs, p3, "cant-bet", MamError::ExpectedBet { at: p3 }, Ghost(out@), Ghost(self.wide_letter_elapsed)) {
            Ok(p) => p,
            Err(e) => {
                return Err(e);
            },
        };
        // the end tag
        let p4 = pos;
        if p4 < evs.len() && evs[p4].kind == EventKind::ReadError {
            return Err(MamError::Read { at: p4 });
        }
        if p4 >= evs.len() || evs[p4].kind != EventKind::End {
            return Err(MamError::ExpectedEnd { at: p4 });
        }
        if !is_named(&evs[p4], "cant-all-three") {
            return Err(MamError::ExpectedAllThree { at: p4 });
        }
        Ok(p4 + 1)
    }

    /// Skips an empty tag `tag`, or an element `tag` up to its end tag; fails
    /// with `missing` when neither comes.
    fn skip_element(&self, evs: &[XmlEvent], start: usize, tag: &str, missing: MamError, Ghost(out): Ghost<Seq<u8>>, Ghost(elapsed): Ghost<usize>) -> (res: Result<usize, MamError>)
        requires
            start <= evs.len(),
        ensures
            outcome(spec_skip_element(evs@, state(start as int, out, elapsed), tag, missing), res, out, elapsed),
            res matches Ok(p2) ==> start < p2 <= evs.len(),
    {
        if start >= evs.len() {
            return Err(missing);
        }
        let kind = evs[start].kind;
        if kind == EventKind::ReadError {
            Err(MamError::Read { at: start })
        } else if kind == EventKind::Empty && is_named(&evs[start], tag) {
            Ok(start + 1)
        } else if kind == EventKind::Start && is_named(&evs[start], tag) {
            self.skip_to_end(evs, start + 1, tag, Ghost(out), Ghost(elapsed))
        } else {
            Err(missing)
        }
    }

    /// Parses a `<sdt-target>` element with nested tags from `start`, just after its start tag.
    fn parse_complicated_sdt(&mut self, evs: &[XmlEvent], start: usize, out: &mut Vec<u8>) -> (res: Result<usize, MamError>)
        requires
            start <= evs.len(),
            events_wf(evs@),
        ensures
            final(self).target == old(self).target,
            outcome(
                spec_complicated_sdt(old(self).target, evs@, state(start as int, old(out)@, old(self).wide_letter_elapsed)),
                res,
                final(out)@,
                final(self).wide_letter_elapsed,
            ),
            res matches Ok(p2) ==> start < p2 <= evs.len(),
    {
        let mut pos = start;
        loop
            invariant
                self.target == old(self).target,
                start <= pos <= evs.len(),
                events_wf(evs@),
                spec_complicated_sdt(self.target, evs@, state(pos as int, out@, self.wide_letter_elapsed))
                    == spec_complicated_sdt(self.target, evs@, state(start as int, old(out)@, old(self).wide_letter_elapsed)),
            decreases evs.len() - pos,
        {
            if pos >= evs.len() {
                return Err(MamError::Unexpected { at: pos });
            }
            let p = pos;
            pos = pos + 1;
            let kind = evs[p].kind;
            if kind == EventKind::ReadError {
                return Err(MamError::Read { at: p });
            }
            if kind == EventKind::Start {
                let ev = &evs[p];
                let r = if is_named(ev, "slh-word") {
                    self.parse_slh_word(evs, pos, out)
                } else if is_named(ev, "kq") {
                    self.parse_kq(evs, pos, out)
                } else if is_named(ev, "cant-all-three") {
                    self.parse_cant_all_three(evs, pos, out)
                } else {
                    Err(MamError::Unexpected { at: p })
                };
                match r {
                    Ok(p2) => {
                        pos = p2;
                    },
                    Err(e) => {
                        return Err(e);
                    },
                }
            } else if kind == EventKind::Empty && (is_named(&evs[p], "text") || is_named(&evs[p], "kq-trivial")) {
                match self.expect_text_attr(evs, p, out) {
                    Ok(()) => {},
                    Err(e) => {
                        return Err(e);
                    },
                }
            } else if kind == EventKind::Empty && is_prefixed(&evs[p], "spi-") {
                continue;
            } else if kind == EventKind::End && is_named(&evs[p], "sdt-target") {
                return Ok(pos);
            } else {
                return Err(MamError::Unexpected { at: p });
            }
        }
    }

    /// Reads a `<sdt-note>` at `start`; when it gives the reading of the Spanish
    /// and Ashkenazi books, writes that reading and says so.
    fn write_besifrei_note(&mut self, evs: &[XmlEvent], start: usize, out: &mut Vec<u8>) -> (res: Result<(bool, usize), MamError>)
        requires
            start <= evs.len(),
            events_wf(evs@),
        ensures
            final(self).target == old(self).target,
            match spec_besifrei_note(old(self).target, evs@, state(start as int, old(out)@, old(self).wide_letter_elapsed)) {
                Ok((wrote, s)) => res matches Ok((w, p)) && w == wrote && p as int == s.pos && final(out)@ == s.out
                    && final(self).wide_letter_elapsed == s.elapsed,
                Err(e) => res == Err::<(bool, usize), MamError>(e),
            },
            res matches Ok((_, p2)) ==> start < p2 <= evs.len(),
    {
        let p = start;
        if p >= evs.len() {
            return Err(MamError::Unexpected { at: p });
        }
        let ev = &evs[p];
        if ev.kind == EventKind::ReadError {
            return Err(MamError::Read { at: p });
        }
        if ev.kind == EventKind::Start && is_named(ev, "sdt-note") {
            return Ok((false, p + 1));
        }
        if !(ev.kind == EventKind::Empty && is_named(ev, "sdt-note")) {
            return Err(MamError::Unexpected { at: p });
        }
        assert(event_wf(evs@[p as int]));
        let note = match get_text_attr(ev) {
            Err(_) => {
                return Err(MamError::Attribute { at: p });
            },
            Ok(None) => {
                return Err(MamError::ExpectedNoteText { at: p });
            },
            Ok(Some(note)) => note,
        };
        if bytes_eq_str(note.as_slice(), "בספרי ספרד ואשכנז וי״ו קטיעא") {
            return Ok((false, p + 1));
        }
        let first = "בספרי ספרד ואשכנז ";
        if starts_with_str(note.as_slice(), first) {
            let rest = bytes_from(note.as_slice(), first.as_bytes().len());
            return match self.write_text(rest.as_slice(), p, out, Ghost(p + 1)) {
                Ok(()) => Ok((true, p + 1)),
                Err(e) => Err(e),
            };
        }
        let second = "בספרי ספרד ורוב ספרי אשכנז ";
        if starts_with_str(note.as_slice(), second) {
            let rest = bytes_from(note.as_slice(), second.as_bytes().len());
            return match self.write_text(rest.as_slice(), p, out, Ghost(p + 1)) {
                Ok(()) => Ok((true, p + 1)),
                Err(e) => Err(e),
            };
        }
        Ok((false, p + 1))
    }

    /// Parses a `<scrdfftar>` element (scribal difference) from `start`, just after its start tag.
    fn parse_scrdfftar(&mut self, evs: &[XmlEvent], start: usize, out: &mut Vec<u8>) -> (res: Result<usize, MamError>)
        requires
            start <= evs.len(),
            events_wf(evs@),
        ensures
            final(self).target == old(self).target,
            outcome(
                spec_scrdfftar(old(self).target, evs@, state(start as int, old(out)@, old(self).wide_letter_elapsed)),
                res,
                final(out)@,
                final(self).wide_letter_elapsed,
            ),
            res matches Ok(p2) ==> start < p2 <= evs.len(),
    {
        let p = start;
        if p >= evs.len() {
            return Err(MamError::ExpectedSdtTarget { at: p });
        }
        let kind = evs[p].kind;
        let pos = if kind == EventKind::ReadError {
            return Err(MamError::Read { at: p });
        } else if kind == EventKind::Start && is_named(&evs[p], "sdt-target") {
            match self.parse_complicated_sdt(evs, p + 1, out) {
                Ok(p2) => p2,
                Err(e) => {
                    return Err(e);
                },
            }
        } else if kind == EventKind::Empty && is_named(&evs[p], "sdt-target") {
            assert(event_wf(evs@[p as int]));
            match get_text_attr(&evs[p]) {
                Err(_) => {
                    return Err(MamError::Attribute { at: p });
                },
                Ok(None) => p + 1,
                Ok(Some(target_text)) => match self.write_besifrei_note(evs, p + 1, out) {
                    Err(e) => {
                        return Err(e);
                    },
                    Ok((true, p2)) => p2,
                    Ok((false, p2)) => match self.write_text(target_text.as_slice(), p, out, Ghost(p2 as int)) {
                        Ok(()) => p2,
                        Err(e) => {
                            return Err(e);
                        },
                    },
                },
            }
        } else {
            return Err(MamError::ExpectedSdtTarget { at: p });
        };
        self.skip_to_end(evs, pos, "scrdfftar", Ghost(out@), Ghost(self.wide_letter_elapsed))
    }

    /// Parses an element nested in a verse, whose start tag is at `p`.
    fn parse_verse_child(&mut self, evs: &[XmlEvent], p: usize, out: &mut Vec<u8>) -> (res: Result<usize, MamError>)
        requires
            p < evs.len(),
            events_wf(evs@),
        ensures
            final(self).target == old(self).target,
            outcome(
                spec_verse_child(old(self).target, evs@, p as int, state(p + 1, old(out)@, old(self).wide_letter_elapsed)),
                res,
                final(out)@,
                final(self).wide_letter_elapsed,
            ),
            res matches Ok(p2) ==> p + 1 < p2 <= evs.len(),
    {
        reveal(spec_verse_child);
        let ev = &evs[p];
        if is_named(ev, "slh-word") {
            self.parse_slh_word(evs, p + 1, out)
        } else if is_named(ev, "scrdfftar") {
            self.parse_scrdfftar(evs, p + 1, out)
        } else if is_named(ev, "kq") {
            self.parse_kq(evs, p + 1, out)
        } else if is_named(ev, "cant-all-three") {
            self.parse_cant_all_three(evs, p + 1, out)
        } else {
            Err(MamError::Unexpected { at: p })
        }
    }

    /// Parses a `<verse>` element from `start`, just after its start tag.
    fn parse_complicated_verse(&mut self, evs: &[XmlEvent], start: usize, out: &mut Vec<u8>) -> (res: Result<usize, MamError>)
        requires
            start <= evs.len(),
            events_wf(evs@),
        ensures
            final(self).target == old(self).target,
            outcome(
                spec_verse(old(self).target, evs@, state(start as int, old(out)@, old(self).wide_letter_elapsed), false),
                res,
                final(out)@,
                final(self).wide_letter_elapsed,
            ),
            res matches Ok(p2) ==> start < p2 <= evs.len(),
    {
        let mut trailing_shirah_space = false;
        let mut pos = start;
        loop
            invariant
                self.target == old(self).target,
                start <= pos <= evs.len(),
                events_wf(evs@),
                spec_verse(self.target, evs@, state(pos as int, out@, self.wide_letter_elapsed), trailing_shirah_space)
                    == spec_verse(self.target, evs@, state(start as int, old(out)@, old(self).wide_letter_elapsed), false),
            decreases evs.len() - pos,
        {
            if pos >= evs.len() {
                return Err(MamError::Unexpected { at: pos });
            }
            let p = pos;
            pos = pos + 1;
            let kind = evs[p].kind;
            if kind == EventKind::ReadError {
                return Err(MamError::Read { at: p });
            }
            let ghost before = out@;
            if kind == EventKind::Empty && is_named(&evs[p], "shirah-space") {
                trailing_shirah_space = true;
                if self.target != Target::Search {
                    out.push(0x20);
                    assert(out@ == before + seq![0x20u8]);
                } else {
                    assert(out@ == before + Seq::<u8>::empty());
                }
                continue;
            }
            if kind == EventKind::End && is_named(&evs[p], "verse") {
                match self.target {
                    Target::Teamim => {
                        out.push(0x0A);
                        assert(out@ == before + seq![0x0Au8]);
                    },
                    Target::Training | Target::TrainingWideLetters => {
                        if !trailing_shirah_space {
                            out.push(0x20);
                            assert(out@ == before + seq![0x20u8]);
                        } else {
                            assert(out@ == before + Seq::<u8>::empty());
                        }
                    },
                    Target::Search => {
                        assert(out@ == before + Seq::<u8>::empty());
                    },
                }
                return Ok(pos);
            }
            trailing_shirah_space = false;
            if self.sof_pasuq(evs, p, out) {
                continue;
            }
            if kind == EventKind::Start {
                match self.parse_verse_child(evs, p, out) {
                    Ok(p2) => {
                        pos = p2;
                    },
                    Err(e) => {
                        return Err(e);
                    },
                }
            } else if kind == EventKind::Empty && (is_named(&evs[p], "text") || is_named(&evs[p], "kq-trivial")) {
                match self.expect_text_attr(evs, p, out) {
                    Ok(()) => {},
                    Err(e) => {
                        return Err(e);
                    },
                }
            } else if kind == EventKind::Empty && is_prefixed(&evs[p], "spi-") {
                continue;
            } else {
                return Err(MamError::Unexpected { at: p });
            }
        }
    }

    /// Parses the chapters of a book from `start` up to the end of the
    /// document, writing their text to `out`; returns the position after the
    /// last event read.  Under every target but [`Target::Teamim`] what it
    /// writes is UTF-8 text of the target's characters alone (see
    /// [`allowed_char`]): no line break, and for [`Target::Search`] no space.
    pub fn parse_chapters(&mut self, evs: &[XmlEvent], start: usize, out: &mut Vec<u8>) -> (res: Result<usize, MamError>)
        requires
            start <= evs.len(),
            events_wf(evs@),
        ensures
            final(self).target == old(self).target,
            outcome(
                spec_chapters(old(self).target, evs@, state(start as int, old(out)@, old(self).wide_letter_elapsed)),
                res,
                final(out)@,
                final(self).wide_letter_elapsed,
            ),
            old(self).target != Target::Teamim && res is Ok ==> grows(old(self).target, old(out)@, final(out)@),
    {
        let res = self.chapter_steps(evs, start, out);
        proof {
            if old(self).target != Target::Teamim {
                lemma_chapters_output(
                    old(self).target,
                    evs@,
                    state(start as int, old(out)@, old(self).wide_letter_elapsed),
                );
            }
        }
        res
    }

    /// The loop of [`Context::parse_chapters`].
    #[verifier::rlimit(60)]
    fn chapter_steps(&mut self, evs: &[XmlEvent], start: usize, out: &mut Vec<u8>) -> (res: Result<usize, MamError>)
        requires
            start <= evs.len(),
            events_wf(evs@),
        ensures
            final(self).target == old(self).target,
            outcome(
                spec_chapters(old(self).target, evs@, state(start as int, old(out)@, old(self).wide_letter_elapsed)),
                res,
                final(out)@,
                final(self).wide_letter_elapsed,
            ),
    {
        let mut pos = start;
        loop
            invariant
                self.target == old(self).target,
                start <= pos <= evs.len(),
                events_wf(evs@),
                spec_chapters(self.target, evs@, state(pos as int, out@, self.wide_letter_elapsed))
                    == spec_chapters(self.target, evs@, state(start as int, old(out)@, old(self).wide_letter_elapsed)),
            decreases evs.len() - pos,
        {
            if pos >= evs.len() {
                return Ok(pos);
            }
            let p = pos;
            pos = pos + 1;
            let kind = evs[p].kind;
            if kind == EventKind::ReadError {
                return Err(MamError::Read { at: p });
            }
            if kind == EventKind::Start {
                if is_named(&evs[p], "chapter") {
                    continue;
                } else if is_named(&evs[p], "verse") {
                    match self.parse_complicated_verse(evs, pos, out) {
                        Ok(p2) => {
                            pos = p2;
                        },
                        Err(e) => {
                            return Err(e);
                        },
                    }
                } else {
                    return Err(MamError::UnknownTag { at: p });
                }
            } else if kind == EventKind::Empty && is_named(&evs[p], "verse") {
                match self.expect_text_attr(evs, p, out) {
                    Ok(()) => {},
                    Err(e) => {
                        return Err(e);
                    },
                }
                let ghost before = out@;
                match self.target {
                    Target::Teamim => {
                        out.push(0x0A);
                    },
                    Target::TrainingWideLetters | Target::Training => {
                        out.push(0x20);
                    },
                    Target::Search => {},
                }
                assert(out@ == before + verse_separator(self.target));
            } else if kind == EventKind::Empty && is_prefixed(&evs[p], "spi-") {
                continue;
            } else if kind == EventKind::End {
                continue;
            } else if kind == EventKind::Eof {
                return Ok(pos);
            } else {
                return Err(MamError::Unexpected { at: p });
            }
        }
    }

    /// Writes `text`, taken from the event at `at`, shaped for the target.
    fn write_text(&mut self, text: &[u8], at: usize, out: &mut Vec<u8>, Ghost(pos): Ghost<int>) -> (res: Result<(), MamError>)
        ensures
            final(self).target == old(self).target,
            match spec_write_text(old(self).target, state(pos, old(out)@, old(self).wide_letter_elapsed), text@, at as int) {
                Ok(s) => res is Ok && final(out)@ == s.out && final(self).wide_letter_elapsed == s.elapsed,
                Err(e) => res == Err::<(), MamError>(e),
            },
            res is Err ==> final(out)@ == old(out)@ && final(self).wide_letter_elapsed == old(
                self,
            ).wide_letter_elapsed,
    {
        if self.target == Target::Teamim {
            append_bytes(out, text);
            return Ok(());
        }
        let s = match str_from_utf8(text) {
            None => {
                return Err(MamError::InvalidUtf8 { at });
            },
            Some(s) => s,
        };
        proof {
            encode_utf8_decode_utf8(s@);
        }
        let ghost chars = s@;
        let ghost out0 = out@;
        let ghost e0 = self.wide_letter_elapsed as nat;
        assert(chars == decode_utf8(text@));
        if self.target == Target::Search {
            for c in it: s.chars()
                invariant
                    it.seq() == chars,
                    out@ == out0 + search_bytes(chars.take(it.index() as int)),
            {
                let ghost i = it.index();
                assert(chars.take(i + 1).drop_last() == chars.take(i as int));
                if '\u{05d0}' <= c && c <= '\u{05ea}' {
                    push_char_utf8(out, c);
                }
            }
            assert(chars.take(chars.len() as int) == chars);
            Ok(())
        } else {
            let ghost t = self.target;
            for c in it: s.chars()
                invariant
                    it.seq() == chars,
                    self.target == t,
                    t != Target::Teamim && t != Target::Search,
                    out@ == out0 + training_bytes(t, e0, chars.take(it.index() as int)).0,
                    self.wide_letter_elapsed == training_bytes(t, e0, chars.take(it.index() as int)).1,
            {
                let ghost i = it.index();
                assert(chars.take(i + 1).drop_last() == chars.take(i as int));
                assert(chars.take(i + 1).last() == c);
                if ('\u{05d0}' <= c && c <= '\u{05ea}') || c == ' ' {
                    let shown = match wide_letter(c) {
                        Some(wide) => {
                            if self.target == Target::TrainingWideLetters {
                                if self.wide_letter_elapsed >= WIDE_LETTER_INTERVAL - 1 {
                                    self.wide_letter_elapsed = 0;
                                    wide
                                } else {
                                    self.wide_letter_elapsed = self.wide_letter_elapsed + 1;
                                    c
                                }
                            } else {
                                c
                            }
                        },
                        None => c,
                    };
                    push_char_utf8(out, shown);
                } else if c == '\u{05be}' {
                    out.push(0x20);
                }
                assert(out@ == out0 + training_bytes(t, e0, chars.take(i + 1)).0);
            }
            assert(chars.take(chars.len() as int) == chars);
            Ok(())
        }
    }
}

} // verus!
