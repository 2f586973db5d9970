//! What the extraction writes for each target: UTF-8 text of consonants only
//! (search), of consonants and spaces (training), and also of wide letters
//! (training with wide letters), never a line break; with the marks, one
//! verse per line (teamim).
use vstd::prelude::*;
use vstd::utf8::*;

use crate::mam::{
    advanced, is_hebrew_letter, sefarad_ashkenaz_prefix, sefarad_most_ashkenaz_prefix, is_sof_pasuq, named, prefixed, search_bytes, sof_pasuq_bytes, spec_besifrei_note,
    spec_cant_all_three, spec_cant_alef, spec_cant_end, spec_chapters, spec_complicated_cant, spec_complicated_sdt,
    spec_expect_text, spec_kq, spec_scrdfftar, spec_skip_element, spec_skip_to_end, spec_slh_word, spec_verse,
    spec_verse_child, spec_wide_letter, spec_write_text, text_attr_at, training_bytes, training_step, verse_separator,
    EventKind,
    MamError, ParseState, Parsed, Target, XmlEvent, WIDE_LETTER_INTERVAL,
};
use crate::training::spec_box_char;
use crate::utf8::{lemma_encode_append, lemma_encode_single};

verus! {

/// One of the wide presentation forms of Hebrew letters.
pub open spec fn is_wide_form(c: char) -> bool {
    '\u{fb21}' <= c <= '\u{fb28}'
}

/// Whether `c` may stand in the text written for target `t`.
pub open spec fn allowed_char(t: Target, c: char) -> bool {
    match t {
        Target::Teamim => true,
        Target::Search => is_hebrew_letter(c),
        Target::Training => is_hebrew_letter(c) || c == ' ',
        Target::TrainingWideLetters => is_hebrew_letter(c) || c == ' ' || is_wide_form(c),
    }
}

/// Whether `cs` holds only characters allowed for `t`.
pub open spec fn all_allowed(t: Target, cs: Seq<char>) -> bool {
    forall|i: int| 0 <= i < cs.len() ==> allowed_char(t, #[trigger] cs[i])
}

/// Whether `b` is the UTF-8 encoding of characters allowed for `t`.
pub open spec fn written_in(t: Target, b: Seq<u8>) -> bool {
    exists|cs: Seq<char>| encode_utf8(cs) == b && all_allowed(t, cs)
}

/// Whether `b` is `a` followed by text allowed for `t`.
pub open spec fn grows(t: Target, a: Seq<u8>, b: Seq<u8>) -> bool {
    a.len() <= b.len() && b.take(a.len() as int) == a && written_in(t, b.skip(a.len() as int))
}

/// Whether a successful parsing step from `s` only appended text allowed for `t`.
pub open spec fn step_grows(t: Target, s: ParseState, r: Parsed) -> bool {
    r matches Ok(s2) ==> grows(t, s.out, s2.out)
}

proof fn lemma_written_empty(t: Target)
    ensures
        written_in(t, Seq::empty()),
{
    let cs = Seq::<char>::empty();
    assert(encode_utf8(cs) =~= Seq::<u8>::empty());
    assert(all_allowed(t, cs));
}

proof fn lemma_written_concat(t: Target, a: Seq<u8>, b: Seq<u8>)
    requires
        written_in(t, a),
        written_in(t, b),
    ensures
        written_in(t, a + b),
{
    let ca = choose|cs: Seq<char>| encode_utf8(cs) == a && all_allowed(t, cs);
    let cb = choose|cs: Seq<char>| encode_utf8(cs) == b && all_allowed(t, cs);
    lemma_encode_append(ca, cb);
    let cs = ca + cb;
    assert forall|i: int| 0 <= i < cs.len() implies allowed_char(t, #[trigger] cs[i]) by {
        if i < ca.len() {
            assert(cs[i] == ca[i]);
        } else {
            assert(cs[i] == cb[i - ca.len()]);
        }
    }
}

proof fn lemma_written_char(t: Target, c: char)
    requires
        allowed_char(t, c),
    ensures
        written_in(t, encode_scalar(c as u32)),
{
    lemma_encode_single(c);
    let cs = seq![c];
    assert(all_allowed(t, cs));
}

proof fn lemma_written_space(t: Target)
    requires
        t == Target::Training || t == Target::TrainingWideLetters,
    ensures
        written_in(t, seq![0x20u8]),
{
    lemma_written_char(t, ' ');
    assert(0x20u32 & 0x7Fu32 == 0x20u32) by (bit_vector);
    assert(' ' as u32 == 0x20u32);
    assert(encode_scalar(' ' as u32) =~= seq![0x20u8]);
}

proof fn lemma_grows_refl(t: Target, a: Seq<u8>)
    ensures
        grows(t, a, a),
{
    lemma_written_empty(t);
    assert(a.take(a.len() as int) =~= a);
    assert(a.skip(a.len() as int) =~= Seq::<u8>::empty());
}

proof fn lemma_grows_append(t: Target, a: Seq<u8>, d: Seq<u8>)
    requires
        written_in(t, d),
    ensures
        grows(t, a, a + d),
{
    assert((a + d).take(a.len() as int) =~= a);
    assert((a + d).skip(a.len() as int) =~= d);
}

proof fn lemma_grows_trans(t: Target, a: Seq<u8>, b: Seq<u8>, c: Seq<u8>)
    requires
        grows(t, a, b),
        grows(t, b, c),
    ensures
        grows(t, a, c),
{
    assert(c.take(a.len() as int) =~= b.take(a.len() as int));
    assert(c.skip(a.len() as int) =~= b.skip(a.len() as int) + c.skip(b.len() as int));
    lemma_written_concat(t, b.skip(a.len() as int), c.skip(b.len() as int));
}

/// The search target writes consonants only.
proof fn lemma_search_bytes(chars: Seq<char>)
    ensures
        written_in(Target::Search, search_bytes(chars)),
    decreases chars.len(),
{
    if chars.len() == 0 {
        lemma_written_empty(Target::Search);
    } else {
        lemma_search_bytes(chars.drop_last());
        let c = chars.last();
        if is_hebrew_letter(c) {
            lemma_written_char(Target::Search, c);
            lemma_written_concat(Target::Search, search_bytes(chars.drop_last()), encode_scalar(c as u32));
        } else {
            lemma_written_empty(Target::Search);
            lemma_written_concat(Target::Search, search_bytes(chars.drop_last()), Seq::empty());
            assert(search_bytes(chars.drop_last()) + Seq::<u8>::empty() =~= search_bytes(chars.drop_last()));
        }
    }
}

/// A wide form is one of the wide presentation forms.
proof fn lemma_wide_form(c: char)
    ensures
        spec_wide_letter(c) matches Some(w) ==> is_wide_form(w),
{
}

/// The training targets write consonants, spaces and, for the wide target,
/// wide letters.
proof fn lemma_training_bytes(t: Target, elapsed: nat, chars: Seq<char>)
    requires
        t == Target::Training || t == Target::TrainingWideLetters,
    ensures
        written_in(t, training_bytes(t, elapsed, chars).0),
    decreases chars.len(),
{
    if chars.len() == 0 {
        lemma_written_empty(t);
        assert(training_bytes(t, elapsed, chars).0 =~= Seq::<u8>::empty());
    } else {
        let (prefix, e) = training_bytes(t, elapsed, chars.drop_last());
        lemma_training_bytes(t, elapsed, chars.drop_last());
        let c = chars.last();
        let (last, e2) = training_step(t, e, c);
        if is_hebrew_letter(c) || c == ' ' {
            lemma_wide_form(c);
            match spec_wide_letter(c) {
                Some(w) => {
                    if t == Target::TrainingWideLetters && e + 1 >= WIDE_LETTER_INTERVAL {
                        lemma_written_char(t, w);
                    } else {
                        lemma_written_char(t, c);
                    }
                },
                None => {
                    lemma_written_char(t, c);
                },
            }
        } else if c == '\u{05be}' {
            lemma_written_space(t);
        } else {
            lemma_written_empty(t);
        }
        lemma_written_concat(t, prefix, last);
    }
}

/// Writing a text for a target other than the plain one appends allowed text.
pub proof fn lemma_write_text(t: Target, s: ParseState, text: Seq<u8>, at: int)
    requires
        t != Target::Teamim,
    ensures
        step_grows(t, s, spec_write_text(t, s, text, at)),
{
    if valid_utf8(text) {
        if t == Target::Search {
            lemma_search_bytes(decode_utf8(text));
            lemma_grows_append(t, s.out, search_bytes(decode_utf8(text)));
        } else {
            lemma_training_bytes(t, s.elapsed, decode_utf8(text));
            lemma_grows_append(t, s.out, training_bytes(t, s.elapsed, decode_utf8(text)).0);
        }
    }
}

proof fn lemma_expect_text(t: Target, evs: Seq<XmlEvent>, p: int, s: ParseState)
    requires
        t != Target::Teamim,
    ensures
        step_grows(t, s, spec_expect_text(t, evs, p, s)),
{
    if let Ok(Some(text)) = text_attr_at(evs, p) {
        lemma_write_text(t, s, text, p);
    }
}

proof fn lemma_sof_pasuq(t: Target, a: Seq<u8>)
    requires
        t != Target::Teamim,
    ensures
        grows(t, a, a + sof_pasuq_bytes(t)),
{
    if t == Target::Search {
        lemma_written_empty(t);
        assert(sof_pasuq_bytes(t) =~= Seq::<u8>::empty());
    } else {
        lemma_written_space(t);
    }
    lemma_grows_append(t, a, sof_pasuq_bytes(t));
}

proof fn lemma_separator(t: Target, a: Seq<u8>)
    requires
        t != Target::Teamim,
    ensures
        grows(t, a, a + verse_separator(t)),
{
    if t == Target::Search {
        lemma_written_empty(t);
        assert(verse_separator(t) =~= Seq::<u8>::empty());
    } else {
        lemma_written_space(t);
    }
    lemma_grows_append(t, a, verse_separator(t));
}

proof fn lemma_skip_to_end(t: Target, evs: Seq<XmlEvent>, s: ParseState, tag: &str)
    ensures
        spec_skip_to_end(evs, s, tag) matches Ok(s2) ==> s2.out == s.out && step_grows(t, s, spec_skip_to_end(evs, s, tag)),
    decreases evs.len() - s.pos,
{
    lemma_grows_refl(t, s.out);
    let p = s.pos;
    if 0 <= p < evs.len() && evs[p].kind != EventKind::ReadError && evs[p].kind != EventKind::Eof && !(evs[p].kind
        == EventKind::End && named(evs, p, tag)) {
        lemma_skip_to_end(t, evs, advanced(s), tag);
    }
}

/// A step that appends allowed text, followed by one whose outcome appends
/// allowed text, appends allowed text.
proof fn lemma_then(t: Target, s: ParseState, s2: ParseState, r: Parsed)
    requires
        grows(t, s.out, s2.out),
        step_grows(t, s2, r),
    ensures
        step_grows(t, s, r),
{
    if let Ok(s3) = r {
        lemma_grows_trans(t, s.out, s2.out, s3.out);
    }
}

proof fn lemma_slh_word(t: Target, evs: Seq<XmlEvent>, s: ParseState)
    requires
        t != Target::Teamim,
    ensures
        step_grows(t, s, spec_slh_word(t, evs, s)),
    decreases evs.len() - s.pos,
{
    let p = s.pos;
    if 0 <= p < evs.len() {
        let s1 = advanced(s);
        let k = evs[p].kind;
        if k == EventKind::ReadError {
        } else if is_sof_pasuq(evs, p) {
            let s2 = ParseState { out: s1.out + sof_pasuq_bytes(t), ..s1 };
            lemma_sof_pasuq(t, s.out);
            lemma_slh_word(t, evs, s2);
            lemma_then(t, s, s2, spec_slh_word(t, evs, s2));
        } else if k == EventKind::Empty {
            if named(evs, p, "text") || named(evs, p, "letter-large") || named(evs, p, "letter-small") {
                lemma_expect_text(t, evs, p, s1);
                if let Ok(s2) = spec_expect_text(t, evs, p, s1) {
                    let s3 = ParseState { pos: p + 1, ..s2 };
                    lemma_slh_word(t, evs, s3);
                    lemma_then(t, s, s3, spec_slh_word(t, evs, s3));
                }
            }
        } else if k == EventKind::End && named(evs, p, "slh-word") {
            lemma_grows_refl(t, s.out);
        }
    }
}

proof fn lemma_kq(t: Target, evs: Seq<XmlEvent>, s: ParseState, found_q: bool, found_k: bool)
    requires
        t != Target::Teamim,
    ensures
        step_grows(t, s, spec_kq(t, evs, s, found_q, found_k)),
    decreases evs.len() - s.pos,
{
    let p = s.pos;
    if 0 <= p < evs.len() {
        let s1 = advanced(s);
        let k = evs[p].kind;
        lemma_grows_refl(t, s.out);
        if k == EventKind::ReadError {
        } else if k == EventKind::Empty {
            if named(evs, p, "kq-q") {
                if !found_q {
                    lemma_kq(t, evs, s1, true, found_k);
                    lemma_then(t, s, s1, spec_kq(t, evs, s1, true, found_k));
                }
            } else if named(evs, p, "kq-k") {
                if !found_k {
                    lemma_expect_text(t, evs, p, s1);
                    if let Ok(s2) = spec_expect_text(t, evs, p, s1) {
                        let s3 = ParseState { pos: p + 1, ..s2 };
                        lemma_kq(t, evs, s3, found_q, true);
                        lemma_then(t, s, s3, spec_kq(t, evs, s3, found_q, true));
                    }
                }
            }
        }
    }
}

proof fn lemma_complicated_cant(t: Target, evs: Seq<XmlEvent>, s: ParseState)
    requires
        t != Target::Teamim,
    ensures
        step_grows(t, s, spec_complicated_cant(t, evs, s)),
    decreases evs.len() - s.pos,
{
    let p = s.pos;
    if 0 <= p < evs.len() {
        let s1 = advanced(s);
        let k = evs[p].kind;
        lemma_grows_refl(t, s.out);
        if k == EventKind::ReadError {
        } else if is_sof_pasuq(evs, p) {
            let s2 = ParseState { out: s1.out + sof_pasuq_bytes(t), ..s1 };
            lemma_sof_pasuq(t, s.out);
            lemma_complicated_cant(t, evs, s2);
            lemma_then(t, s, s2, spec_complicated_cant(t, evs, s2));
        } else if k == EventKind::Empty && named(evs, p, "text") {
            lemma_expect_text(t, evs, p, s1);
            if let Ok(s2) = spec_expect_text(t, evs, p, s1) {
                let s3 = ParseState { pos: p + 1, ..s2 };
                lemma_complicated_cant(t, evs, s3);
                lemma_then(t, s, s3, spec_complicated_cant(t, evs, s3));
            }
        } else if k == EventKind::Empty && prefixed(evs, p, "spi-") {
            lemma_complicated_cant(t, evs, s1);
            lemma_then(t, s, s1, spec_complicated_cant(t, evs, s1));
        }
    }
}

proof fn lemma_skip_element(t: Target, evs: Seq<XmlEvent>, s: ParseState, tag: &str, missing: MamError)
    ensures
        step_grows(t, s, spec_skip_element(evs, s, tag, missing)),
{
    lemma_grows_refl(t, s.out);
    let p = s.pos;
    if 0 <= p < evs.len() && evs[p].kind == EventKind::Start && named(evs, p, tag) {
        lemma_skip_to_end(t, evs, advanced(s), tag);
    }
}

proof fn lemma_cant_all_three(t: Target, evs: Seq<XmlEvent>, s: ParseState)
    requires
        t != Target::Teamim,
    ensures
        step_grows(t, s, spec_cant_all_three(t, evs, s)),
{
    lemma_grows_refl(t, s.out);
    let combined = MamError::ExpectedCombined { at: s.pos as usize };
    lemma_skip_element(t, evs, s, "cant-combined", combined);
    if let Ok(s2) = spec_skip_element(evs, s, "cant-combined", combined) {
        let p = s2.pos;
        lemma_grows_refl(t, s2.out);
        if 0 <= p < evs.len() && evs[p].kind == EventKind::Empty && named(evs, p, "cant-alef") {
            lemma_expect_text(t, evs, p, advanced(s2));
        } else if 0 <= p < evs.len() && evs[p].kind == EventKind::Start && named(evs, p, "cant-alef") {
            lemma_complicated_cant(t, evs, advanced(s2));
        }
        assert(step_grows(t, s2, spec_cant_alef(t, evs, s2)));
        if let Ok(s3) = spec_cant_alef(t, evs, s2) {
            lemma_grows_trans(t, s.out, s2.out, s3.out);
            let bet = MamError::ExpectedBet { at: s3.pos as usize };
            lemma_skip_element(t, evs, s3, "cant-bet", bet);
            if let Ok(s4) = spec_skip_element(evs, s3, "cant-bet", bet) {
                lemma_grows_trans(t, s.out, s3.out, s4.out);
                lemma_grows_refl(t, s4.out);
                assert(step_grows(t, s4, spec_cant_end(evs, s4)));
                lemma_then(t, s, s4, spec_cant_end(evs, s4));
            }
        }
    }
}

proof fn lemma_complicated_sdt(t: Target, evs: Seq<XmlEvent>, s: ParseState)
    requires
        t != Target::Teamim,
    ensures
        step_grows(t, s, spec_complicated_sdt(t, evs, s)),
    decreases evs.len() - s.pos,
{
    let p = s.pos;
    let len = evs.len() as int;
    if 0 <= p < len {
        let s1 = advanced(s);
        let k = evs[p].kind;
        lemma_grows_refl(t, s.out);
        if k == EventKind::ReadError {
        } else if k == EventKind::Start {
            let r = if named(evs, p, "slh-word") {
                lemma_slh_word(t, evs, s1);
                spec_slh_word(t, evs, s1)
            } else if named(evs, p, "kq") {
                lemma_kq(t, evs, s1, false, false);
                spec_kq(t, evs, s1, false, false)
            } else if named(evs, p, "cant-all-three") {
                lemma_cant_all_three(t, evs, s1);
                spec_cant_all_three(t, evs, s1)
            } else {
                Err(MamError::Unexpected { at: p as usize })
            };
            if let Ok(s2) = r {
                if s.pos < s2.pos <= len {
                    lemma_complicated_sdt(t, evs, s2);
                    lemma_then(t, s, s2, spec_complicated_sdt(t, evs, s2));
                }
            }
        } else if k == EventKind::Empty && (named(evs, p, "text") || named(evs, p, "kq-trivial")) {
            lemma_expect_text(t, evs, p, s1);
            if let Ok(s2) = spec_expect_text(t, evs, p, s1) {
                let s3 = ParseState { pos: p + 1, ..s2 };
                lemma_complicated_sdt(t, evs, s3);
                lemma_then(t, s, s3, spec_complicated_sdt(t, evs, s3));
            }
        } else if k == EventKind::Empty && prefixed(evs, p, "spi-") {
            lemma_complicated_sdt(t, evs, s1);
            lemma_then(t, s, s1, spec_complicated_sdt(t, evs, s1));
        }
    }
}

proof fn lemma_besifrei_note(t: Target, evs: Seq<XmlEvent>, s: ParseState)
    requires
        t != Target::Teamim,
    ensures
        spec_besifrei_note(t, evs, s) matches Ok((_, s2)) ==> grows(t, s.out, s2.out),
{
    lemma_grows_refl(t, s.out);
    let p = s.pos;
    if 0 <= p < evs.len() && evs[p].kind == EventKind::Empty && named(evs, p, "sdt-note") {
        let s1 = advanced(s);
        if let Ok(Some(note)) = text_attr_at(evs, p) {
            lemma_write_text(t, s1, note.skip(sefarad_ashkenaz_prefix().len() as int), p);
            lemma_write_text(t, s1, note.skip(sefarad_most_ashkenaz_prefix().len() as int), p);
        }
    }
}

proof fn lemma_scrdfftar(t: Target, evs: Seq<XmlEvent>, s: ParseState)
    requires
        t != Target::Teamim,
    ensures
        step_grows(t, s, spec_scrdfftar(t, evs, s)),
{
    let p = s.pos;
    lemma_grows_refl(t, s.out);
    let r: Parsed = if p < 0 || p >= evs.len() {
        Err(MamError::ExpectedSdtTarget { at: p as usize })
    } else if evs[p].kind == EventKind::ReadError {
        Err(MamError::Read { at: p as usize })
    } else if evs[p].kind == EventKind::Start && named(evs, p, "sdt-target") {
        lemma_complicated_sdt(t, evs, advanced(s));
        spec_complicated_sdt(t, evs, advanced(s))
    } else if evs[p].kind == EventKind::Empty && named(evs, p, "sdt-target") {
        match text_attr_at(evs, p) {
            Err(_) => Err(MamError::Attribute { at: p as usize }),
            Ok(None) => Ok(advanced(s)),
            Ok(Some(target_text)) => {
                lemma_besifrei_note(t, evs, advanced(s));
                match spec_besifrei_note(t, evs, advanced(s)) {
                    Err(e) => Err(e),
                    Ok((true, s2)) => Ok(s2),
                    Ok((false, s2)) => {
                        lemma_write_text(t, s2, target_text, p);
                        lemma_then(t, s, s2, spec_write_text(t, s2, target_text, p));
                        spec_write_text(t, s2, target_text, p)
                    },
                }
            },
        }
    } else {
        Err(MamError::ExpectedSdtTarget { at: p as usize })
    };
    assert(step_grows(t, s, r));
    if let Ok(s3) = r {
        lemma_skip_to_end(t, evs, s3, "scrdfftar");
        lemma_then(t, s, s3, spec_skip_to_end(evs, s3, "scrdfftar"));
    }
}

proof fn lemma_verse_child(t: Target, evs: Seq<XmlEvent>, p: int, s: ParseState)
    requires
        t != Target::Teamim,
    ensures
        step_grows(t, s, spec_verse_child(t, evs, p, s)),
{
    reveal(spec_verse_child);
    if named(evs, p, "slh-word") {
        lemma_slh_word(t, evs, s);
    } else if named(evs, p, "scrdfftar") {
        lemma_scrdfftar(t, evs, s);
    } else if named(evs, p, "kq") {
        lemma_kq(t, evs, s, false, false);
    } else if named(evs, p, "cant-all-three") {
        lemma_cant_all_three(t, evs, s);
    }
}

proof fn lemma_verse(t: Target, evs: Seq<XmlEvent>, s: ParseState, trailing: bool)
    requires
        t != Target::Teamim,
    ensures
        step_grows(t, s, spec_verse(t, evs, s, trailing)),
    decreases evs.len() - s.pos,
{
    let p = s.pos;
    let len = evs.len() as int;
    if 0 <= p < len {
        let s1 = advanced(s);
        let k = evs[p].kind;
        lemma_grows_refl(t, s.out);
        if k == EventKind::ReadError {
        } else if k == EventKind::Empty && named(evs, p, "shirah-space") {
            let sp = if t != Target::Search {
                lemma_written_space(t);
                seq![0x20u8]
            } else {
                lemma_written_empty(t);
                seq![]
            };
            let s2 = ParseState { out: s1.out + sp, ..s1 };
            lemma_grows_append(t, s.out, sp);
            lemma_verse(t, evs, s2, true);
            lemma_then(t, s, s2, spec_verse(t, evs, s2, true));
        } else if k == EventKind::End && named(evs, p, "verse") {
            let end: Seq<u8> = match t {
                Target::Teamim => seq![0x0Au8],
                Target::Training | Target::TrainingWideLetters => if !trailing {
                    seq![0x20u8]
                } else {
                    seq![]
                },
                Target::Search => seq![],
            };
            if end.len() == 0 {
                lemma_written_empty(t);
                assert(end =~= Seq::<u8>::empty());
            } else {
                lemma_written_space(t);
            }
            lemma_grows_append(t, s.out, end);
        } else if is_sof_pasuq(evs, p) {
            let s2 = ParseState { out: s1.out + sof_pasuq_bytes(t), ..s1 };
            lemma_sof_pasuq(t, s.out);
            lemma_verse(t, evs, s2, false);
            lemma_then(t, s, s2, spec_verse(t, evs, s2, false));
        } else if k == EventKind::Start {
            lemma_verse_child(t, evs, p, s1);
            if let Ok(s2) = spec_verse_child(t, evs, p, s1) {
                if s.pos < s2.pos <= len {
                    lemma_verse(t, evs, s2, false);
                    lemma_then(t, s, s2, spec_verse(t, evs, s2, false));
                }
            }
        } else if k == EventKind::Empty && (named(evs, p, "text") || named(evs, p, "kq-trivial")) {
            lemma_expect_text(t, evs, p, s1);
            if let Ok(s2) = spec_expect_text(t, evs, p, s1) {
                let s3 = ParseState { pos: p + 1, ..s2 };
                lemma_verse(t, evs, s3, false);
                lemma_then(t, s, s3, spec_verse(t, evs, s3, false));
            }
        } else if k == EventKind::Empty && prefixed(evs, p, "spi-") {
            lemma_verse(t, evs, s1, false);
            lemma_then(t, s, s1, spec_verse(t, evs, s1, false));
        }
    }
}

/// Under every target but [`Target::Teamim`], what the chapters of a book
/// append to the output is UTF-8 text of the target's characters alone:
/// consonants for [`Target::Search`]; consonants and spaces for
/// [`Target::Training`]; those and the wide letters for
/// [`Target::TrainingWideLetters`].  So neither writes a line break.
pub proof fn lemma_chapters_output(t: Target, evs: Seq<XmlEvent>, s: ParseState)
    requires
        t != Target::Teamim,
    ensures
        step_grows(t, s, spec_chapters(t, evs, s)),
    decreases evs.len() - s.pos,
{
    let p = s.pos;
    let len = evs.len() as int;
    lemma_grows_refl(t, s.out);
    if 0 <= p < len {
        let s1 = advanced(s);
        let k = evs[p].kind;
        if k == EventKind::ReadError {
        } else if k == EventKind::Start {
            if named(evs, p, "chapter") {
                lemma_chapters_output(t, evs, s1);
            } else if named(evs, p, "verse") {
                lemma_verse(t, evs, s1, false);
                if let Ok(s2) = spec_verse(t, evs, s1, false) {
                    if s.pos < s2.pos <= len {
                        lemma_chapters_output(t, evs, s2);
                        lemma_then(t, s, s2, spec_chapters(t, evs, s2));
                    }
                }
            }
        } else if k == EventKind::Empty && named(evs, p, "verse") {
            lemma_expect_text(t, evs, p, s1);
            if let Ok(s2) = spec_expect_text(t, evs, p, s1) {
                let s3 = ParseState { pos: p + 1, out: s2.out + verse_separator(t), elapsed: s2.elapsed };
                lemma_separator(t, s2.out);
                lemma_grows_trans(t, s.out, s2.out, s3.out);
                lemma_chapters_output(t, evs, s3);
                lemma_then(t, s, s3, spec_chapters(t, evs, s3));
            }
        } else if k == EventKind::Empty && prefixed(evs, p, "spi-") {
            lemma_chapters_output(t, evs, s1);
        } else if k == EventKind::End {
            lemma_chapters_output(t, evs, s1);
        }
    }
}

/// No character allowed in the search or training text is a line break.
pub proof fn lemma_no_line_break(t: Target, c: char)
    requires
        t != Target::Teamim,
        allowed_char(t, c),
    ensures
        c != '\n',
{
}

/// Under [`Target::Teamim`] every verse element ends its line: what a
/// successful verse leaves in the output ends with a line break.
pub proof fn lemma_teamim_verse_ends_line(evs: Seq<XmlEvent>, s: ParseState, trailing: bool)
    ensures
        spec_verse(Target::Teamim, evs, s, trailing) matches Ok(s2) ==> s2.out.len() > 0 && s2.out.last() == 0x0Au8,
    decreases evs.len() - s.pos,
{
    let t = Target::Teamim;
    let p = s.pos;
    let len = evs.len() as int;
    if 0 <= p < len {
        let s1 = advanced(s);
        let k = evs[p].kind;
        if k == EventKind::ReadError {
        } else if k == EventKind::Empty && named(evs, p, "shirah-space") {
            lemma_teamim_verse_ends_line(evs, ParseState { out: s1.out + seq![0x20u8], ..s1 }, true);
        } else if k == EventKind::End && named(evs, p, "verse") {
        } else if is_sof_pasuq(evs, p) {
            lemma_teamim_verse_ends_line(evs, ParseState { out: s1.out + sof_pasuq_bytes(t), ..s1 }, false);
        } else if k == EventKind::Start {
            if let Ok(s2) = spec_verse_child(t, evs, p, s1) {
                if s.pos < s2.pos <= len {
                    lemma_teamim_verse_ends_line(evs, s2, false);
                }
            }
        } else if k == EventKind::Empty && (named(evs, p, "text") || named(evs, p, "kq-trivial")) {
            if let Ok(s2) = spec_expect_text(t, evs, p, s1) {
                lemma_teamim_verse_ends_line(evs, ParseState { pos: p + 1, ..s2 }, false);
            }
        } else if k == EventKind::Empty && prefixed(evs, p, "spi-") {
            lemma_teamim_verse_ends_line(evs, s1, false);
        }
    }
}

/// Under [`Target::TrainingWideLetters`] fewer than
/// [`WIDE_LETTER_INTERVAL`] letters with a wide form are written plainly in
/// a row: the count of them since the last wide one stays below it (and at
/// most it, from any count at most it).
pub proof fn lemma_wide_interval(elapsed: nat, chars: Seq<char>)
    ensures
        elapsed < WIDE_LETTER_INTERVAL ==> training_bytes(Target::TrainingWideLetters, elapsed, chars).1
            < WIDE_LETTER_INTERVAL,
        elapsed <= WIDE_LETTER_INTERVAL ==> training_bytes(Target::TrainingWideLetters, elapsed, chars).1
            <= WIDE_LETTER_INTERVAL,
    decreases chars.len(),
{
    if chars.len() > 0 {
        lemma_wide_interval(elapsed, chars.drop_last());
    }
}

/// The step for a letter with a wide form, once the letters with a wide form
/// written plainly since the last wide one are one short of the interval,
/// writes the wide form and starts the count again; before that it writes
/// the letter plainly and counts it.
pub proof fn lemma_wide_step(elapsed: nat, c: char)
    requires
        spec_wide_letter(c) is Some,
    ensures
        elapsed + 1 >= WIDE_LETTER_INTERVAL ==> training_step(Target::TrainingWideLetters, elapsed, c) == (
            encode_scalar(spec_wide_letter(c)->0 as u32),
            0nat,
        ),
        elapsed + 1 < WIDE_LETTER_INTERVAL ==> training_step(Target::TrainingWideLetters, elapsed, c) == (
            encode_scalar(c as u32),
            elapsed + 1,
        ),
{
}

/// Only the wide target counts, and only letters with a wide form.
pub proof fn lemma_counter_unchanged(t: Target, elapsed: nat, chars: Seq<char>)
    requires
        t != Target::TrainingWideLetters || forall|i: int| 0 <= i < chars.len() ==> spec_wide_letter(
            #[trigger] chars[i],
        ) is None,
    ensures
        training_bytes(t, elapsed, chars).1 == elapsed,
    decreases chars.len(),
{
    if chars.len() > 0 {
        lemma_counter_unchanged(t, elapsed, chars.drop_last());
        assert(t != Target::TrainingWideLetters ==> true);
        if t == Target::TrainingWideLetters {
            assert(spec_wide_letter(chars[chars.len() - 1]) is None);
        }
    }
}

/// What one character becomes in the training targets, as characters, and
/// the new count; [`training_step`] writes their encoding.
pub open spec fn training_char_step(t: Target, elapsed: nat, c: char) -> (Seq<char>, nat) {
    if is_hebrew_letter(c) || c == ' ' {
        match spec_wide_letter(c) {
            Some(w) => if t == Target::TrainingWideLetters {
                if elapsed + 1 >= WIDE_LETTER_INTERVAL {
                    (seq![w], 0)
                } else {
                    (seq![c], elapsed + 1)
                }
            } else {
                (seq![c], elapsed)
            },
            None => (seq![c], elapsed),
        }
    } else if c == '\u{05be}' {
        (seq![' '], elapsed)
    } else {
        (Seq::empty(), elapsed)
    }
}

/// The characters written for `chars` under the training targets.
pub open spec fn training_chars(t: Target, elapsed: nat, chars: Seq<char>) -> (Seq<char>, nat)
    decreases chars.len(),
{
    if chars.len() == 0 {
        (Seq::empty(), elapsed)
    } else {
        let (prefix, e) = training_chars(t, elapsed, chars.drop_last());
        let (last, e2) = training_char_step(t, e, chars.last());
        (prefix + last, e2)
    }
}

/// `s` without its spaces.
pub open spec fn without_spaces(s: Seq<char>) -> Seq<char>
    decreases s.len(),
{
    if s.len() == 0 {
        Seq::empty()
    } else if s.last() == ' ' {
        without_spaces(s.drop_last())
    } else {
        without_spaces(s.drop_last()).push(s.last())
    }
}

/// `s` with each wide letter replaced by its plain letter.
pub open spec fn narrowed(s: Seq<char>) -> Seq<char> {
    s.map_values(|c: char| spec_box_char(c, true))
}

proof fn lemma_without_spaces_append(a: Seq<char>, b: Seq<char>)
    ensures
        without_spaces(a + b) == without_spaces(a) + without_spaces(b),
    decreases b.len(),
{
    if b.len() == 0 {
        assert(a + b =~= a);
        assert(without_spaces(a) + without_spaces(b) =~= without_spaces(a));
    } else {
        assert((a + b).drop_last() =~= a + b.drop_last());
        lemma_without_spaces_append(a, b.drop_last());
        if b.last() != ' ' {
            assert(without_spaces(a) + without_spaces(b.drop_last()).push(b.last()) =~= (without_spaces(a)
                + without_spaces(b.drop_last())).push(b.last()));
        }
    }
}

proof fn lemma_without_spaces_single(c: char)
    ensures
        without_spaces(seq![c]) == if c == ' ' {
            Seq::<char>::empty()
        } else {
            seq![c]
        },
{
    assert(seq![c].drop_last() =~= Seq::<char>::empty());
    assert(seq![c].last() == c);
    assert(without_spaces(Seq::<char>::empty()) == Seq::<char>::empty());
    assert(Seq::<char>::empty().push(c) =~= seq![c]);
}

/// The training targets write the encoding of [`training_chars`].
pub proof fn lemma_training_chars(t: Target, elapsed: nat, chars: Seq<char>)
    ensures
        training_bytes(t, elapsed, chars).0 == encode_utf8(training_chars(t, elapsed, chars).0),
        training_bytes(t, elapsed, chars).1 == training_chars(t, elapsed, chars).1,
    decreases chars.len(),
{
    if chars.len() == 0 {
        assert(encode_utf8(Seq::<char>::empty()) =~= Seq::<u8>::empty());
        assert(training_bytes(t, elapsed, chars).0 =~= Seq::<u8>::empty());
    } else {
        lemma_training_chars(t, elapsed, chars.drop_last());
        let (prefix, e) = training_chars(t, elapsed, chars.drop_last());
        let c = chars.last();
        let (last, _) = training_char_step(t, e, c);
        lemma_encode_append(prefix, last);
        if is_hebrew_letter(c) || c == ' ' {
            match spec_wide_letter(c) {
                Some(w) => {
                    lemma_encode_single(w);
                    lemma_encode_single(c);
                },
                None => lemma_encode_single(c),
            }
        } else if c == '\u{05be}' {
            lemma_encode_single(' ');
            assert(0x20u32 & 0x7Fu32 == 0x20u32) by (bit_vector);
            assert(' ' as u32 == 0x20u32);
            assert(encode_scalar(' ' as u32) =~= seq![0x20u8]);
        } else {
            assert(encode_utf8(Seq::<char>::empty()) =~= Seq::<u8>::empty());
        }
    }
}

/// The search target writes the characters that the training target writes,
/// without their spaces.
pub proof fn lemma_search_is_training_without_spaces(elapsed: nat, chars: Seq<char>)
    ensures
        search_bytes(chars) == encode_utf8(without_spaces(training_chars(Target::Training, elapsed, chars).0)),
    decreases chars.len(),
{
    if chars.len() == 0 {
        assert(encode_utf8(Seq::<char>::empty()) =~= Seq::<u8>::empty());
    } else {
        lemma_search_is_training_without_spaces(elapsed, chars.drop_last());
        let (prefix, e) = training_chars(Target::Training, elapsed, chars.drop_last());
        let c = chars.last();
        let (last, _) = training_char_step(Target::Training, e, c);
        lemma_without_spaces_append(prefix, last);
        lemma_encode_append(without_spaces(prefix), without_spaces(last));
        if is_hebrew_letter(c) {
            assert(last == seq![c]);
            lemma_without_spaces_single(c);
            lemma_encode_single(c);
        } else {
            if last.len() > 0 {
                lemma_without_spaces_single(' ');
                assert(last =~= seq![' ']);
            }
            assert(without_spaces(last) =~= Seq::<char>::empty());
            assert(encode_utf8(Seq::<char>::empty()) =~= Seq::<u8>::empty());
            assert(search_bytes(chars.drop_last()) + Seq::<u8>::empty() =~= search_bytes(chars.drop_last()));
        }
    }
}

/// Narrowing the wide letters of what the wide target writes gives what the
/// training target writes, whatever the counts were.
pub proof fn lemma_narrowed_wide_is_training(k: nat, elapsed: nat, chars: Seq<char>)
    ensures
        narrowed(training_chars(Target::TrainingWideLetters, k, chars).0) == training_chars(
            Target::Training,
            elapsed,
            chars,
        ).0,
    decreases chars.len(),
{
    if chars.len() > 0 {
        lemma_narrowed_wide_is_training(k, elapsed, chars.drop_last());
        let (pw, ew) = training_chars(Target::TrainingWideLetters, k, chars.drop_last());
        let (pt, et) = training_chars(Target::Training, elapsed, chars.drop_last());
        let c = chars.last();
        let (lw, _) = training_char_step(Target::TrainingWideLetters, ew, c);
        let (lt, _) = training_char_step(Target::Training, et, c);
        assert(narrowed(pw + lw) =~= narrowed(pw) + narrowed(lw));
        assert(narrowed(lw) =~= lt);
    }
}

/// What writing one valid UTF-8 text gives under the three plain-text
/// targets, from any state: the training target writes characters `cs` and
/// keeps the count; the search target writes `cs` without its spaces and
/// keeps the count; the wide target writes characters that narrow to `cs`,
/// with the count staying below [`WIDE_LETTER_INTERVAL`] when it was.
pub proof fn lemma_write_text_targets(s: ParseState, text: Seq<u8>, at: int)
    requires
        valid_utf8(text),
    ensures
        ({
            let cs = training_chars(Target::Training, s.elapsed, decode_utf8(text)).0;
            &&& spec_write_text(Target::Training, s, text, at) == Ok::<ParseState, MamError>(
                ParseState { out: s.out + encode_utf8(cs), ..s },
            )
            &&& spec_write_text(Target::Search, s, text, at) == Ok::<ParseState, MamError>(
                ParseState { out: s.out + encode_utf8(without_spaces(cs)), ..s },
            )
            &&& spec_write_text(Target::TrainingWideLetters, s, text, at) matches Ok(s2) && s2.pos == s.pos
                && s2.out == s.out + encode_utf8(
                training_chars(Target::TrainingWideLetters, s.elapsed, decode_utf8(text)).0,
            ) && narrowed(training_chars(Target::TrainingWideLetters, s.elapsed, decode_utf8(text)).0) == cs
                && (s.elapsed < WIDE_LETTER_INTERVAL ==> s2.elapsed < WIDE_LETTER_INTERVAL)
        }),
{
    let chars = decode_utf8(text);
    lemma_training_chars(Target::Training, s.elapsed, chars);
    lemma_training_chars(Target::TrainingWideLetters, s.elapsed, chars);
    lemma_counter_unchanged(Target::Training, s.elapsed, chars);
    lemma_search_is_training_without_spaces(s.elapsed, chars);
    lemma_narrowed_wide_is_training(s.elapsed, s.elapsed, chars);
    lemma_wide_interval(s.elapsed, chars);
}

} // verus!
