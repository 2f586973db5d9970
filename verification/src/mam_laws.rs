//! Laws of single events inside a verse: a shirah space writes one space
//! (but for the search target), and the large and small letters of a shirah
//! word are written as their text.
use vstd::prelude::*;
use vstd::string::*;
use vstd::utf8::*;

use crate::mam_output::{lemma_write_text_targets, training_chars, without_spaces};
use crate::mam::{
    advanced, is_sof_pasuq, named, sof_pasuq_bytes, spec_write_text, text_attr_at as attr_at, spec_expect_text, spec_slh_word, spec_verse, text_attr_at, EventKind, ParseState,
    Target, XmlEvent,
};

verus! {

broadcast use vstd::string::group_string_axioms;

/// A shirah space inside a verse writes exactly one space byte under every
/// target but [`Target::Search`], which writes nothing for it; the verse then
/// goes on from the next event, the space being the last thing written.
pub proof fn lemma_shirah_space(t: Target, evs: Seq<XmlEvent>, s: ParseState, trailing: bool)
    requires
        0 <= s.pos < evs.len(),
        evs[s.pos].kind == EventKind::Empty,
        named(evs, s.pos, "shirah-space"),
    ensures
        t != Target::Search ==> spec_verse(t, evs, s, trailing) == spec_verse(
            t,
            evs,
            ParseState { pos: s.pos + 1, out: s.out.push(0x20u8), elapsed: s.elapsed },
            true,
        ),
        t == Target::Search ==> spec_verse(t, evs, s, trailing) == spec_verse(t, evs, advanced(s), true),
{
    reveal_strlit("shirah-space");
    if t != Target::Search {
        assert(s.out + seq![0x20u8] =~= s.out.push(0x20u8));
    } else {
        assert(s.out + Seq::<u8>::empty() =~= s.out);
    }
}

/// A shirah word reads the events from its position on only.
proof fn lemma_slh_word_local(t: Target, evs: Seq<XmlEvent>, evs2: Seq<XmlEvent>, s: ParseState)
    requires
        evs.len() == evs2.len(),
        forall|q: int| s.pos <= q < evs.len() ==> evs[q] == evs2[q],
    ensures
        spec_slh_word(t, evs, s) == spec_slh_word(t, evs2, s),
    decreases evs.len() - s.pos,
{
    let p = s.pos;
    if 0 <= p < evs.len() {
        assert(evs[p] == evs2[p]);
        let s1 = advanced(s);
        lemma_slh_word_local(t, evs, evs2, s1);
        assert(spec_expect_text(t, evs, p, s1) == spec_expect_text(t, evs2, p, s1));
        if let Ok(s2) = spec_expect_text(t, evs, p, s1) {
            lemma_slh_word_local(t, evs, evs2, ParseState { pos: p + 1, ..s2 });
        }
        lemma_slh_word_local(t, evs, evs2, ParseState { out: s1.out + sof_pasuq_bytes(t), ..s1 });
    }
}

/// Tags with different names have different names as bytes.
proof fn lemma_names_differ(a: &str, b: &str)
    requires
        a@ != b@,
    ensures
        a.spec_bytes() != b.spec_bytes(),
{
    vstd::utf8::encode_utf8_decode_utf8(a@);
    vstd::utf8::encode_utf8_decode_utf8(b@);
}

/// Inside a shirah word, an empty `letter-large` or `letter-small` tag is
/// written exactly as an empty `text` tag with the same text attribute would
/// be: the word comes out the same whichever of the three names the tag has.
pub proof fn lemma_large_small_letters(t: Target, evs: Seq<XmlEvent>, evs2: Seq<XmlEvent>, s: ParseState)
    requires
        0 <= s.pos < evs.len(),
        evs.len() == evs2.len(),
        forall|q: int| 0 <= q < evs.len() && q != s.pos ==> evs[q] == evs2[q],
        evs[s.pos].kind == EventKind::Empty,
        evs2[s.pos].kind == EventKind::Empty,
        named(evs, s.pos, "letter-large") || named(evs, s.pos, "letter-small"),
        named(evs2, s.pos, "text"),
        text_attr_at(evs, s.pos) == text_attr_at(evs2, s.pos),
    ensures
        spec_slh_word(t, evs, s) == spec_slh_word(t, evs2, s),
{
    let p = s.pos;
    reveal_strlit("text");
    reveal_strlit("letter-large");
    reveal_strlit("letter-small");
    reveal_strlit("lp-paseq");
    reveal_strlit("lp-legarmeih");
    reveal_strlit("lp-legarmeih ");
    reveal_strlit("slh-word");
    let s1 = advanced(s);
    assert("letter-large"@[1] != "lp-paseq"@[1]);
    assert("letter-large"@[1] != "lp-legarmeih"@[1]);
    assert("letter-large"@.len() != "lp-legarmeih "@.len());
    assert("letter-small"@[1] != "lp-paseq"@[1]);
    assert("letter-small"@[1] != "lp-legarmeih"@[1]);
    assert("letter-small"@.len() != "lp-legarmeih "@.len());
    assert("text"@.len() != "lp-paseq"@.len());
    assert("text"@.len() != "lp-legarmeih"@.len());
    assert("text"@.len() != "lp-legarmeih "@.len());
    lemma_names_differ("letter-large", "lp-paseq");
    lemma_names_differ("letter-large", "lp-legarmeih");
    lemma_names_differ("letter-large", "lp-legarmeih ");
    lemma_names_differ("letter-small", "lp-paseq");
    lemma_names_differ("letter-small", "lp-legarmeih");
    lemma_names_differ("letter-small", "lp-legarmeih ");
    lemma_names_differ("text", "lp-paseq");
    lemma_names_differ("text", "lp-legarmeih");
    lemma_names_differ("text", "lp-legarmeih ");
    assert(!is_sof_pasuq(evs, p));
    assert(!is_sof_pasuq(evs2, p));
    assert(spec_expect_text(t, evs, p, s1) == spec_expect_text(t, evs2, p, s1));
    if let Ok(s2) = spec_expect_text(t, evs, p, s1) {
        lemma_slh_word_local(t, evs, evs2, ParseState { pos: p + 1, ..s2 });
    }
}

/// The end of a verse writes a line break under [`Target::Teamim`], a space
/// under the training targets unless a shirah space came last, and nothing
/// under [`Target::Search`]; the verse is then done, after its end tag.
pub proof fn lemma_verse_end(t: Target, evs: Seq<XmlEvent>, s: ParseState, trailing: bool)
    requires
        0 <= s.pos < evs.len(),
        evs[s.pos].kind == EventKind::End,
        named(evs, s.pos, "verse"),
    ensures
        spec_verse(t, evs, s, trailing) == Ok::<ParseState, crate::mam::MamError>(
            ParseState {
                pos: s.pos + 1,
                out: if t == Target::Teamim {
                    s.out.push(0x0Au8)
                } else if t != Target::Search && !trailing {
                    s.out.push(0x20u8)
                } else {
                    s.out
                },
                elapsed: s.elapsed,
            },
        ),
{
    reveal_strlit("verse");
    reveal_strlit("shirah-space");
    assert("verse"@.len() != "shirah-space"@.len());
    lemma_names_differ("verse", "shirah-space");
    assert(s.out + seq![0x0Au8] =~= s.out.push(0x0Au8));
    assert(s.out + seq![0x20u8] =~= s.out.push(0x20u8));
    assert(s.out + Seq::<u8>::empty() =~= s.out);
}

/// A paseq or legarmeih mark inside a verse writes " ׀ " (a space, the
/// paseq sign and a space) under [`Target::Teamim`], one space under the
/// training targets and nothing under [`Target::Search`], and the verse goes
/// on from the next event.
pub proof fn lemma_paseq_in_verse(t: Target, evs: Seq<XmlEvent>, s: ParseState, trailing: bool)
    requires
        0 <= s.pos < evs.len(),
        is_sof_pasuq(evs, s.pos),
    ensures
        spec_verse(t, evs, s, trailing) == spec_verse(
            t,
            evs,
            ParseState {
                pos: s.pos + 1,
                out: s.out + if t == Target::Teamim {
                    " \u{05c0} ".spec_bytes()
                } else if t == Target::Search {
                    Seq::empty()
                } else {
                    seq![0x20u8]
                },
                elapsed: s.elapsed,
            },
            false,
        ),
{
    let p = s.pos;
    reveal_strlit("shirah-space");
    reveal_strlit("verse");
    reveal_strlit("lp-paseq");
    reveal_strlit("lp-legarmeih");
    reveal_strlit("lp-legarmeih ");
    reveal_strlit(" \u{05c0} ");
    assert("shirah-space"@[0] != "lp-paseq"@[0]);
    assert("shirah-space"@[0] != "lp-legarmeih"@[0]);
    assert("shirah-space"@[0] != "lp-legarmeih "@[0]);
    lemma_names_differ("shirah-space", "lp-paseq");
    lemma_names_differ("shirah-space", "lp-legarmeih");
    lemma_names_differ("shirah-space", "lp-legarmeih ");
    assert("verse"@[0] != "lp-paseq"@[0]);
    assert("verse"@[0] != "lp-legarmeih"@[0]);
    assert("verse"@[0] != "lp-legarmeih "@[0]);
    lemma_names_differ("verse", "lp-paseq");
    lemma_names_differ("verse", "lp-legarmeih");
    lemma_names_differ("verse", "lp-legarmeih ");
    assert(!named(evs, p, "shirah-space"));
    assert(!named(evs, p, "verse"));
    if t == Target::Teamim {
        let sp = seq![' ', '\u{05c0}', ' '];
        assert(" \u{05c0} "@ =~= sp);
        crate::utf8::lemma_encode_single(' ');
        crate::utf8::lemma_encode_single('\u{05c0}');
        assert(sp =~= seq![' '] + seq!['\u{05c0}'] + seq![' ']);
        crate::utf8::lemma_encode_append(seq![' '], seq!['\u{05c0}']);
        crate::utf8::lemma_encode_append(seq![' '] + seq!['\u{05c0}'], seq![' ']);
        assert(0x20u32 & 0x7Fu32 == 0x20u32) by (bit_vector);
        assert(0xC0u8 | ((0x05C0u32 >> 6u32) & 0x1Fu32) as u8 == 0xD7u8) by (bit_vector);
        assert(0x80u8 | (0x05C0u32 & 0x3Fu32) as u8 == 0x80u8) by (bit_vector);
        assert('\u{05c0}' as u32 == 0x05C0u32);
        assert(leading_byte_width_2(0x05C0u32) == 0xD7u8);
        assert(last_continuation_byte(0x05C0u32) == 0x80u8);
        assert(encode_scalar(' ' as u32) =~= seq![0x20u8]);
        assert(encode_scalar('\u{05c0}' as u32) =~= seq![0xD7u8, 0x80u8]);
        assert(" \u{05c0} ".spec_bytes() =~= seq![0x20u8, 0xD7u8, 0x80u8, 0x20u8]);
    }
}

/// A text tag inside a verse writes its text attribute: as it is under
/// [`Target::Teamim`]; as the characters of [`training_chars`] under
/// [`Target::Training`]; and as those without their spaces under
/// [`Target::Search`]; the verse then goes on from the next event.
pub proof fn lemma_text_in_verse(t: Target, evs: Seq<XmlEvent>, s: ParseState, trailing: bool, v: Seq<u8>)
    requires
        0 <= s.pos < evs.len(),
        evs[s.pos].kind == EventKind::Empty,
        named(evs, s.pos, "text"),
        attr_at(evs, s.pos) == Ok::<Option<Seq<u8>>, ()>(Some(v)),
        t == Target::Teamim || valid_utf8(v),
        t != Target::TrainingWideLetters,
    ensures
        spec_verse(t, evs, s, trailing) == spec_verse(
            t,
            evs,
            ParseState {
                pos: s.pos + 1,
                out: s.out + if t == Target::Teamim {
                    v
                } else if t == Target::Search {
                    encode_utf8(without_spaces(training_chars(Target::Training, s.elapsed, decode_utf8(v)).0))
                } else {
                    encode_utf8(training_chars(Target::Training, s.elapsed, decode_utf8(v)).0)
                },
                elapsed: s.elapsed,
            },
            false,
        ),
{
    let p = s.pos;
    reveal_strlit("shirah-space");
    reveal_strlit("verse");
    reveal_strlit("text");
    reveal_strlit("lp-paseq");
    reveal_strlit("lp-legarmeih");
    reveal_strlit("lp-legarmeih ");
    assert("text"@[0] != "shirah-space"@[0]);
    lemma_names_differ("text", "shirah-space");
    assert("text"@.len() != "lp-paseq"@.len());
    assert("text"@.len() != "lp-legarmeih"@.len());
    assert("text"@.len() != "lp-legarmeih "@.len());
    lemma_names_differ("text", "lp-paseq");
    lemma_names_differ("text", "lp-legarmeih");
    lemma_names_differ("text", "lp-legarmeih ");
    assert(!is_sof_pasuq(evs, p));
    let s1 = advanced(s);
    if t != Target::Teamim {
        lemma_write_text_targets(s1, v, p);
    }
}

} // verus!
