//! Splitting text at a separator character.
use vstd::prelude::*;
use vstd::string::*;

use vstd::utf8::*;

use crate::bytes::{push_char_utf8, str_from_utf8};
use crate::utf8::{lemma_chars_le_bytes, lemma_encode_single, lemma_encode_take_step};

verus! {

broadcast use vstd::string::group_string_axioms;

/// The pieces of `s` between the occurrences of `sep`, empty pieces included,
/// as `str::split` gives them for a character.
pub open spec fn split_on(s: Seq<char>, sep: char) -> Seq<Seq<char>>
    decreases s.len(),
{
    if s.len() == 0 {
        seq![Seq::<char>::empty()]
    } else {
        let words = split_on(s.drop_last(), sep);
        if s.last() == sep {
            words.push(Seq::<char>::empty())
        } else {
            words.update(words.len() - 1, words.last().push(s.last()))
        }
    }
}

pub proof fn lemma_split_nonempty(s: Seq<char>, sep: char)
    ensures
        split_on(s, sep).len() >= 1,
    decreases s.len(),
{
    if s.len() > 0 {
        lemma_split_nonempty(s.drop_last(), sep);
    }
}

/// The character ranges of the pieces of `s` between the occurrences of `sep`.
pub fn piece_ranges(s: &str, sep: char) -> (res: Vec<(usize, usize)>)
    ensures
        res@.len() == split_on(s@, sep).len(),
        res@.len() >= 1,
        res@[0].0 == 0,
        forall|i: int| 0 <= i < res@.len() - 1 ==> #[trigger] res@[i + 1].0 == res@[i].1 + 1,
        forall|i: int|
            0 <= i < res@.len() ==> (#[trigger] res@[i]).0 <= res@[i].1 <= s@.len() && s@.subrange(
                res@[i].0 as int,
                res@[i].1 as int,
            ) == split_on(s@, sep)[i],
{
    let ghost cs = s@;
    let total = s.as_bytes().len();
    proof {
        lemma_chars_le_bytes(cs);
    }
    let mut res: Vec<(usize, usize)> = Vec::new();
    let mut start: usize = 0;
    let mut idx: usize = 0;
    proof {
        assert(cs.take(0) =~= Seq::<char>::empty());
    }
    for c in it: s.chars()
        invariant
            it.seq() == cs,
            idx == it.index(),
            idx <= cs.len(),
            cs.len() <= total,
            start <= idx,
            split_on(cs.take(idx as int), sep).len() == res@.len() + 1,
            cs.subrange(start as int, idx as int) == split_on(cs.take(idx as int), sep).last(),
            res@.len() == 0 ==> start == 0,
            res@.len() > 0 ==> res@[0].0 == 0,
            res@.len() > 0 ==> start == res@.last().1 + 1,
            forall|i: int| 0 <= i < res@.len() - 1 ==> #[trigger] res@[i + 1].0 == res@[i].1 + 1,
            forall|i: int|
                0 <= i < res@.len() ==> (#[trigger] res@[i]).0 <= res@[i].1 <= idx && cs.subrange(
                    res@[i].0 as int,
                    res@[i].1 as int,
                ) == split_on(cs.take(idx as int), sep)[i],
    {
        let ghost before = cs.take(idx as int);
        proof {
            lemma_split_nonempty(before, sep);
            assert(cs.take(idx + 1).drop_last() =~= before);
            assert(cs.take(idx + 1).last() == c);
        }
        if c == sep {
            res.push((start, idx));
            start = idx + 1;
            assert(cs.subrange(start as int, idx + 1) =~= Seq::<char>::empty());
        } else {
            assert(cs.subrange(start as int, idx + 1) =~= cs.subrange(start as int, idx as int).push(c));
        }
        idx = idx + 1;
    }
    proof {
        assert(cs.take(idx as int) =~= cs);
    }
    res.push((start, idx));
    res
}

/// Whether `a` and `b` hold the same characters.
pub fn str_eq(a: &str, b: &str) -> (res: bool)
    ensures
        res == (a@ == b@),
{
    let n = a.unicode_len();
    if n != b.unicode_len() {
        return false;
    }
    let mut i: usize = 0;
    while i < n
        invariant
            n == a@.len() == b@.len(),
            i <= n,
            forall|j: int| 0 <= j < i ==> a@[j] == b@[j],
        decreases n - i,
    {
        if a.get_char(i) != b.get_char(i) {
            return false;
        }
        i = i + 1;
    }
    assert(a@ =~= b@);
    true
}

/// `s` with every `from` replaced by `to`.
pub open spec fn replaced(s: Seq<char>, from: char, to: char) -> Seq<char> {
    s.map_values(|c: char| if c == from { to } else { c })
}

/// `s` with every `from` replaced by `to`.
pub fn replace_char(s: &str, from: char, to: char) -> (res: String)
    ensures
        res@ == replaced(s@, from, to),
{
    let ghost target = replaced(s@, from, to);
    let total = s.as_bytes().len();
    proof {
        lemma_chars_le_bytes(s@);
    }
    let mut bytes: Vec<u8> = Vec::new();
    let mut idx: usize = 0;
    proof {
        assert(target.take(0) =~= Seq::<char>::empty());
    }
    for c in it: s.chars()
        invariant
            it.seq() == s@,
            idx == it.index(),
            idx <= s@.len(),
            s@.len() <= total,
            target.len() == s@.len(),
            target == replaced(s@, from, to),
            bytes@ == encode_utf8(target.take(idx as int)),
    {
        let r = if c == from { to } else { c };
        push_char_utf8(&mut bytes, r);
        proof {
            assert(target[idx as int] == r);
            lemma_encode_take_step(target, idx as int);
        }
        idx = idx + 1;
    }
    proof {
        assert(target.take(idx as int) =~= target);
        encode_utf8_valid_utf8(target);
        encode_utf8_decode_utf8(target);
    }
    match str_from_utf8(bytes.as_slice()) {
        Some(text) => {
            proof {
                encode_utf8_decode_utf8(text@);
            }
            text.to_owned()
        },
        None => {
            assert(false);
            String::new()
        },
    }
}

/// The index of the first `sep` in `s`, if it holds one.
pub open spec fn first_index_of(s: Seq<char>, sep: char) -> Option<int> {
    if exists|t: int| 0 <= t < s.len() && s[t] == sep {
        Some(choose|t: int| 0 <= t < s.len() && s[t] == sep && forall|j: int| 0 <= j < t ==> s[j] != sep)
    } else {
        None
    }
}

/// `s` split at its first `sep`: what stands before it and what after it.
pub fn split_once<'a>(s: &'a str, sep: char) -> (res: Option<(&'a str, &'a str)>)
    ensures
        match first_index_of(s@, sep) {
            Some(t) => res matches Some((a, b)) && a@ == s@.take(t) && b@ == s@.skip(t + 1),
            None => res is None,
        },
{
    let n = s.unicode_len();
    let mut i: usize = 0;
    while i < n
        invariant
            n == s@.len(),
            i <= n,
            forall|j: int| 0 <= j < i ==> s@[j] != sep,
        decreases n - i,
    {
        if s.get_char(i) == sep {
            proof {
                let t = choose|t: int| 0 <= t < s@.len() && s@[t] == sep && forall|j: int| 0 <= j < t ==> s@[j] != sep;
                if t < i {
                } else if t > i {
                    assert(s@[i as int] == sep);
                }
            }
            let before = s.substring_char(0, i);
            let after = s.substring_char(i + 1, n);
            assert(before@ =~= s@.take(i as int));
            assert(after@ =~= s@.skip(i + 1));
            return Some((before, after));
        }
        i = i + 1;
    }
    None
}

/// The one-character string of `c`.
pub fn char_string(c: char) -> (res: String)
    ensures
        res@ == seq![c],
{
    let mut bytes: Vec<u8> = Vec::new();
    push_char_utf8(&mut bytes, c);
    proof {
        lemma_encode_single(c);
        encode_utf8_valid_utf8(seq![c]);
        encode_utf8_decode_utf8(seq![c]);
    }
    match str_from_utf8(bytes.as_slice()) {
        Some(text) => {
            proof {
                encode_utf8_decode_utf8(text@);
            }
            text.to_owned()
        },
        None => {
            assert(false);
            String::new()
        },
    }
}

/// Splitting at a separator between two texts splits each of them.
pub proof fn lemma_split_join(a: Seq<char>, b: Seq<char>, sep: char)
    ensures
        split_on(a + seq![sep] + b, sep) == split_on(a, sep) + split_on(b, sep),
    decreases b.len(),
{
    let x = a + seq![sep] + b;
    if b.len() == 0 {
        assert(x.drop_last() =~= a);
        assert(split_on(b, sep) =~= seq![Seq::<char>::empty()]);
        assert(split_on(a, sep).push(Seq::<char>::empty()) =~= split_on(a, sep) + split_on(b, sep));
    } else {
        let b2 = b.drop_last();
        assert(x.drop_last() =~= a + seq![sep] + b2);
        assert(x.last() == b.last());
        lemma_split_join(a, b2, sep);
        let w = split_on(a, sep) + split_on(b2, sep);
        let v = split_on(b2, sep);
        lemma_split_nonempty(b2, sep);
        if b.last() == sep {
            assert(w.push(Seq::<char>::empty()) =~= split_on(a, sep) + v.push(Seq::<char>::empty()));
        } else {
            assert(w.last() == v.last());
            assert(w.update(w.len() - 1, w.last().push(b.last())) =~= split_on(a, sep) + v.update(
                v.len() - 1,
                v.last().push(b.last()),
            ));
        }
    }
}

/// A text without the separator is a single piece.
pub proof fn lemma_split_single(a: Seq<char>, sep: char)
    requires
        forall|j: int| 0 <= j < a.len() ==> a[j] != sep,
    ensures
        split_on(a, sep) == seq![a],
    decreases a.len(),
{
    if a.len() == 0 {
        assert(a =~= Seq::<char>::empty());
    } else {
        lemma_split_single(a.drop_last(), sep);
        assert(a.last() != sep);
        assert(a.drop_last().push(a.last()) =~= a);
        assert(seq![a.drop_last()].update(0, a) =~= seq![a]);
    }
}

} // verus!
