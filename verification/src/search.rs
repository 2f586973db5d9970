//! Approximate search of an OCR text in the consonantal text of the Torah,
//! through a suffix table.
use suffix::SuffixTable;
use vstd::prelude::*;
use vstd::string::*;
use vstd::utf8::*;

use crate::utf8::{byte_index_of_char, lemma_encode_append, lemma_encode_split, lemma_encode_take_step, lemma_prefix_boundary};

verus! {

broadcast use vstd::string::group_string_axioms;

/// A chunk size for searching kgrams in the suffix table in **characters**, not bytes.
pub const SEARCH_CHUNK: usize = 16;

#[verifier::external_type_specification]
#[verifier::external_body]
pub struct ExSuffixTable<'s, 't>(SuffixTable<'s, 't>);

/// The text that a suffix table indexes.
pub uninterp spec fn table_text(t: SuffixTable<'_, '_>) -> Seq<char>;

/// The positions that a suffix table reports for `query`, in the order in
/// which it reports them.
pub uninterp spec fn table_positions(t: SuffixTable<'_, '_>, query: Seq<char>) -> Seq<u32>;

/// Whether `query` occurs in `text` at byte position `p`.
pub open spec fn occurs_at(text: Seq<u8>, query: Seq<u8>, p: int) -> bool {
    0 <= p && p + query.len() <= text.len() && text.subrange(p, p + query.len()) == query
}

/// A suffix table of `text`.
///
/// Trusted: calls `suffix::SuffixTable::new`, which panics on texts of
/// 2^32 bytes or more and otherwise indexes `text`.
#[verifier::external_body]
fn new_table(text: String) -> (res: SuffixTable<'static, 'static>)
    requires
        encode_utf8(text@).len() < 0x1_0000_0000,
    ensures
        table_text(res) == text@,
{
    SuffixTable::new(text)
}

/// The text of a suffix table.
///
/// Trusted: calls `suffix::SuffixTable::text`.
#[verifier::external_body]
fn text_of<'a>(t: &'a SuffixTable<'static, 'static>) -> (res: &'a str)
    ensures
        res@ == table_text(*t),
{
    t.text()
}

/// The byte positions at which `query` occurs in the text of `t`.
///
/// Trusted: calls `suffix::SuffixTable::positions`, documented to return,
/// unordered, the byte positions at which `query` starts in the text; for an
/// empty query it returns none.  The order is left to the name.
#[verifier::external_body]
fn positions<'a>(t: &'a SuffixTable<'static, 'static>, query: &str) -> (res: &'a [u32])
    ensures
        res@ == table_positions(*t, query@),
        forall|i: int|
            0 <= i < res@.len() ==> occurs_at(
                encode_utf8(table_text(*t)),
                query.spec_bytes(),
                #[trigger] res@[i] as int,
            ),
        query@.len() > 0 ==> forall|p: int|
            #![trigger occurs_at(encode_utf8(table_text(*t)), query.spec_bytes(), p)]
            occurs_at(encode_utf8(table_text(*t)), query.spec_bytes(), p) ==> exists|i: int|
                0 <= i < res@.len() && res@[i] == p,
{
    t.positions(query)
}

/// A text indexed for searching.
pub struct Corpus {
    table: SuffixTable<'static, 'static>,
}

impl Corpus {
    /// The indexed text.
    pub closed spec fn spec_text(&self) -> Seq<char> {
        table_text(self.table)
    }

    /// The positions that the index reports for `query`.
    pub closed spec fn spec_positions(&self, query: Seq<char>) -> Seq<u32> {
        table_positions(self.table, query)
    }

    /// Indexes `text`, which must hold fewer than 2^32 bytes.
    pub fn new(text: String) -> (res: Self)
        requires
            encode_utf8(text@).len() < 0x1_0000_0000,
        ensures
            res.spec_text() == text@,
    {
        Corpus { table: new_table(text) }
    }
}

/// The indexed text.
pub fn text(corpus: &Corpus) -> (res: &str)
    ensures
        res@ == corpus.spec_text(),
{
    text_of(&corpus.table)
}

/// Whether `query` occurs verbatim in the text of `corpus`.
pub open spec fn occurs_in_corpus(corpus: Corpus, query: Seq<char>) -> bool {
    exists|p: int| occurs_at(encode_utf8(corpus.spec_text()), encode_utf8(query), p)
}

/// A match of a query in the corpus: its byte position and its text.
pub struct Match<'a> {
    pub byte_pos: usize,
    pub text: &'a str,
}

/// The pieces of `k` characters of a string, front to back.
pub struct Kgrams<'s> {
    k: usize,
    str: &'s str,
}

impl<'s> Kgrams<'s> {
    /// The characters not yet handed out.
    pub closed spec fn rest(&self) -> Seq<char> {
        self.str@
    }

    /// The number of characters per piece.
    pub closed spec fn size(&self) -> usize {
        self.k
    }

    /// The pieces of `k` characters of `str`.
    pub fn new(str: &'s str, k: usize) -> (res: Self)
        ensures
            res.rest() == str@,
            res.size() == k,
    {
        Kgrams { k, str }
    }

    /// The next piece: the next `k` characters, or what is left when fewer are;
    /// so the pieces handed out are those of [`spec_kgrams`], one per call.
    pub fn next(&mut self) -> (res: Option<&'s str>)
        ensures
            final(self).size() == old(self).size(),
            if old(self).size() == 0 || old(self).rest().len() == 0 {
                res is None && final(self).rest() == old(self).rest()
            } else {
                let m = if old(self).size() < old(self).rest().len() {
                    old(self).size() as int
                } else {
                    old(self).rest().len() as int
                };
                res matches Some(kgram) && kgram@ == old(self).rest().take(m) && final(self).rest()
                    == old(self).rest().skip(m)
            },
            old(self).size() > 0 ==> match res {
                None => spec_kgrams(old(self).rest(), old(self).size() as nat).len() == 0,
                Some(kgram) => kgram@ == spec_kgrams(old(self).rest(), old(self).size() as nat)[0] && spec_kgrams(
                    final(self).rest(),
                    old(self).size() as nat,
                ) == spec_kgrams(old(self).rest(), old(self).size() as nat).drop_first(),
            },
    {
        proof {
            if self.k > 0 && self.str@.len() > 0 {
                lemma_kgrams_next(self.str@, self.k as nat);
            }
        }
        let ghost cs = self.str@;
        let ghost m = if self.k < cs.len() {
            self.k as int
        } else {
            cs.len() as int
        };
        let end = byte_index_of_char(self.str, self.k);
        if end == 0 {
            proof {
                if m > 0 {
                    lemma_encode_take_step(cs, 0);
                    assert(cs.take(0) =~= Seq::<char>::empty());
                    lemma_encode_split(cs.take(m), 1);
                    assert(cs.take(m).take(1) =~= cs.take(1));
                }
            }
            return None;
        }
        proof {
            lemma_prefix_boundary(cs, m);
            lemma_encode_split(cs, m);
            encode_utf8_decode_utf8(cs.take(m));
            encode_utf8_decode_utf8(cs.skip(m));
        }
        let (kgram, rest) = self.str.split_at(end);
        proof {
            let bytes = encode_utf8(cs);
            assert(kgram.spec_bytes() =~= encode_utf8(cs.take(m)));
            assert(rest.spec_bytes() =~= encode_utf8(cs.skip(m)));
            encode_utf8_decode_utf8(kgram@);
            encode_utf8_decode_utf8(rest@);
        }
        self.str = rest;
        Some(kgram)
    }
}

/// The pieces of `k` characters of `s`, front to back; the last may be shorter.
pub open spec fn spec_kgrams(s: Seq<char>, k: nat) -> Seq<Seq<char>>
    decreases s.len(),
{
    if k == 0 || s.len() == 0 {
        Seq::empty()
    } else {
        let m: int = if k < s.len() {
            k as int
        } else {
            s.len() as int
        };
        seq![s.take(m)] + spec_kgrams(s.skip(m), k)
    }
}

/// The pieces `ps` joined together.
pub open spec fn joined(ps: Seq<Seq<char>>) -> Seq<char>
    decreases ps.len(),
{
    if ps.len() == 0 {
        Seq::empty()
    } else {
        ps[0] + joined(ps.drop_first())
    }
}

/// The pieces of a string, joined, give the string back; each holds `k`
/// characters but the last, which holds at least one; there are as many as
/// `k` goes into the length, rounded up.
pub proof fn lemma_kgrams_join(s: Seq<char>, k: nat)
    requires
        k > 0,
    ensures
        joined(spec_kgrams(s, k)) == s,
        forall|i: int| 0 <= i < spec_kgrams(s, k).len() ==> 0 < (#[trigger] spec_kgrams(s, k)[i]).len() <= k,
        forall|i: int| 0 <= i < spec_kgrams(s, k).len() - 1 ==> (#[trigger] spec_kgrams(s, k)[i]).len() == k,
        spec_kgrams(s, k).len() == (s.len() + k - 1) as int / k as int,
    decreases s.len(),
{
    if s.len() == 0 {
        assert(joined(spec_kgrams(s, k)) =~= s);
        assert((k - 1) as int / k as int == 0) by (nonlinear_arith)
            requires
                k > 0,
        ;
    } else {
        let m: int = if k < s.len() {
            k as int
        } else {
            s.len() as int
        };
        let ps = spec_kgrams(s, k);
        let tail = spec_kgrams(s.skip(m), k);
        lemma_kgrams_join(s.skip(m), k);
        assert(ps.drop_first() =~= tail);
        let n = s.len() as int;
        let kk = k as int;
        if n <= kk {
            assert(s.skip(m).len() == 0);
            assert((n + kk - 1) / kk == 1) by (nonlinear_arith)
                requires
                    1 <= n <= kk,
            ;
        } else {
            assert(s.skip(m).len() == n - kk);
            assert((n - kk + kk - 1) / kk + 1 == (n + kk - 1) / kk) by (nonlinear_arith)
                requires
                    kk > 0,
                    n > kk,
            ;
        }
        assert(s.take(m) + s.skip(m) =~= s);
        assert forall|i: int| 0 <= i < ps.len() implies 0 < (#[trigger] ps[i]).len() <= k by {
            if i > 0 {
                assert(ps[i] == tail[i - 1]);
            }
        }
        assert forall|i: int| 0 <= i < ps.len() - 1 implies (#[trigger] ps[i]).len() == k by {
            if i > 0 {
                assert(ps[i] == tail[i - 1]);
            } else {
                if m < k {
                    assert(s.skip(m).len() == 0);
                    assert(tail.len() == 0);
                }
            }
        }
    }
}

/// Each call of [`Kgrams::next`] hands out the first of the pieces of what
/// is left, and leaves the rest of them.
pub proof fn lemma_kgrams_next(rest: Seq<char>, k: nat)
    requires
        k > 0,
        rest.len() > 0,
    ensures
        ({
            let m: int = if k < rest.len() {
                k as int
            } else {
                rest.len() as int
            };
            &&& spec_kgrams(rest, k)[0] == rest.take(m)
            &&& spec_kgrams(rest, k).drop_first() == spec_kgrams(rest.skip(m), k)
        }),
{
    let m: int = if k < rest.len() {
        k as int
    } else {
        rest.len() as int
    };
    assert((seq![rest.take(m)] + spec_kgrams(rest.skip(m), k)).drop_first() =~= spec_kgrams(rest.skip(m), k));
}

/// A match that starts at character `c` of the text, where more characters
/// are left than the query has, is exactly the next `query_chars`
/// characters: its length is counted in characters, not in the query's bytes.
pub proof fn lemma_match_in_characters(text: Seq<char>, query_chars: nat, query_bytes: nat, c: int)
    requires
        0 <= c,
        c + query_chars < text.len(),
    ensures
        spec_match_at(text, query_chars, query_bytes, encode_utf8(text.take(c)).len() as int) == (
        SearchOutcome::Found {
            byte_pos: encode_utf8(text.take(c)).len() as int,
            text: encode_utf8(text.subrange(c, c + query_chars)),
        }),
{
    let bytes = encode_utf8(text);
    let start = encode_utf8(text.take(c)).len() as int;
    let rest = text.skip(c);
    lemma_encode_split(text, c);
    lemma_prefix_boundary(text, c);
    let rest_bytes = bytes.subrange(start, bytes.len() as int);
    assert(rest_bytes =~= encode_utf8(rest));
    encode_utf8_decode_utf8(rest);
    assert(decode_utf8(rest_bytes) == rest);
    assert(rest.len() > query_chars);
    lemma_prefix_boundary(rest, query_chars as int);
    lemma_encode_split(rest, query_chars as int);
    let char_len = encode_utf8(rest.take(query_chars as int)).len() as int;
    assert(rest_bytes.subrange(0, char_len) =~= encode_utf8(rest.take(query_chars as int)));
    assert(rest.take(query_chars as int) =~= text.subrange(c, c + query_chars));
}

/// What the search of a query gives: a panic of the slicing, nothing, or a
/// match at a byte position with the bytes of its text.
pub enum SearchOutcome {
    Panics,
    NotFound,
    Found { byte_pos: int, text: Seq<u8> },
}

/// The match of a query of `query_chars` characters and `query_bytes` bytes
/// taken to start at byte `start` of `text`: as many characters as the query
/// has, or, when fewer are left, as many bytes as the query has.
pub open spec fn spec_match_at(text: Seq<char>, query_chars: nat, query_bytes: nat, start: int) -> SearchOutcome {
    let bytes = encode_utf8(text);
    if start < 0 || start > bytes.len() || !is_char_boundary(bytes, start) {
        SearchOutcome::Panics
    } else {
        let rest_bytes = bytes.subrange(start, bytes.len() as int);
        let rest = decode_utf8(rest_bytes);
        let char_len: int = if rest.len() > query_chars {
            encode_utf8(rest.take(query_chars as int)).len() as int
        } else {
            query_bytes as int
        };
        if char_len > rest_bytes.len() || !is_char_boundary(rest_bytes, char_len) {
            SearchOutcome::Panics
        } else {
            SearchOutcome::Found { byte_pos: start, text: rest_bytes.subrange(0, char_len) }
        }
    }
}

/// Searches the pieces of `SEARCH_CHUNK` characters of `rest`, the part of
/// `query` from byte `offset` on, in the corpus: the first piece that occurs
/// anywhere places the match, at its first reported position moved back by
/// `offset`.
pub open spec fn spec_search(corpus: Corpus, query: Seq<char>, rest: Seq<char>, offset: int) -> SearchOutcome
    decreases rest.len(),
{
    if rest.len() == 0 {
        SearchOutcome::NotFound
    } else {
        let m = if SEARCH_CHUNK < rest.len() {
            SEARCH_CHUNK as int
        } else {
            rest.len() as int
        };
        let kgram = rest.take(m);
        let ps = corpus.spec_positions(kgram);
        if ps.len() > 0 {
            spec_match_at(corpus.spec_text(), query.len(), encode_utf8(query).len(), ps[0] - offset)
        } else {
            spec_search(corpus, query, rest.skip(m), offset + encode_utf8(kgram).len())
        }
    }
}

/// The outcome of searching `query` in `corpus`.
pub open spec fn spec_approx_match(corpus: Corpus, query: Seq<char>) -> SearchOutcome {
    spec_search(corpus, query, query, 0)
}

/// The match, in `text`, of a query of `query_chars` characters and
/// `query_len` bytes, taken to start at byte `start`; `None` where slicing
/// would panic.
fn match_at<'a>(text: &'a str, start: usize, query_chars: usize, query_len: usize) -> (res: Option<Match<'a>>)
    ensures
        match spec_match_at(text@, query_chars as nat, query_len as nat, start as int) {
            SearchOutcome::Panics => res is None,
            SearchOutcome::NotFound => false,
            SearchOutcome::Found { byte_pos, text: bytes } => res matches Some(m) && m.byte_pos == byte_pos
                && m.text.spec_bytes() == bytes,
        },
{
    let total = text.as_bytes().len();
    proof {
        encode_utf8_valid_utf8(text@);
    }
    if start > total || !text.is_char_boundary(start) {
        return None;
    }
    let (_, rest) = text.split_at(start);
    let rest_chars = rest.unicode_len();
    proof {
        encode_utf8_decode_utf8(rest@);
        assert(rest@ == decode_utf8(encode_utf8(text@).subrange(start as int, encode_utf8(text@).len() as int)));
    }
    let char_len = if query_chars < rest_chars {
        byte_index_of_char(rest, query_chars)
    } else {
        query_len
    };
    let rest_len = rest.as_bytes().len();
    if char_len > rest_len || !rest.is_char_boundary(char_len) {
        return None;
    }
    let (found, _) = rest.split_at(char_len);
    Some(Match { byte_pos: start, text: found })
}

/// The match that the positions `ps` reported for a piece of a query place,
/// the piece starting `offset` bytes into the query of `query_chars`
/// characters and `query_len` bytes: `Some(None)` when there are none, the
/// match at the first position moved back by `offset` when there are, and
/// `None` where slicing the text there would panic.
pub fn match_from_positions<'a>(text: &'a str, ps: &[u32], offset: usize, query_chars: usize, query_len: usize) -> (res: Option<
    Option<Match<'a>>,
>)
    ensures
        ps@.len() == 0 ==> res matches Some(None),
        ps@.len() > 0 ==> match spec_match_at(text@, query_chars as nat, query_len as nat, ps@[0] - offset) {
            SearchOutcome::Panics => res is None,
            SearchOutcome::NotFound => false,
            SearchOutcome::Found { byte_pos, text: bytes } => res matches Some(Some(m)) && m.byte_pos == byte_pos
                && m.text.spec_bytes() == bytes,
        },
{
    if ps.len() == 0 {
        return Some(None);
    }
    let pos = ps[0] as usize;
    if pos < offset {
        return None;
    }
    match match_at(text, pos - offset, query_chars, query_len) {
        Some(m) => Some(Some(m)),
        None => None,
    }
}

/// The pieces of `SEARCH_CHUNK` characters in which a query is searched.
pub open spec fn query_pieces(query: Seq<char>) -> Seq<Seq<char>> {
    spec_kgrams(query, SEARCH_CHUNK as nat)
}

/// Whether piece `i` of the query is the first that occurs in the corpus.
pub open spec fn first_occurring_piece(corpus: Corpus, query: Seq<char>, i: int) -> bool {
    &&& 0 <= i < query_pieces(query).len()
    &&& forall|j: int| 0 <= j < i ==> !occurs_in_corpus(corpus, #[trigger] query_pieces(query)[j])
    &&& occurs_in_corpus(corpus, query_pieces(query)[i])
}

/// Joining one more piece appends it.
proof fn lemma_joined_push(ps: Seq<Seq<char>>, p: Seq<char>)
    ensures
        joined(ps.push(p)) == joined(ps) + p,
    decreases ps.len(),
{
    if ps.len() == 0 {
        assert(ps.push(p).drop_first() =~= Seq::<Seq<char>>::empty());
        assert(ps.push(p)[0] == p);
        assert(joined(Seq::<Seq<char>>::empty()) == Seq::<char>::empty());
        assert(joined(ps) == Seq::<char>::empty());
        assert(p + Seq::<char>::empty() =~= p);
        assert(joined(ps.push(p)) =~= p);
        assert(joined(ps) + p =~= p);
    } else {
        assert(ps.push(p).drop_first() =~= ps.drop_first().push(p));
        lemma_joined_push(ps.drop_first(), p);
        assert(joined(ps.push(p)) =~= joined(ps) + p);
    }
}

/// Searches `query` in `corpus`, piece by piece, and gives the first match;
/// `None` where slicing the text there would panic (the match would start
/// before the text, or not on a character boundary, or end past it).  Nothing
/// is found exactly when no piece of the query occurs in the corpus; a match
/// is placed so that the first piece that occurs stands at its own offset in
/// the query.
pub fn try_approx_match<'a>(corpus: &'a Corpus, query: &str) -> (res: Option<Option<Match<'a>>>)
    ensures
        match spec_approx_match(*corpus, query@) {
            SearchOutcome::Panics => res is None,
            SearchOutcome::NotFound => res matches Some(None),
            SearchOutcome::Found { byte_pos, text: bytes } => res matches Some(Some(m)) && m.byte_pos
                == byte_pos && m.text.spec_bytes() == bytes,
        },
        query@.len() > 0 && occurs_in_corpus(*corpus, query@) ==> !(res matches Some(None)),
        res matches Some(None) <==> forall|j: int|
            0 <= j < query_pieces(query@).len() ==> !occurs_in_corpus(*corpus, #[trigger] query_pieces(query@)[j]),
        res matches Some(Some(m)) ==> exists|i: int|
            first_occurring_piece(*corpus, query@, i) && occurs_at(
                encode_utf8(corpus.spec_text()),
                encode_utf8(#[trigger] query_pieces(query@)[i]),
                m.byte_pos + encode_utf8(joined(query_pieces(query@).take(i))).len(),
            ),
{
    let ghost ks = query_pieces(query@);
    let text = text_of(&corpus.table);
    let query_chars = query.unicode_len();
    let query_len = query.as_bytes().len();
    let mut kgrams = Kgrams::new(query, SEARCH_CHUNK);
    let mut query_byte_offset: usize = 0;
    let ghost mut c: int = 0;
    let ghost mut idx: int = 0;
    proof {
        assert(query@.take(0) =~= Seq::<char>::empty());
        lemma_encode_split(query@, 0);
        assert(query@.skip(0) =~= query@);
        assert(ks.skip(0) =~= ks);
        assert(ks.take(0) =~= Seq::<Seq<char>>::empty());
        assert(joined(ks.take(0)) =~= query@.take(0));
    }
    loop
        invariant
            kgrams.size() == SEARCH_CHUNK,
            text@ == corpus.spec_text(),
            query_chars == query@.len(),
            query_len == encode_utf8(query@).len(),
            0 <= query_byte_offset <= query_len,
            ks == query_pieces(query@),
            0 <= c <= query@.len(),
            kgrams.rest() == query@.skip(c),
            query_byte_offset == encode_utf8(query@.take(c)).len(),
            0 <= idx <= ks.len(),
            ks.skip(idx) == spec_kgrams(kgrams.rest(), SEARCH_CHUNK as nat),
            joined(ks.take(idx)) == query@.take(c),
            forall|j: int| 0 <= j < idx ==> !occurs_in_corpus(*corpus, #[trigger] ks[j]),
            spec_search(*corpus, query@, kgrams.rest(), query_byte_offset as int) == spec_approx_match(
                *corpus,
                query@,
            ),
            query@.len() > 0 && occurs_in_corpus(*corpus, query@) ==> kgrams.rest() == query@,
        decreases kgrams.rest().len(),
    {
        let ghost i = c;
        let ghost rest = kgrams.rest();
        match kgrams.next() {
            None => {
                proof {
                    assert(ks.skip(idx).len() == 0);
                    assert(idx == ks.len());
                }
                return Some(None);
            },
            Some(kgram) => {
                proof {
                    lemma_kgrams_next(rest, SEARCH_CHUNK as nat);
                    assert(ks.skip(idx)[0] == ks[idx]);
                    assert(kgram@ == ks[idx]);
                }
                let ps = positions(&corpus.table, kgram);
                proof {
                    if query@.len() > 0 && occurs_in_corpus(*corpus, query@) {
                        let tb = encode_utf8(corpus.spec_text());
                        let p = choose|p: int| occurs_at(tb, encode_utf8(query@), p);
                        lemma_encode_split(query@, kgram@.len() as int);
                        assert(query@.take(kgram@.len() as int) == kgram@);
                        let kb = encode_utf8(kgram@);
                        let qb = encode_utf8(query@);
                        assert(qb == kb + encode_utf8(query@.skip(kgram@.len() as int)));
                        assert(qb.take(kb.len() as int) =~= kb);
                        assert(tb.subrange(p, p + qb.len()) == qb);
                        assert(tb.subrange(p, p + kb.len()) =~= tb.subrange(p, p + qb.len()).take(kb.len() as int));
                        assert(occurs_at(tb, kgram.spec_bytes(), p));
                        assert(ps@.len() > 0);
                    }
                }
                if ps.len() > 0 {
                    let res = match_from_positions(text, ps, query_byte_offset, query_chars, query_len);
                    proof {
                        let tb = encode_utf8(corpus.spec_text());
                        assert(occurs_at(tb, kgram.spec_bytes(), ps@[0] as int));
                        assert(occurs_in_corpus(*corpus, ks[idx]));
                        assert(first_occurring_piece(*corpus, query@, idx));
                        if res is Some && res->0 is Some {
                            let m = res->0->0;
                            assert(m.byte_pos + encode_utf8(joined(ks.take(idx))).len() == ps@[0]);
                        }
                    }
                    return res;
                }
                let ghost m = kgram@.len() as int;
                proof {
                    assert(!occurs_in_corpus(*corpus, ks[idx])) by {
                        if occurs_in_corpus(*corpus, ks[idx]) {
                            let tb = encode_utf8(corpus.spec_text());
                            let p = choose|p: int| occurs_at(tb, encode_utf8(ks[idx]), p);
                            assert(occurs_at(tb, kgram.spec_bytes(), p));
                        }
                    }
                    assert(query@.take(i + m) =~= query@.take(i) + kgram@);
                    lemma_encode_append(query@.take(i), kgram@);
                    lemma_encode_split(query@, i + m);
                    assert(query@.skip(i).skip(m) =~= query@.skip(i + m));
                    assert(ks.take(idx + 1) =~= ks.take(idx).push(ks[idx]));
                    lemma_joined_push(ks.take(idx), ks[idx]);
                    assert(ks.skip(idx + 1) =~= ks.skip(idx).drop_first());
                    c = i + m;
                    idx = idx + 1;
                }
                query_byte_offset = query_byte_offset + kgram.as_bytes().len();
            },
        }
    }
}

/// Searches `query` in `corpus`, piece by piece, and gives the first match:
/// none exactly when no piece of the query occurs in the corpus, and one
/// placed so that the first piece that occurs stands at its own offset in the
/// query.
pub fn approx_match<'a>(corpus: &'a Corpus, query: &str) -> (res: Option<Match<'a>>)
    requires
        !(spec_approx_match(*corpus, query@) is Panics),
    ensures
        match spec_approx_match(*corpus, query@) {
            SearchOutcome::Panics => false,
            SearchOutcome::NotFound => res is None,
            SearchOutcome::Found { byte_pos, text: bytes } => res matches Some(m) && m.byte_pos == byte_pos
                && m.text.spec_bytes() == bytes,
        },
        query@.len() > 0 && occurs_in_corpus(*corpus, query@) ==> res is Some,
        res is None <==> forall|j: int|
            0 <= j < query_pieces(query@).len() ==> !occurs_in_corpus(*corpus, #[trigger] query_pieces(query@)[j]),
        res matches Some(m) ==> exists|i: int|
            first_occurring_piece(*corpus, query@, i) && occurs_at(
                encode_utf8(corpus.spec_text()),
                encode_utf8(#[trigger] query_pieces(query@)[i]),
                m.byte_pos + encode_utf8(joined(query_pieces(query@).take(i))).len(),
            ),
{
    match try_approx_match(corpus, query) {
        Some(found) => found,
        None => None,
    }
}

} // verus!
