//! Facts about the UTF-8 encoding of character sequences, and the byte
//! positions of characters in a string.
use vstd::prelude::*;
use vstd::string::*;
use vstd::utf8::*;

verus! {

broadcast use vstd::string::group_string_axioms;

/// The encoding of a concatenation is the concatenation of the encodings.
pub proof fn lemma_encode_append(a: Seq<char>, b: Seq<char>)
    ensures
        encode_utf8(a + b) == encode_utf8(a) + encode_utf8(b),
    decreases a.len(),
{
    if a.len() == 0 {
        assert(a + b =~= b);
        assert(encode_utf8(a) =~= Seq::<u8>::empty());
        assert(encode_utf8(a) + encode_utf8(b) =~= encode_utf8(b));
    } else {
        assert((a + b).drop_first() =~= a.drop_first() + b);
        assert((a + b)[0] == a[0]);
        lemma_encode_append(a.drop_first(), b);
        assert(encode_utf8(a + b) =~= encode_scalar(a[0] as u32) + encode_utf8(a.drop_first() + b));
        assert(encode_utf8(a) + encode_utf8(b) =~= encode_scalar(a[0] as u32) + (encode_utf8(a.drop_first())
            + encode_utf8(b)));
    }
}

/// The encoding of a single character.
pub proof fn lemma_encode_single(c: char)
    ensures
        encode_utf8(seq![c]) == encode_scalar(c as u32),
{
    assert(seq![c].drop_first() =~= Seq::<char>::empty());
    assert(encode_utf8(seq![c]) =~= encode_scalar(c as u32) + encode_utf8(Seq::<char>::empty()));
}

/// Encoding one more character of a prefix appends its encoding.
pub proof fn lemma_encode_take_step(cs: Seq<char>, i: int)
    requires
        0 <= i < cs.len(),
    ensures
        encode_utf8(cs.take(i + 1)) == encode_utf8(cs.take(i)) + encode_scalar(cs[i] as u32),
{
    assert(cs.take(i + 1) =~= cs.take(i) + seq![cs[i]]);
    lemma_encode_append(cs.take(i), seq![cs[i]]);
    lemma_encode_single(cs[i]);
}

/// A string's bytes are those of its first `i` characters followed by those of the rest.
pub proof fn lemma_encode_split(cs: Seq<char>, i: int)
    requires
        0 <= i <= cs.len(),
    ensures
        encode_utf8(cs) == encode_utf8(cs.take(i)) + encode_utf8(cs.skip(i)),
{
    assert(cs =~= cs.take(i) + cs.skip(i));
    lemma_encode_append(cs.take(i), cs.skip(i));
}

/// The end of the encoding of a prefix is a character boundary.
pub proof fn lemma_prefix_boundary(cs: Seq<char>, i: int)
    requires
        0 <= i <= cs.len(),
    ensures
        is_char_boundary(encode_utf8(cs), encode_utf8(cs.take(i)).len() as int),
    decreases cs.len(),
{
    let bytes = encode_utf8(cs);
    encode_utf8_valid_utf8(cs);
    if i == 0 {
        assert(cs.take(0) =~= Seq::<char>::empty());
        assert(encode_utf8(cs.take(0)).len() == 0);
    } else {
        encode_utf8_first_scalar(cs);
        let rest = cs.drop_first();
        assert(pop_first_scalar(bytes) == encode_utf8(rest)) by {
            assert(bytes == encode_scalar(cs[0] as u32) + encode_utf8(rest));
            assert(pop_first_scalar(bytes) =~= bytes.subrange(
                length_of_first_scalar(bytes),
                bytes.len() as int,
            ));
            assert(bytes.subrange(encode_scalar(cs[0] as u32).len() as int, bytes.len() as int)
                =~= encode_utf8(rest));
        }
        assert(cs.take(i) =~= seq![cs[0]] + rest.take(i - 1));
        lemma_encode_append(seq![cs[0]], rest.take(i - 1));
        lemma_encode_single(cs[0]);
        lemma_prefix_boundary(rest, i - 1);
        lemma_encode_split(cs, i);
        assert(encode_utf8(cs.take(i)).len() <= bytes.len());
    }
}

/// A string has no more characters than bytes.
pub proof fn lemma_chars_le_bytes(cs: Seq<char>)
    ensures
        cs.len() <= encode_utf8(cs).len(),
    decreases cs.len(),
{
    if cs.len() > 0 {
        lemma_chars_le_bytes(cs.drop_first());
    }
}

/// A part of a string has no more bytes than the string.
pub proof fn lemma_subrange_bytes_le(cs: Seq<char>, a: int, b: int)
    requires
        0 <= a <= b <= cs.len(),
    ensures
        encode_utf8(cs.subrange(a, b)).len() <= encode_utf8(cs).len(),
{
    lemma_encode_split(cs, b);
    lemma_encode_split(cs.take(b), a);
    assert(cs.take(b).skip(a) =~= cs.subrange(a, b));
}

/// The number of bytes of the UTF-8 encoding of `c`.
pub fn utf8_len(c: char) -> (n: usize)
    ensures
        n == encode_scalar(c as u32).len(),
        1 <= n <= 4,
{
    let u = c as u32;
    proof {
        char_is_scalar(c);
    }
    if u <= 0x7F {
        1
    } else if u <= 0x7FF {
        2
    } else if u <= 0xFFFF {
        3
    } else {
        4
    }
}

/// The byte position of the `n`-th character of `s`, or the length of `s`
/// when it has no more than `n` characters.
pub fn byte_index_of_char(s: &str, n: usize) -> (res: usize)
    ensures
        res == encode_utf8(s@.take(if n < s@.len() { n as int } else { s@.len() as int })).len(),
        res <= s.spec_bytes().len(),
{
    let ghost cs = s@;
    let total = s.as_bytes().len();
    let mut count: usize = 0;
    let mut bytes: usize = 0;
    proof {
        assert(cs.take(0) =~= Seq::<char>::empty());
    }
    for c in it: s.chars()
        invariant
            it.seq() == cs,
            count == if it.index() < n { it.index() as int } else { n as int },
            bytes == encode_utf8(cs.take(count as int)).len(),
            total == encode_utf8(cs).len(),
            s.spec_bytes() == encode_utf8(cs),
    {
        if count < n {
            proof {
                lemma_encode_take_step(cs, count as int);
                lemma_encode_split(cs, count + 1);
            }
            bytes = bytes + utf8_len(c);
            count = count + 1;
        }
    }
    proof {
        lemma_encode_split(cs, count as int);
    }
    bytes
}

} // verus!
