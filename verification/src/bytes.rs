//! Small byte-level helpers shared by the text producers.
use vstd::prelude::*;
use vstd::string::*;
use vstd::utf8::*;

verus! {

/// Appends `bytes` to `out`.
pub fn append_bytes(out: &mut Vec<u8>, bytes: &[u8])
    ensures
        final(out)@ == old(out)@ + bytes@,
{
    let mut i: usize = 0;
    while i < bytes.len()
        invariant
            i <= bytes.len(),
            out@ == old(out)@ + bytes@.take(i as int),
        decreases bytes.len() - i,
    {
        out.push(bytes[i]);
        i = i + 1;
        assert(bytes@.take(i as int) == bytes@.take(i - 1) + seq![bytes@[i - 1]]);
    }
    assert(bytes@.take(bytes.len() as int) == bytes@);
}

/// Appends the UTF-8 encoding of `c` to `out`.
pub fn push_char_utf8(out: &mut Vec<u8>, c: char)
    ensures
        final(out)@ == old(out)@ + encode_scalar(c as u32),
{
    let u = c as u32;
    proof {
        char_is_scalar(c);
    }
    if u <= 0x7F {
        out.push((u & 0x7F) as u8);
    } else if u <= 0x7FF {
        out.push(0xC0 | ((u >> 6) & 0x1F) as u8);
        out.push(0x80 | (u & 0x3F) as u8);
    } else if u <= 0xFFFF {
        out.push(0xE0 | ((u >> 12) & 0x0F) as u8);
        out.push(0x80 | ((u >> 6) & 0x3F) as u8);
        out.push(0x80 | (u & 0x3F) as u8);
    } else {
        out.push(0xF0 | ((u >> 18) & 0x7) as u8);
        out.push(0x80 | ((u >> 12) & 0x3F) as u8);
        out.push(0x80 | ((u >> 6) & 0x3F) as u8);
        out.push(0x80 | (u & 0x3F) as u8);
    }
}

/// Whether `a` and `b` hold the same bytes.
pub fn bytes_eq(a: &[u8], b: &[u8]) -> (res: bool)
    ensures
        res == (a@ == b@),
{
    if a.len() != b.len() {
        return false;
    }
    let mut i: usize = 0;
    while i < a.len()
        invariant
            a.len() == b.len(),
            i <= a.len(),
            a@.take(i as int) == b@.take(i as int),
        decreases a.len() - i,
    {
        if a[i] != b[i] {
            assert(a@[i as int] != b@[i as int]);
            return false;
        }
        i = i + 1;
        assert(a@.take(i as int) == a@.take(i - 1) + seq![a@[i - 1]]);
        assert(b@.take(i as int) == b@.take(i - 1) + seq![b@[i - 1]]);
    }
    assert(a@ == a@.take(a.len() as int));
    assert(b@ == b@.take(b.len() as int));
    true
}

/// Whether `a` holds the bytes of `s`.
pub fn bytes_eq_str(a: &[u8], s: &str) -> (res: bool)
    ensures
        res == (a@ == s.spec_bytes()),
{
    bytes_eq(a, s.as_bytes())
}

/// Whether `a` begins with the bytes of `s`.
pub fn starts_with_str(a: &[u8], s: &str) -> (res: bool)
    ensures
        res == (a@.len() >= s.spec_bytes().len() && a@.take(s.spec_bytes().len() as int)
            == s.spec_bytes()),
{
    let p = s.as_bytes();
    if a.len() < p.len() {
        return false;
    }
    let mut i: usize = 0;
    while i < p.len()
        invariant
            p@ == s.spec_bytes(),
            p.len() <= a.len(),
            i <= p.len(),
            a@.take(i as int) == p@.take(i as int),
        decreases p.len() - i,
    {
        if a[i] != p[i] {
            assert(a@.take(p.len() as int)[i as int] == a@[i as int]);
            assert(a@.take(p.len() as int) != p@);
            return false;
        }
        i = i + 1;
        assert(a@.take(i as int) == a@.take(i - 1) + seq![a@[i - 1]]);
        assert(p@.take(i as int) == p@.take(i - 1) + seq![p@[i - 1]]);
    }
    assert(p@ == p@.take(p.len() as int));
    true
}

/// The bytes of `a` from index `from` on.
pub fn bytes_from(a: &[u8], from: usize) -> (res: Vec<u8>)
    requires
        from <= a.len(),
    ensures
        res@ == a@.skip(from as int),
{
    let mut res: Vec<u8> = Vec::new();
    let mut i: usize = from;
    while i < a.len()
        invariant
            from <= i <= a.len(),
            res@ == a@.subrange(from as int, i as int),
        decreases a.len() - i,
    {
        res.push(a[i]);
        i = i + 1;
        assert(a@.subrange(from as int, i as int) == a@.subrange(from as int, i - 1) + seq![
            a@[i - 1],
        ]);
    }
    res
}

/// Whether `needle` occurs in `hay` at byte position `i`.
pub open spec fn occurs_in_at(hay: Seq<u8>, needle: Seq<u8>, i: int) -> bool {
    0 <= i && i + needle.len() <= hay.len() && hay.subrange(i, i + needle.len()) == needle
}

/// Whether `needle` occurs somewhere in `hay`.
pub open spec fn occurs_in(hay: Seq<u8>, needle: Seq<u8>) -> bool {
    exists|i: int| occurs_in_at(hay, needle, i)
}

/// Whether `a` holds `needle` at position `at`.
fn bytes_at(a: &[u8], at: usize, needle: &[u8]) -> (res: bool)
    requires
        at + needle.len() <= a.len(),
    ensures
        res == occurs_in_at(a@, needle@, at as int),
{
    let mut i: usize = 0;
    while i < needle.len()
        invariant
            at + needle.len() <= a.len(),
            i <= needle.len(),
            a@.subrange(at as int, at + i) == needle@.take(i as int),
        decreases needle.len() - i,
    {
        if a[at + i] != needle[i] {
            assert(a@.subrange(at as int, at + needle.len())[i as int] == a@[at + i]);
            return false;
        }
        i = i + 1;
        assert(a@.subrange(at as int, at + i) == a@.subrange(at as int, at + i - 1) + seq![a@[at + i - 1]]);
        assert(needle@.take(i as int) == needle@.take(i - 1) + seq![needle@[i - 1]]);
    }
    assert(needle@ == needle@.take(needle.len() as int));
    true
}

/// Whether `needle` occurs in `hay`; the empty sequence occurs everywhere.
pub fn contains_bytes(hay: &[u8], needle: &[u8]) -> (res: bool)
    ensures
        res == occurs_in(hay@, needle@),
{
    if needle.len() > hay.len() {
        return false;
    }
    if needle.len() == 0 {
        assert(hay@.subrange(0, 0) =~= needle@);
        assert(occurs_in_at(hay@, needle@, 0));
        return true;
    }
    let last = hay.len() - needle.len();
    let mut at: usize = 0;
    while at <= last
        invariant
            last + needle.len() == hay.len(),
            needle.len() > 0,
            at <= last + 1,
            forall|i: int| 0 <= i < at ==> !occurs_in_at(hay@, needle@, i),
        decreases last + 1 - at,
    {
        if bytes_at(hay, at, needle) {
            return true;
        }
        at = at + 1;
    }
    false
}

/// Checks that `bytes` is UTF-8 and views it as text.
///
/// Trusted: calls `std::str::from_utf8`, which, as its documentation says,
/// succeeds exactly on valid UTF-8 and then holds the same bytes.
#[verifier::external_body]
pub(crate) fn str_from_utf8(bytes: &[u8]) -> (res: Option<&str>)
    ensures
        res is Some <==> valid_utf8(bytes@),
        res matches Some(s) ==> s.spec_bytes() == bytes@,
{
    std::str::from_utf8(bytes).ok()
}

} // verus!
