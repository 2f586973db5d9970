//! Decimal numbers: writing them as text and reading them back as
//! `str::parse` does.
use vstd::prelude::*;
use vstd::string::*;

verus! {

broadcast use vstd::string::group_string_axioms;

/// The decimal digit `d`.
pub open spec fn digit_char(d: int) -> char {
    if d == 0 {
        '0'
    } else if d == 1 {
        '1'
    } else if d == 2 {
        '2'
    } else if d == 3 {
        '3'
    } else if d == 4 {
        '4'
    } else if d == 5 {
        '5'
    } else if d == 6 {
        '6'
    } else if d == 7 {
        '7'
    } else if d == 8 {
        '8'
    } else {
        '9'
    }
}

/// The decimal representation of `n`, without leading zeros.
pub open spec fn decimal(n: nat) -> Seq<char>
    decreases n,
{
    if n < 10 {
        seq![digit_char(n as int)]
    } else {
        decimal(n / 10) + seq![digit_char(n as int % 10)]
    }
}

/// The decimal digit `d` as text.
fn digit_str(d: usize) -> (res: &'static str)
    requires
        d < 10,
    ensures
        res@ == seq![digit_char(d as int)],
{
    proof {
        reveal_strlit("0");
        reveal_strlit("1");
        reveal_strlit("2");
        reveal_strlit("3");
        reveal_strlit("4");
        reveal_strlit("5");
        reveal_strlit("6");
        reveal_strlit("7");
        reveal_strlit("8");
        reveal_strlit("9");
    }
    let res = if d == 0 {
        "0"
    } else if d == 1 {
        "1"
    } else if d == 2 {
        "2"
    } else if d == 3 {
        "3"
    } else if d == 4 {
        "4"
    } else if d == 5 {
        "5"
    } else if d == 6 {
        "6"
    } else if d == 7 {
        "7"
    } else if d == 8 {
        "8"
    } else {
        "9"
    };
    assert(res@ =~= seq![digit_char(d as int)]);
    res
}

/// Appends the decimal representation of `n` to `out`.
pub fn push_decimal(out: &mut String, n: usize)
    ensures
        final(out)@ == old(out)@ + decimal(n as nat),
    decreases n,
{
    if n >= 10 {
        push_decimal(out, n / 10);
    }
    out.append(digit_str(n % 10));
    proof {
        if n >= 10 {
            assert(decimal(n as nat) == decimal((n / 10) as nat) + seq![digit_char(n as int % 10)]);
        }
    }
}

/// The decimal representation of an integer, with a minus sign when negative.
pub open spec fn signed_decimal(i: int) -> Seq<char> {
    if i < 0 {
        seq!['-'] + decimal((-i) as nat)
    } else {
        decimal(i as nat)
    }
}

/// Appends the decimal representation of `i` to `out`.
pub fn push_signed(out: &mut String, i: i32)
    ensures
        final(out)@ == old(out)@ + signed_decimal(i as int),
{
    if i < 0 {
        out.append("-");
        proof {
            reveal_strlit("-");
        }
        let magnitude: i64 = -(i as i64);
        push_decimal(out, magnitude as usize);
        assert(old(out)@ + seq!['-'] + decimal((-i) as nat) =~= old(out)@ + signed_decimal(i as int));
    } else {
        push_decimal(out, i as usize);
    }
}

/// The value of the decimal digit `c`.
pub open spec fn digit_value(c: char) -> int {
    c as int - '0' as int
}

/// Whether `c` is a decimal digit.
pub open spec fn is_digit(c: char) -> bool {
    '0' <= c <= '9'
}

/// The value of the decimal digits `ds`.
pub open spec fn digits_value(ds: Seq<char>) -> int
    decreases ds.len(),
{
    if ds.len() == 0 {
        0
    } else {
        10 * digits_value(ds.drop_last()) + digit_value(ds.last())
    }
}

/// Whether `ds` is one or more decimal digits.
pub open spec fn all_digits(ds: Seq<char>) -> bool {
    ds.len() > 0 && forall|i: int| 0 <= i < ds.len() ==> is_digit(#[trigger] ds[i])
}

/// The integer that `s` writes, as `str::parse` reads it: an optional sign
/// (a minus only for a signed type) and one or more decimal digits.
pub open spec fn spec_parse_int(s: Seq<char>, signed: bool) -> Option<int> {
    if signed && s.len() > 0 && s[0] == '-' && all_digits(s.drop_first()) {
        Some(-digits_value(s.drop_first()))
    } else if s.len() > 0 && s[0] == '+' && all_digits(s.drop_first()) {
        Some(digits_value(s.drop_first()))
    } else if all_digits(s) {
        Some(digits_value(s))
    } else {
        None
    }
}

proof fn lemma_digits_nonneg(ds: Seq<char>)
    requires
        forall|i: int| 0 <= i < ds.len() ==> is_digit(#[trigger] ds[i]),
    ensures
        digits_value(ds) >= 0,
    decreases ds.len(),
{
    if ds.len() > 0 {
        lemma_digits_nonneg(ds.drop_last());
    }
}

/// The value of the digits of `s`, if they are all digits and the value is
/// at most `limit`.
fn parse_digits(s: &str, limit: u64) -> (res: Option<u64>)
    ensures
        match res {
            Some(v) => all_digits(s@) && v == digits_value(s@) && v <= limit,
            None => !(all_digits(s@) && digits_value(s@) <= limit),
        },
{
    let n = s.unicode_len();
    if n == 0 {
        return None;
    }
    let mut value: u64 = 0;
    let mut i: usize = 0;
    proof {
        assert(s@.take(0) =~= Seq::<char>::empty());
    }
    while i < n
        invariant
            n == s@.len(),
            i <= n,
            forall|j: int| 0 <= j < i ==> is_digit(#[trigger] s@[j]),
            value == digits_value(s@.take(i as int)),
            value <= limit,
        decreases n - i,
    {
        let c = s.get_char(i);
        assert(s@.take(i + 1).drop_last() =~= s@.take(i as int));
        if !('0' <= c && c <= '9') {
            return None;
        }
        let d = (c as u32 - '0' as u32) as u64;
        if d > limit || value > (limit - d) / 10 {
            proof {
                lemma_digits_prefix_grows(s@, i as int + 1);
                if d <= limit {
                    assert(value * 10 + d > limit) by (nonlinear_arith)
                        requires
                            value > (limit - d) / 10,
                            d <= limit,
                    ;
                }
            }
            return None;
        }
        assert(value * 10 + d <= limit) by (nonlinear_arith)
            requires
                value <= (limit - d) / 10,
                d <= limit,
        ;
        value = value * 10 + d;
        i = i + 1;
    }
    assert(s@.take(i as int) =~= s@);
    Some(value)
}

/// The value of all the digits is at least that of a prefix of them.
proof fn lemma_digits_prefix_grows(s: Seq<char>, k: int)
    requires
        0 <= k <= s.len(),
        forall|j: int| 0 <= j < k ==> is_digit(#[trigger] s[j]),
    ensures
        all_digits(s) ==> digits_value(s) >= digits_value(s.take(k)),
    decreases s.len() - k,
{
    if all_digits(s) {
        if k < s.len() {
            lemma_digits_prefix_grows(s, k + 1);
            assert(s.take(k + 1).drop_last() =~= s.take(k));
            lemma_digits_nonneg(s.take(k));
        } else {
            assert(s.take(k) =~= s);
        }
    }
}

/// `s` read as an `i32`, as `str::parse` reads it.
pub fn parse_i32(s: &str) -> (res: Option<i32>)
    ensures
        match spec_parse_int(s@, true) {
            Some(v) => if i32::MIN <= v <= i32::MAX {
                res == Some(v as i32)
            } else {
                res is None
            },
            None => res is None,
        },
{
    let n = s.unicode_len();
    if n > 0 && (s.get_char(0) == '-' || s.get_char(0) == '+') {
        let negative = s.get_char(0) == '-';
        let digits = s.substring_char(1, n);
        assert(digits@ =~= s@.drop_first());
        let limit: u64 = if negative {
            0x8000_0000
        } else {
            0x7fff_ffff
        };
        match parse_digits(digits, limit) {
            Some(v) => {
                if negative {
                    Some((-(v as i64)) as i32)
                } else {
                    Some(v as i32)
                }
            },
            None => {
                proof {
                    if all_digits(digits@) {
                        lemma_digits_nonneg(digits@);
                    }
                }
                None
            },
        }
    } else {
        proof {
            if n > 0 && all_digits(s@) {
                assert(is_digit(s@[0]));
            }
        }
        match parse_digits(s, 0x7fff_ffff) {
            Some(v) => Some(v as i32),
            None => {
                proof {
                    if all_digits(s@) {
                        lemma_digits_nonneg(s@);
                    }
                }
                None
            },
        }
    }
}

/// `s` read as a `usize`, as `str::parse` reads it.
pub fn parse_usize(s: &str) -> (res: Option<usize>)
    ensures
        match spec_parse_int(s@, false) {
            Some(v) => if 0 <= v <= usize::MAX {
                res == Some(v as usize)
            } else {
                res is None
            },
            None => res is None,
        },
{
    let n = s.unicode_len();
    let limit: u64 = usize::MAX as u64;
    if n > 0 && s.get_char(0) == '+' {
        let digits = s.substring_char(1, n);
        assert(digits@ =~= s@.drop_first());
        match parse_digits(digits, limit) {
            Some(v) => Some(v as usize),
            None => None,
        }
    } else {
        proof {
            if n > 0 && all_digits(s@) {
                assert(is_digit(s@[0]));
            }
        }
        match parse_digits(s, limit) {
            Some(v) => Some(v as usize),
            None => {
                proof {
                    if all_digits(s@) {
                        lemma_digits_nonneg(s@);
                    }
                }
                None
            },
        }
    }
}

/// `s` read as an `i32`, if it is one.
pub open spec fn spec_i32(s: Seq<char>) -> Option<i32> {
    match spec_parse_int(s, true) {
        Some(v) => if i32::MIN <= v <= i32::MAX {
            Some(v as i32)
        } else {
            None
        },
        None => None,
    }
}

/// `s` read as a `usize`, if it is one.
pub open spec fn spec_usize(s: Seq<char>) -> Option<usize> {
    match spec_parse_int(s, false) {
        Some(v) => if 0 <= v <= usize::MAX {
            Some(v as usize)
        } else {
            None
        },
        None => None,
    }
}

/// The decimal digit of `d` has the value `d`.
proof fn lemma_digit_char(d: int)
    requires
        0 <= d < 10,
    ensures
        is_digit(digit_char(d)),
        digit_value(digit_char(d)) == d,
{
    assert('0' as int == 48);
    assert('9' as int == 57);
    if d == 0 {
    } else if d == 1 {
        assert('1' as int == 49);
    } else if d == 2 {
        assert('2' as int == 50);
    } else if d == 3 {
        assert('3' as int == 51);
    } else if d == 4 {
        assert('4' as int == 52);
    } else if d == 5 {
        assert('5' as int == 53);
    } else if d == 6 {
        assert('6' as int == 54);
    } else if d == 7 {
        assert('7' as int == 55);
    } else if d == 8 {
        assert('8' as int == 56);
    }
}

/// Reading the decimal representation of `n` gives `n` back.
pub proof fn lemma_decimal_read_back(n: nat)
    ensures
        all_digits(decimal(n)),
        digits_value(decimal(n)) == n,
    decreases n,
{
    if n < 10 {
        lemma_digit_char(n as int);
        let ds = decimal(n);
        assert(ds == seq![digit_char(n as int)]);
        assert(ds.drop_last() =~= Seq::<char>::empty());
        assert(digits_value(Seq::<char>::empty()) == 0);
        assert(digits_value(ds) == 10 * digits_value(ds.drop_last()) + digit_value(ds.last()));
    } else {
        lemma_decimal_read_back(n / 10);
        lemma_digit_char(n as int % 10);
        let ds = decimal(n);
        assert(ds.drop_last() =~= decimal(n / 10));
        assert(ds.last() == digit_char(n as int % 10));
        assert(digits_value(ds) == 10 * digits_value(decimal(n / 10)) + digit_value(digit_char(n as int % 10)));
        assert(10 * (n / 10) + n % 10 == n);
        assert forall|i: int| 0 <= i < ds.len() implies is_digit(#[trigger] ds[i]) by {
            if i < ds.len() - 1 {
                assert(ds[i] == decimal(n / 10)[i]);
            }
        }
    }
}

/// `str::parse` reads the decimal representation of an integer back as that
/// integer.
pub proof fn lemma_signed_read_back(i: int)
    ensures
        spec_parse_int(signed_decimal(i), true) == Some(i),
        i >= 0 ==> spec_parse_int(signed_decimal(i), false) == Some(i),
{
    if i < 0 {
        lemma_decimal_read_back((-i) as nat);
        assert((seq!['-'] + decimal((-i) as nat)).drop_first() =~= decimal((-i) as nat));
    } else {
        lemma_decimal_read_back(i as nat);
        assert(is_digit(decimal(i as nat)[0]));
    }
}

/// No decimal representation holds a space.
pub proof fn lemma_signed_no_space(i: int)
    ensures
        forall|j: int| 0 <= j < signed_decimal(i).len() ==> #[trigger] signed_decimal(i)[j] != ' ',
{
    if i < 0 {
        lemma_decimal_read_back((-i) as nat);
        assert forall|j: int| 0 <= j < signed_decimal(i).len() implies #[trigger] signed_decimal(i)[j] != ' ' by {
            if j > 0 {
                assert(signed_decimal(i)[j] == decimal((-i) as nat)[j - 1]);
            }
        }
    } else {
        lemma_decimal_read_back(i as nat);
    }
}

} // verus!
