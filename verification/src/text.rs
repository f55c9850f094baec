//! Small verified text helpers shared by the address parser and the bus-name
//! validator: first-occurrence search, string equality, decimal conversion.

use vstd::prelude::*;
use vstd::string::StrSliceExecFns;
use vstd::string::StringExecFns;

verus! {

/// Index of the first occurrence of `c` in `s` at or after `i`.
pub open spec fn spec_find(s: Seq<char>, c: char, i: int) -> Option<int>
    decreases s.len() - i,
{
    if i < 0 || i >= s.len() {
        None
    } else if s[i] == c {
        Some(i)
    } else {
        spec_find(s, c, i + 1)
    }
}

/// A found index lies in range and is the first occurrence.
pub proof fn lemma_find_range(s: Seq<char>, c: char, i: int)
    requires
        0 <= i <= s.len(),
    ensures
        match spec_find(s, c, i) {
            Some(j) => i <= j < s.len() && s[j] == c && forall|k: int| i <= k < j ==> s[k] != c,
            None => forall|k: int| i <= k < s.len() ==> s[k] != c,
        },
    decreases s.len() - i,
{
    if i < s.len() && s[i] != c {
        lemma_find_range(s, c, i + 1);
    }
}

/// Finds the first occurrence of `c` in `s`.
pub fn find_char(s: &str, c: char) -> (r: Option<usize>)
    ensures
        match spec_find(s@, c, 0) {
            Some(j) => r matches Some(j2) && j2 == j,
            None => r is None,
        },
{
    let n = s.unicode_len();
    let mut i: usize = 0;
    loop
        invariant
            0 <= i <= n,
            n == s@.len(),
            spec_find(s@, c, 0) == spec_find(s@, c, i as int),
        decreases n - i,
    {
        if i >= n {
            return None;
        }
        if s.get_char(i) == c {
            return Some(i);
        }
        i = i + 1;
    }
}

/// Compares two strings character by character.
pub fn str_eq(a: &str, b: &str) -> (r: bool)
    ensures
        r == (a@ == b@),
{
    let na = a.unicode_len();
    let nb = b.unicode_len();
    if na != nb {
        assert(a@ != b@);
        return false;
    }
    let mut i: usize = 0;
    loop
        invariant
            0 <= i <= na,
            na == a@.len(),
            na == b@.len(),
            forall|k: int| 0 <= k < i ==> a@[k] == b@[k],
        decreases na - i,
    {
        if i >= na {
            assert(a@ =~= b@);
            return true;
        }
        if a.get_char(i) != b.get_char(i) {
            return false;
        }
        i = i + 1;
    }
}

/// True of an ASCII decimal digit.
pub open spec fn is_digit(c: char) -> bool {
    '0' <= c && c <= '9'
}

/// Value of a string of decimal digits, most significant first.
pub open spec fn spec_digits_val(s: Seq<char>) -> int
    decreases s.len(),
{
    if s.len() == 0 {
        0
    } else {
        spec_digits_val(s.drop_last()) * 10 + (s.last() as int - '0' as int)
    }
}

/// The `u16` a pure digit string denotes: at least one character, all of
/// them digits, and a value at most 65535.
pub open spec fn spec_parse_digits_u16(s: Seq<char>) -> Option<u16> {
    if s.len() >= 1 && (forall|k: int| 0 <= k < s.len() ==> is_digit(s[k])) && spec_digits_val(s)
        <= 65535 {
        Some(spec_digits_val(s) as u16)
    } else {
        None
    }
}

/// The `u16` a string denotes in decimal, if it does: an optional leading
/// `+`, then at least one digit, and a value at most 65535 (the grammar
/// `u16::from_str` accepts).
pub open spec fn spec_parse_u16(s: Seq<char>) -> Option<u16> {
    if s.len() >= 1 && s[0] == '+' {
        spec_parse_digits_u16(s.skip(1))
    } else {
        spec_parse_digits_u16(s)
    }
}

/// The digit value is never negative.
proof fn lemma_digits_val_nonneg(s: Seq<char>)
    requires
        forall|k: int| 0 <= k < s.len() ==> is_digit(s[k]),
    ensures
        spec_digits_val(s) >= 0,
    decreases s.len(),
{
    if s.len() > 0 {
        lemma_digits_val_nonneg(s.drop_last());
    }
}

/// Reads the digit string `s` as a `u16` if every character is a digit and
/// the value fits.
fn parse_digits_u16(s: &str) -> (r: Option<u16>)
    ensures
        r == spec_parse_digits_u16(s@),
{
    let n = s.unicode_len();
    if n == 0 {
        return None;
    }
    let mut i: usize = 0;
    let mut val: u32 = 0;
    let mut fits: bool = true;
    loop
        invariant
            0 <= i <= n,
            n == s@.len(),
            n >= 1,
            forall|k: int| 0 <= k < i ==> is_digit(s@[k]),
            fits ==> val == spec_digits_val(s@.subrange(0, i as int)) && val <= 65535,
            !fits ==> spec_digits_val(s@.subrange(0, i as int)) > 65535,
        decreases n - i,
    {
        if i >= n {
            assert(s@.subrange(0, i as int) =~= s@);
            if fits {
                assert(spec_digits_val(s@) as u16 == val as u16);
                return Some(val as u16);
            } else {
                return None;
            }
        }
        let c = s.get_char(i);
        if c < '0' || c > '9' {
            assert(!is_digit(s@[i as int]));
            return None;
        }
        let d: u32 = (c as u32) - 48;
        proof {
            assert(s@.subrange(0, i as int + 1).drop_last() =~= s@.subrange(0, i as int));
            assert(s@.subrange(0, i as int + 1).last() == s@[i as int]);
            lemma_digits_val_nonneg(s@.subrange(0, i as int));
            assert(d == s@[i as int] as int - '0' as int);
        }
        if fits {
            val = val * 10 + d;
            if val > 65535 {
                fits = false;
            }
        }
        i = i + 1;
    }
}

/// Parses a decimal `u16` as `u16::from_str` would: an optional leading `+`,
/// then digits.
pub fn parse_u16(s: &str) -> (r: Option<u16>)
    ensures
        r == spec_parse_u16(s@),
{
    let n = s.unicode_len();
    if n >= 1 && s.get_char(0) == '+' {
        let rest = s.substring_char(1, n);
        assert(rest@ =~= s@.skip(1));
        parse_digits_u16(rest)
    } else {
        parse_digits_u16(s)
    }
}

/// The decimal spelling of `n`, most significant digit first.
pub open spec fn spec_u32_dec(n: int) -> Seq<char>
    decreases n,
{
    if n < 0 {
        Seq::empty()
    } else if n < 10 {
        seq![spec_digit_char(n)]
    } else {
        spec_u32_dec(n / 10).push(spec_digit_char(n % 10))
    }
}

/// The character for one digit value.
pub open spec fn spec_digit_char(d: int) -> char {
    if d == 0 {
        '0'
    } else if d == 1 {
        '1'
    } else if d == 2 {
        '2'
    } else if d == 3 {
        '3'
    } else if d == 4 {
        '4'
    } else if d == 5 {
        '5'
    } else if d == 6 {
        '6'
    } else if d == 7 {
        '7'
    } else if d == 8 {
        '8'
    } else {
        '9'
    }
}

/// One digit as a borrowed string.
fn digit_str(d: u32) -> (r: &'static str)
    requires
        d < 10,
    ensures
        r@ =~= seq![spec_digit_char(d as int)],
{
    proof {
        reveal_strlit("0");
        reveal_strlit("1");
        reveal_strlit("2");
        reveal_strlit("3");
        reveal_strlit("4");
        reveal_strlit("5");
        reveal_strlit("6");
        reveal_strlit("7");
        reveal_strlit("8");
        reveal_strlit("9");
    }
    if d == 0 {
        "0"
    } else if d == 1 {
        "1"
    } else if d == 2 {
        "2"
    } else if d == 3 {
        "3"
    } else if d == 4 {
        "4"
    } else if d == 5 {
        "5"
    } else if d == 6 {
        "6"
    } else if d == 7 {
        "7"
    } else if d == 8 {
        "8"
    } else {
        "9"
    }
}

/// Writes `n` in decimal.
pub fn u32_dec_string(n: u32) -> (r: String)
    ensures
        r@ == spec_u32_dec(n as int),
    decreases n,
{
    if n < 10 {
        let s = String::from_str(digit_str(n));
        assert(s@ =~= spec_u32_dec(n as int));
        s
    } else {
        let mut s = u32_dec_string(n / 10);
        s.append(digit_str(n % 10));
        assert(s@ =~= spec_u32_dec(n as int));
        s
    }
}

} // verus!
