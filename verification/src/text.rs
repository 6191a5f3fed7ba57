//! Character-level helpers shared by the parsers: conversions between
//! strings and character vectors, comparisons and numeric literals.

use vstd::prelude::*;

verus! {

/// Collects the characters of a string slice.
pub(crate) fn chars_of(s: &str) -> (r: Vec<char>)
    ensures
        r@ == s@,
{
    let mut out: Vec<char> = Vec::new();
    push_str(&mut out, s);
    assert(out@ =~= s@);
    out
}

/// Builds a `String` from a vector of characters.
///
/// Calls `String::from_iter` on the characters; the contract claims that
/// the string holds exactly these characters in this order.
#[verifier::external_body]
pub(crate) fn string_from_chars(v: &Vec<char>) -> (r: String)
    ensures
        r@ == v@,
{
    String::from_iter(v.iter())
}

/// The text that std's `Debug` formatting writes for a string: the string
/// in double quotes, with the characters that need it escaped.
pub uninterp spec fn debug_text(s: Seq<char>) -> Seq<char>;

/// Formats a string as `format!("{:?}", s)` does, through std's `Debug`
/// implementation for `str`; the contract only names the result
/// [`debug_text`] of the string and claims nothing more of it.
#[verifier::external_body]
pub(crate) fn debug_quoted(s: &str) -> (r: String)
    ensures
        r@ == debug_text(s@),
{
    format!("{:?}", s)
}

/// Copies the characters `v[lo..hi]` into a new `String`.
pub(crate) fn string_of_range(v: &Vec<char>, lo: usize, hi: usize) -> (r: String)
    requires
        lo <= hi <= v.len(),
    ensures
        r@ == v@.subrange(lo as int, hi as int),
{
    let mut out: Vec<char> = Vec::new();
    let mut i = lo;
    while i < hi
        invariant
            lo <= i <= hi <= v.len(),
            out@ == v@.subrange(lo as int, i as int),
        decreases hi - i,
    {
        out.push(v[i]);
        i += 1;
        assert(out@ =~= v@.subrange(lo as int, i as int));
    }
    string_from_chars(&out)
}

/// Appends the characters of a string slice.
pub(crate) fn push_str(out: &mut Vec<char>, s: &str)
    ensures
        final(out)@ == old(out)@ + s@,
{
    let n = s.unicode_len();
    let mut i: usize = 0;
    let ghost start = out@;
    while i < n
        invariant
            n == s@.len(),
            i <= n,
            out@ == start + s@.subrange(0, i as int),
        decreases n - i,
    {
        out.push(s.get_char(i));
        assert(s@.subrange(0, i + 1) =~= s@.subrange(0, i as int).push(s@[i as int]));
        i += 1;
    }
    assert(s@.subrange(0, n as int) =~= s@);
}

/// Compares two string slices character by character.
pub fn str_eq(a: &str, b: &str) -> (r: bool)
    ensures
        r == (a@ == b@),
{
    let n = a.unicode_len();
    if n != b.unicode_len() {
        return false;
    }
    let mut i: usize = 0;
    while i < n
        invariant
            n == a@.len() == b@.len(),
            i <= n,
            a@.subrange(0, i as int) == b@.subrange(0, i as int),
        decreases n - i,
    {
        if a.get_char(i) != b.get_char(i) {
            assert(a@[i as int] != b@[i as int]);
            return false;
        }
        assert(a@.subrange(0, i + 1) =~= a@.subrange(0, i as int).push(a@[i as int]));
        assert(b@.subrange(0, i + 1) =~= b@.subrange(0, i as int).push(b@[i as int]));
        i += 1;
    }
    assert(a@ =~= a@.subrange(0, n as int));
    assert(b@ =~= b@.subrange(0, n as int));
    true
}

/// Compares the characters `v[lo..hi]` with a string slice.
pub(crate) fn range_eq_str(v: &Vec<char>, lo: usize, hi: usize, s: &str) -> (r: bool)
    requires
        lo <= hi <= v.len(),
    ensures
        r == (v@.subrange(lo as int, hi as int) == s@),
{
    let n = s.unicode_len();
    if hi - lo != n {
        return false;
    }
    let mut i: usize = 0;
    while i < n
        invariant
            lo <= hi <= v.len(),
            hi - lo == n == s@.len(),
            i <= n,
            v@.subrange(lo as int, lo + i) == s@.subrange(0, i as int),
        decreases n - i,
    {
        if v[lo + i] != s.get_char(i) {
            assert(v@.subrange(lo as int, hi as int)[i as int] != s@[i as int]);
            return false;
        }
        assert(v@.subrange(lo as int, lo + i + 1) =~= v@.subrange(lo as int, lo + i).push(
            v@[lo + i],
        ));
        assert(s@.subrange(0, i + 1) =~= s@.subrange(0, i as int).push(s@[i as int]));
        i += 1;
    }
    assert(s@ =~= s@.subrange(0, n as int));
    true
}

/// True for the ASCII decimal digits.
pub open spec fn is_digit(c: char) -> bool {
    '0' <= c <= '9'
}

/// True for the ASCII hexadecimal digits, in either case.
pub open spec fn is_hex_digit(c: char) -> bool {
    ||| '0' <= c <= '9'
    ||| 'a' <= c <= 'f'
    ||| 'A' <= c <= 'F'
}

/// True for the ASCII letters.
pub open spec fn is_alpha(c: char) -> bool {
    ||| 'a' <= c <= 'z'
    ||| 'A' <= c <= 'Z'
}

/// Tests for an ASCII letter.
pub(crate) fn is_alpha_exec(c: char) -> (b: bool)
    ensures
        b == is_alpha(c),
{
    ('a' <= c && c <= 'z') || ('A' <= c && c <= 'Z')
}

/// Tests for an ASCII decimal digit.
pub(crate) fn is_digit_exec(c: char) -> (b: bool)
    ensures
        b == is_digit(c),
{
    '0' <= c && c <= '9'
}

/// Numeric value of a hexadecimal (or decimal) digit.
pub open spec fn hex_value(c: char) -> int {
    if '0' <= c <= '9' {
        c as int - '0' as int
    } else if 'a' <= c <= 'f' {
        c as int - 'a' as int + 10
    } else {
        c as int - 'A' as int + 10
    }
}

/// True if every character is a digit of the given radix (10 or 16).
pub open spec fn all_digits(s: Seq<char>, radix: int) -> bool {
    forall|i: int|
        0 <= i < s.len() ==> if radix == 16 {
            is_hex_digit(#[trigger] s[i])
        } else {
            is_digit(s[i])
        }
}

/// The number that a sequence of digits denotes in the given radix.
pub open spec fn digits_value(s: Seq<char>, radix: int) -> int
    decreases s.len(),
{
    if s.len() == 0 {
        0
    } else {
        digits_value(s.drop_last(), radix) * radix + hex_value(s.last())
    }
}

/// The unsigned integer that std's `from_str_radix` reads from `s`:
/// an optional `+` sign followed by at least one digit of the radix,
/// provided the value does not exceed `max`.
pub open spec fn spec_parse_unsigned(s: Seq<char>, radix: int, max: int) -> Option<int> {
    let digits = if s.len() > 0 && s[0] == '+' {
        s.drop_first()
    } else {
        s
    };
    if digits.len() > 0 && all_digits(digits, radix) && digits_value(digits, radix) <= max {
        Some(digits_value(digits, radix))
    } else {
        None
    }
}

/// The signed integer that std's `i64::from_str` reads from `s`:
/// an optional sign followed by at least one decimal digit, within range.
pub open spec fn spec_parse_i64(s: Seq<char>) -> Option<int> {
    if s.len() > 0 && s[0] == '-' {
        let digits = s.drop_first();
        if digits.len() > 0 && all_digits(digits, 10) && digits_value(digits, 10) <= 0x8000_0000_0000_0000 {
            Some(-digits_value(digits, 10))
        } else {
            None
        }
    } else {
        spec_parse_unsigned(s, 10, i64::MAX as int)
    }
}

proof fn lemma_digits_value_nonneg(s: Seq<char>, radix: int)
    requires
        radix == 10 || radix == 16,
        all_digits(s, radix),
    ensures
        digits_value(s, radix) >= 0,
    decreases s.len(),
{
    if s.len() > 0 {
        assert(all_digits(s.drop_last(), radix)) by {
            assert forall|i: int| 0 <= i < s.drop_last().len() implies (if radix == 16 {
                is_hex_digit(#[trigger] s.drop_last()[i])
            } else {
                is_digit(s.drop_last()[i])
            }) by {
                assert(s.drop_last()[i] == s[i]);
            }
        }
        lemma_digits_value_nonneg(s.drop_last(), radix);
        assert(if radix == 16 {
            is_hex_digit(s[s.len() - 1])
        } else {
            is_digit(s[s.len() - 1])
        });
    }
}

/// Value of a single digit character, for a character already known to be a digit.
fn digit_of(c: char, radix: u64) -> (d: u64)
    requires
        radix == 10 ==> is_digit(c),
        radix == 16 ==> is_hex_digit(c),
        radix == 10 || radix == 16,
    ensures
        d == hex_value(c),
        d < radix,
{
    let u = c as u32;
    if '0' as u32 <= u && u <= '9' as u32 {
        (u - '0' as u32) as u64
    } else if 'a' as u32 <= u && u <= 'f' as u32 {
        (u - 'a' as u32 + 10) as u64
    } else {
        (u - 'A' as u32 + 10) as u64
    }
}

/// True if `c` is a digit of the radix (10 or 16).
fn is_digit_of(c: char, radix: u64) -> (b: bool)
    requires
        radix == 10 || radix == 16,
    ensures
        b == (if radix == 16 {
            is_hex_digit(c)
        } else {
            is_digit(c)
        }),
{
    let u = c as u32;
    if '0' as u32 <= u && u <= '9' as u32 {
        true
    } else if radix == 16 {
        ('a' as u32 <= u && u <= 'f' as u32) || ('A' as u32 <= u && u <= 'F' as u32)
    } else {
        false
    }
}

/// Reads the digits `v[lo..hi]` as a number no larger than `max`.
fn parse_digits(v: &Vec<char>, lo: usize, hi: usize, radix: u64, max: u64) -> (r: Option<u64>)
    requires
        lo <= hi <= v.len(),
        radix == 10 || radix == 16,
    ensures
        r matches Some(n) ==> hi > lo && all_digits(v@.subrange(lo as int, hi as int), radix as int)
            && n as int == digits_value(v@.subrange(lo as int, hi as int), radix as int) && n <= max,
        r is None ==> !(hi > lo && all_digits(v@.subrange(lo as int, hi as int), radix as int)
            && digits_value(v@.subrange(lo as int, hi as int), radix as int) <= max),
{
    let ghost r = radix as int;
    if hi == lo {
        return None;
    }
    let mut acc: u64 = 0;
    let mut overflow = false;
    let mut i = lo;
    while i < hi
        invariant
            lo <= i <= hi <= v.len(),
            radix == 10 || radix == 16,
            r == radix as int,
            all_digits(v@.subrange(lo as int, i as int), r),
            !overflow ==> acc as int == digits_value(v@.subrange(lo as int, i as int), r),
            !overflow ==> acc <= max,
            overflow ==> digits_value(v@.subrange(lo as int, i as int), r) > max,
        decreases hi - i,
    {
        let c = v[i];
        let ghost prefix = v@.subrange(lo as int, i as int);
        let ghost next = v@.subrange(lo as int, i + 1);
        assert(next.drop_last() =~= prefix);
        assert(next.last() == c);
        if !is_digit_of(c, radix) {
            assert(!all_digits(v@.subrange(lo as int, hi as int), r)) by {
                assert(v@.subrange(lo as int, hi as int)[i - lo] == c);
            }
            return None;
        }
        assert(all_digits(next, r)) by {
            assert forall|k: int| 0 <= k < next.len() implies (if r == 16 {
                is_hex_digit(#[trigger] next[k])
            } else {
                is_digit(next[k])
            }) by {
                if k < prefix.len() {
                    assert(next[k] == prefix[k]);
                }
            }
        }
        let d = digit_of(c, radix);
        proof {
            lemma_digits_value_nonneg(prefix, r);
        }
        if overflow {
            assert(digits_value(next, r) > max) by (nonlinear_arith)
                requires
                    digits_value(next, r) == digits_value(prefix, r) * r + d,
                    digits_value(prefix, r) > max,
                    r >= 10,
                    d >= 0,
                    max >= 0,
            ;
        } else {
            match acc.checked_mul(radix) {
                Some(m) => match m.checked_add(d) {
                    Some(n) => {
                        if n <= max {
                            acc = n;
                        } else {
                            overflow = true;
                        }
                    },
                    None => {
                        overflow = true;
                    },
                },
                None => {
                    assert(digits_value(next, r) > max) by (nonlinear_arith)
                        requires
                            digits_value(next, r) == acc * r + d,
                            acc * r > u64::MAX,
                            max <= u64::MAX,
                            d >= 0,
                    ;
                    overflow = true;
                },
            }
        }
        i += 1;
    }
    assert(v@.subrange(lo as int, hi as int) =~= v@.subrange(lo as int, i as int));
    if overflow {
        None
    } else {
        Some(acc)
    }
}

/// Reads `v[lo..hi]` the way std's `u64::from_str_radix` does (radix 10 or 16),
/// and accepts the result only if it does not exceed `max`.
pub(crate) fn parse_unsigned_range(v: &Vec<char>, lo: usize, hi: usize, radix: u64, max: u64) -> (r:
    Option<u64>)
    requires
        lo <= hi <= v.len(),
        radix == 10 || radix == 16,
    ensures
        r matches Some(n) ==> spec_parse_unsigned(v@.subrange(lo as int, hi as int), radix as int, max as int) == Some(n as int),
        r is None ==> spec_parse_unsigned(v@.subrange(lo as int, hi as int), radix as int, max as int) is None,
{
    let ghost s = v@.subrange(lo as int, hi as int);
    if lo < hi && v[lo] == '+' {
        assert(s.drop_first() =~= v@.subrange(lo + 1, hi as int));
        parse_digits(v, lo + 1, hi, radix, max)
    } else {
        parse_digits(v, lo, hi, radix, max)
    }
}

/// Reads a string the way std's `u64::from_str` does.
pub fn parse_u64(s: &str) -> (r: Option<u64>)
    ensures
        r matches Some(n) ==> spec_parse_unsigned(s@, 10, u64::MAX as int) == Some(n as int),
        r is None ==> spec_parse_unsigned(s@, 10, u64::MAX as int) is None,
{
    let v = chars_of(s);
    assert(v@.subrange(0, v@.len() as int) =~= s@);
    parse_unsigned_range(&v, 0, v.len(), 10, u64::MAX)
}

/// Reads a string the way std's `usize::from_str` does.
pub fn parse_usize(s: &str) -> (r: Option<usize>)
    ensures
        r matches Some(n) ==> spec_parse_unsigned(s@, 10, usize::MAX as int) == Some(n as int),
        r is None ==> spec_parse_unsigned(s@, 10, usize::MAX as int) is None,
{
    let v = chars_of(s);
    assert(v@.subrange(0, v@.len() as int) =~= s@);
    match parse_unsigned_range(&v, 0, v.len(), 10, usize::MAX as u64) {
        Some(n) => Some(n as usize),
        None => None,
    }
}

/// Reads a string the way std's `i64::from_str` does.
pub fn parse_i64(s: &str) -> (r: Option<i64>)
    ensures
        r matches Some(n) ==> spec_parse_i64(s@) == Some(n as int),
        r is None ==> spec_parse_i64(s@) is None,
{
    let v = chars_of(s);
    let n = v.len();
    if n > 0 && v[0] == '-' {
        assert(s@.drop_first() =~= v@.subrange(1, n as int));
        match parse_digits(&v, 1, n, 10, 0x8000_0000_0000_0000u64) {
            Some(m) => {
                if m == 0x8000_0000_0000_0000u64 {
                    Some(i64::MIN)
                } else {
                    Some(-(m as i64))
                }
            },
            None => None,
        }
    } else {
        assert(v@.subrange(0, n as int) =~= s@);
        match parse_unsigned_range(&v, 0, n, 10, i64::MAX as u64) {
            Some(m) => Some(m as i64),
            None => None,
        }
    }
}

} // verus!
