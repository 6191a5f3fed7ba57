//! Lexical and syntactic analysis of outputs from GDB.
//!
//! The accepted language is one GDB/MI output line:
//!
//! ```text
//! output         ::= record eol?
//! record         ::= digits? '^' result-class (',' results)?
//!                  | '*' async-class (',' results)?
//! results        ::= result (',' result)*
//! result         ::= identifier '=' value
//! value          ::= quoted | '{' results? '}' | '[' results ']' | '[' values? ']'
//! values         ::= value (',' value)*
//! eol            ::= "\n" | "\r" | "\r\n"
//! ```
//!
//! Identifiers are `[a-zA-Z][a-zA-Z0-9_-]*`; quoted strings use C escapes.

use super::raw_output::{
    AsyncExecClass, AsyncExecRecord, Record, ResultClass, ResultEntry, ResultRecord, ResultTuple,
    SpecEntry, SpecRecord, SpecValue, Value, entries_view, lemma_entries_view_push,
    lemma_values_view_push, values_view,
};
use crate::text::{
    chars_of, hex_value, is_alpha, is_alpha_exec, is_digit, is_digit_exec, is_hex_digit, range_eq_str,
    string_of_range,
};
use vstd::prelude::*;

verus! {

/// Error returned when the input was not recognized as a GDB/MI record.
#[derive(Clone, Copy, PartialEq, Eq, Debug, Default, Structural)]
pub struct ParseError;

/// Error returned when a word does not name a record class.
#[derive(Clone, Debug)]
pub struct InvalidResultClass(pub String);

// ------------------------------------------------------------------
// Specification of the grammar
// ------------------------------------------------------------------

/// Characters that may continue an identifier.
pub open spec fn is_ident_char(c: char) -> bool {
    is_alpha(c) || is_digit(c) || c == '-' || c == '_'
}

/// End of the longest run of identifier characters that starts at `i`.
pub open spec fn scan_ident(s: Seq<char>, i: int) -> int
    decreases s.len() - i,
{
    if 0 <= i < s.len() && is_ident_char(s[i]) {
        scan_ident(s, i + 1)
    } else {
        i
    }
}

/// End of the identifier that starts at `i`, if one does.
pub open spec fn sp_ident(s: Seq<char>, i: int) -> Option<int> {
    if 0 <= i < s.len() && is_alpha(s[i]) {
        Some(scan_ident(s, i + 1))
    } else {
        None
    }
}

/// End of the longest run of decimal digits that starts at `i`.
pub open spec fn scan_digits(s: Seq<char>, i: int) -> int
    decreases s.len() - i,
{
    if 0 <= i < s.len() && is_digit(s[i]) {
        scan_digits(s, i + 1)
    } else {
        i
    }
}

/// Position of the closing quote of a quoted string whose body starts at `i`.
///
/// A backslash always takes the following character with it,
/// which must not be a line feed.
pub open spec fn scan_quoted(s: Seq<char>, i: int) -> Option<int>
    decreases s.len() - i,
{
    if i < 0 || i >= s.len() {
        None
    } else if s[i] == '"' {
        Some(i)
    } else if s[i] == '\\' {
        if i + 1 < s.len() && s[i + 1] != '\n' {
            scan_quoted(s, i + 2)
        } else {
            None
        }
    } else {
        scan_quoted(s, i + 1)
    }
}

/// True for the octal digits.
pub open spec fn is_octal_digit(c: char) -> bool {
    '0' <= c <= '7'
}

/// The character that a single-character escape `\c` stands for, if any.
pub open spec fn simple_escape(c: char) -> Option<char> {
    if c == 'a' {
        Some('\x07')
    } else if c == 'b' {
        Some('\x08')
    } else if c == 't' {
        Some('\t')
    } else if c == 'n' {
        Some('\n')
    } else if c == 'v' {
        Some('\x0b')
    } else if c == 'f' {
        Some('\x0c')
    } else if c == 'r' {
        Some('\r')
    } else if c == '"' {
        Some('"')
    } else if c == '\'' {
        Some('\'')
    } else if c == '\\' {
        Some('\\')
    } else {
        None
    }
}

/// Length and code point of a numeric escape whose digits start at `t[2]`:
/// `\x` takes one or two hexadecimal digits (at least one),
/// an octal escape takes one to three octal digits.
pub open spec fn numeric_escape(t: Seq<char>) -> Option<(int, int)> {
    if t.len() >= 2 && t[1] == 'x' {
        if t.len() >= 3 && is_hex_digit(t[2]) {
            if t.len() >= 4 && is_hex_digit(t[3]) {
                Some((4, hex_value(t[2]) * 16 + hex_value(t[3])))
            } else {
                Some((3, hex_value(t[2])))
            }
        } else {
            None
        }
    } else if t.len() >= 2 && is_octal_digit(t[1]) {
        if t.len() >= 3 && is_octal_digit(t[2]) {
            if t.len() >= 4 && is_octal_digit(t[3]) {
                Some((4, (hex_value(t[1]) * 8 + hex_value(t[2])) * 8 + hex_value(t[3])))
            } else {
                Some((3, hex_value(t[1]) * 8 + hex_value(t[2])))
            }
        } else {
            Some((2, hex_value(t[1])))
        }
    } else {
        None
    }
}

/// Resolves the escape sequences in the body of a quoted string.
///
/// Numeric escapes must denote ASCII characters (at most `0x7f`).
pub open spec fn unescape(t: Seq<char>) -> Option<Seq<char>>
    decreases t.len(),
{
    if t.len() == 0 {
        Some(Seq::empty())
    } else if t[0] != '\\' {
        match unescape(t.skip(1)) {
            Some(rest) => Some(seq![t[0]] + rest),
            None => None,
        }
    } else if t.len() < 2 {
        None
    } else if simple_escape(t[1]) is Some {
        match unescape(t.skip(2)) {
            Some(rest) => Some(seq![simple_escape(t[1])->0] + rest),
            None => None,
        }
    } else {
        match numeric_escape(t) {
            Some((n, code)) => if code <= 0x7f {
                match unescape(t.skip(n)) {
                    Some(rest) => Some(seq![(code as u8) as char] + rest),
                    None => None,
                }
            } else {
                None
            },
            None => None,
        }
    }
}

/// The quoted string that starts at `i` (with its opening quote), resolved,
/// and the position just past its closing quote.
pub open spec fn sp_quoted(s: Seq<char>, i: int) -> Option<(Seq<char>, int)> {
    if 0 <= i < s.len() && s[i] == '"' {
        match scan_quoted(s, i + 1) {
            Some(k) => match unescape(s.subrange(i + 1, k)) {
                Some(u) => Some((u, k + 1)),
                None => None,
            },
            None => None,
        }
    } else {
        None
    }
}

/// The value that starts at `i` and the position just past it.
pub open spec fn sp_value(s: Seq<char>, i: int) -> Option<(SpecValue, int)>
    decreases s.len() - i, 0nat,
{
    if i < 0 || i >= s.len() {
        None
    } else if s[i] == '"' {
        match sp_quoted(s, i) {
            Some((u, j)) => Some((SpecValue::Const(u), j)),
            None => None,
        }
    } else if s[i] == '{' {
        if i + 1 < s.len() && s[i + 1] == '}' {
            Some((SpecValue::Tuple(Seq::empty()), i + 2))
        } else {
            match sp_results(s, i + 1) {
                Some((r, j)) => if i + 1 < j < s.len() && s[j] == '}' {
                    Some((SpecValue::Tuple(r), j + 1))
                } else {
                    None
                },
                None => None,
            }
        }
    } else if s[i] == '[' {
        if i + 1 < s.len() && s[i + 1] == ']' {
            Some((SpecValue::List(Seq::empty()), i + 2))
        } else if i + 1 < s.len() && is_alpha(s[i + 1]) {
            match sp_results(s, i + 1) {
                Some((r, j)) => if i + 1 < j < s.len() && s[j] == ']' {
                    Some((SpecValue::TupleList(r), j + 1))
                } else {
                    None
                },
                None => None,
            }
        } else {
            match sp_values(s, i + 1) {
                Some((l, j)) => if i + 1 < j < s.len() && s[j] == ']' {
                    Some((SpecValue::List(l), j + 1))
                } else {
                    None
                },
                None => None,
            }
        }
    } else {
        None
    }
}

/// The comma-separated values that start at `i` and the position just past them.
pub open spec fn sp_values(s: Seq<char>, i: int) -> Option<(Seq<SpecValue>, int)>
    decreases s.len() - i, 1nat,
{
    if i < 0 || i >= s.len() {
        None
    } else {
        match sp_value(s, i) {
            Some((v, j)) => if !(i < j <= s.len()) {
                None
            } else if j < s.len() && s[j] == ',' {
                match sp_values(s, j + 1) {
                    Some((rest, k)) => Some((seq![v] + rest, k)),
                    None => None,
                }
            } else {
                Some((seq![v], j))
            },
            None => None,
        }
    }
}

/// The named entry `key=value` that starts at `i` and the position just past it.
pub open spec fn sp_entry(s: Seq<char>, i: int) -> Option<(SpecEntry, int)>
    decreases s.len() - i, 1nat,
{
    if i < 0 || i >= s.len() {
        None
    } else {
        match sp_ident(s, i) {
            Some(k) => if i < k < s.len() && s[k] == '=' {
                match sp_value(s, k + 1) {
                    Some((v, j)) => Some((SpecEntry { key: s.subrange(i, k), value: v }, j)),
                    None => None,
                }
            } else {
                None
            },
            None => None,
        }
    }
}

/// The comma-separated entries that start at `i` and the position just past them.
pub open spec fn sp_results(s: Seq<char>, i: int) -> Option<(Seq<SpecEntry>, int)>
    decreases s.len() - i, 2nat,
{
    if i < 0 || i >= s.len() {
        None
    } else {
        match sp_entry(s, i) {
            Some((e, j)) => if !(i < j <= s.len()) {
                None
            } else if j < s.len() && s[j] == ',' {
                match sp_results(s, j + 1) {
                    Some((rest, k)) => Some((seq![e] + rest, k)),
                    None => None,
                }
            } else {
                Some((seq![e], j))
            },
            None => None,
        }
    }
}

/// True if the input ends at `k`, possibly after one line terminator.
pub open spec fn at_end(s: Seq<char>, k: int) -> bool {
    ||| k == s.len()
    ||| k + 1 == s.len() && (s[k] == '\n' || s[k] == '\r')
    ||| k + 2 == s.len() && s[k] == '\r' && s[k + 1] == '\n'
}

/// The payload that follows the record class ending at `j`.
pub open spec fn sp_tail(s: Seq<char>, j: int) -> Option<Seq<SpecEntry>> {
    if 0 <= j < s.len() && s[j] == ',' {
        match sp_results(s, j + 1) {
            Some((r, k)) => if at_end(s, k) {
                Some(r)
            } else {
                None
            },
            None => None,
        }
    } else if at_end(s, j) {
        Some(Seq::empty())
    } else {
        None
    }
}

/// The result class that a word names.
pub open spec fn spec_result_class(t: Seq<char>) -> Option<ResultClass> {
    if t == seq!['d', 'o', 'n', 'e'] {
        Some(ResultClass::Done)
    } else if t == seq!['r', 'u', 'n', 'n', 'i', 'n', 'g'] {
        Some(ResultClass::Running)
    } else if t == seq!['c', 'o', 'n', 'n', 'e', 'c', 't', 'e', 'd'] {
        Some(ResultClass::Connected)
    } else if t == seq!['e', 'r', 'r', 'o', 'r'] {
        Some(ResultClass::Error)
    } else if t == seq!['e', 'x', 'i', 't'] {
        Some(ResultClass::Exit)
    } else {
        None
    }
}

/// The async execution class that a word names.
pub open spec fn spec_async_exec_class(t: Seq<char>) -> Option<AsyncExecClass> {
    if t == seq!['r', 'u', 'n', 'n', 'i', 'n', 'g'] {
        Some(AsyncExecClass::Running)
    } else if t == seq!['s', 't', 'o', 'p', 'p', 'e', 'd'] {
        Some(AsyncExecClass::Stopped)
    } else {
        None
    }
}

/// The record that a whole line of GDB/MI output denotes, if any.
pub open spec fn spec_parse_record(s: Seq<char>) -> Option<SpecRecord> {
    if s.len() > 0 && s[0] == '*' {
        match sp_ident(s, 1) {
            Some(k) => match spec_async_exec_class(s.subrange(1, k)) {
                Some(c) => match sp_tail(s, k) {
                    Some(r) => Some(SpecRecord::AsyncExec { async_exec_class: c, results: r }),
                    None => None,
                },
                None => None,
            },
            None => None,
        }
    } else {
        let d = scan_digits(s, 0);
        if d < s.len() && s[d] == '^' {
            match sp_ident(s, d + 1) {
                Some(k) => match spec_result_class(s.subrange(d + 1, k)) {
                    Some(c) => match sp_tail(s, k) {
                        Some(r) => Some(
                            SpecRecord::Result {
                                token: if d > 0 {
                                    Some(s.subrange(0, d))
                                } else {
                                    None
                                },
                                result_class: c,
                                results: r,
                            },
                        ),
                        None => None,
                    },
                    None => None,
                },
                None => None,
            }
        } else {
            None
        }
    }
}

// ------------------------------------------------------------------
// Executable parser
// ------------------------------------------------------------------

fn is_hex_digit_exec(c: char) -> (b: bool)
    ensures
        b == is_hex_digit(c),
{
    ('0' <= c && c <= '9') || ('a' <= c && c <= 'f') || ('A' <= c && c <= 'F')
}

fn is_octal_digit_exec(c: char) -> (b: bool)
    ensures
        b == is_octal_digit(c),
{
    '0' <= c && c <= '7'
}

fn is_ident_char_exec(c: char) -> (b: bool)
    ensures
        b == is_ident_char(c),
{
    is_alpha_exec(c) || is_digit_exec(c) || c == '-' || c == '_'
}

fn hex_value_exec(c: char) -> (d: u32)
    requires
        is_hex_digit(c),
    ensures
        d == hex_value(c),
        d < 16,
{
    let u = c as u32;
    if '0' as u32 <= u && u <= '9' as u32 {
        u - '0' as u32
    } else if 'a' as u32 <= u && u <= 'f' as u32 {
        u - 'a' as u32 + 10
    } else {
        u - 'A' as u32 + 10
    }
}

fn scan_ident_exec(v: &Vec<char>, i: usize) -> (r: usize)
    requires
        i <= v.len(),
    ensures
        r == scan_ident(v@, i as int),
        i <= r <= v.len(),
{
    let mut j = i;
    while j < v.len() && is_ident_char_exec(v[j])
        invariant
            i <= j <= v.len(),
            scan_ident(v@, j as int) == scan_ident(v@, i as int),
        decreases v.len() - j,
    {
        j += 1;
    }
    j
}

fn scan_digits_exec(v: &Vec<char>, i: usize) -> (r: usize)
    requires
        i <= v.len(),
    ensures
        r == scan_digits(v@, i as int),
        i <= r <= v.len(),
{
    let mut j = i;
    while j < v.len() && is_digit_exec(v[j])
        invariant
            i <= j <= v.len(),
            scan_digits(v@, j as int) == scan_digits(v@, i as int),
        decreases v.len() - j,
    {
        j += 1;
    }
    j
}

fn scan_quoted_exec(v: &Vec<char>, i: usize) -> (r: Option<usize>)
    requires
        i <= v.len(),
    ensures
        r matches Some(k) ==> scan_quoted(v@, i as int) == Some(k as int) && i <= k < v.len(),
        r is None ==> scan_quoted(v@, i as int) is None,
{
    let mut j = i;
    while j < v.len()
        invariant
            i <= j <= v.len() + 1,
            scan_quoted(v@, j as int) == scan_quoted(v@, i as int),
        decreases v.len() - j,
    {
        if v[j] == '"' {
            return Some(j);
        } else if v[j] == '\\' {
            if j + 1 < v.len() && v[j + 1] != '\n' {
                j += 2;
            } else {
                return None;
            }
        } else {
            j += 1;
        }
    }
    None
}

fn simple_escape_exec(c: char) -> (r: Option<char>)
    ensures
        r == simple_escape(c),
{
    if c == 'a' {
        Some('\x07')
    } else if c == 'b' {
        Some('\x08')
    } else if c == 't' {
        Some('\t')
    } else if c == 'n' {
        Some('\n')
    } else if c == 'v' {
        Some('\x0b')
    } else if c == 'f' {
        Some('\x0c')
    } else if c == 'r' {
        Some('\r')
    } else if c == '"' {
        Some('"')
    } else if c == '\'' {
        Some('\'')
    } else if c == '\\' {
        Some('\\')
    } else {
        None
    }
}

/// Length and code point of the numeric escape that starts at `v[i]` (the backslash).
fn numeric_escape_exec(v: &Vec<char>, i: usize, hi: usize) -> (r: Option<(usize, u32)>)
    requires
        i + 2 <= hi <= v.len(),
    ensures
        r matches Some((n, code)) ==> numeric_escape(v@.subrange(i as int, hi as int)) == Some(
            (n as int, code as int),
        ) && 2 <= n <= 4 && i + n <= hi,
        r is None ==> numeric_escape(v@.subrange(i as int, hi as int)) is None,
{
    let ghost t = v@.subrange(i as int, hi as int);
    assert(t[1] == v@[i + 1]);
    let d = v[i + 1];
    if d == 'x' {
        if hi - i >= 3 && is_hex_digit_exec(v[i + 2]) {
            assert(t[2] == v@[i + 2]);
            let h1 = hex_value_exec(v[i + 2]);
            if hi - i >= 4 && is_hex_digit_exec(v[i + 3]) {
                assert(t[3] == v@[i + 3]);
                let h2 = hex_value_exec(v[i + 3]);
                Some((4, h1 * 16 + h2))
            } else {
                assert(hi - i >= 4 ==> t[3] == v@[i + 3]);
                Some((3, h1))
            }
        } else {
            assert(hi - i >= 3 ==> t[2] == v@[i + 2]);
            None
        }
    } else if is_octal_digit_exec(d) {
        let o1 = hex_value_exec(d);
        if hi - i >= 3 && is_octal_digit_exec(v[i + 2]) {
            assert(t[2] == v@[i + 2]);
            let o2 = hex_value_exec(v[i + 2]);
            if hi - i >= 4 && is_octal_digit_exec(v[i + 3]) {
                assert(t[3] == v@[i + 3]);
                let o3 = hex_value_exec(v[i + 3]);
                Some((4, (o1 * 8 + o2) * 8 + o3))
            } else {
                assert(hi - i >= 4 ==> t[3] == v@[i + 3]);
                Some((3, o1 * 8 + o2))
            }
        } else {
            assert(hi - i >= 3 ==> t[2] == v@[i + 2]);
            Some((2, o1))
        }
    } else {
        None
    }
}

/// Resolves the escape sequences in `v[lo..hi]`.
fn unescape_range(v: &Vec<char>, lo: usize, hi: usize) -> (r: Option<Vec<char>>)
    requires
        lo <= hi <= v.len(),
    ensures
        r matches Some(o) ==> unescape(v@.subrange(lo as int, hi as int)) == Some(o@),
        r is None ==> unescape(v@.subrange(lo as int, hi as int)) is None,
{
    let mut out: Vec<char> = Vec::new();
    let mut i = lo;
    while i < hi
        invariant
            lo <= i <= hi <= v.len(),
            unescape(v@.subrange(i as int, hi as int)) matches Some(rest) ==> unescape(
                v@.subrange(lo as int, hi as int),
            ) == Some(out@ + rest),
            unescape(v@.subrange(i as int, hi as int)) is None ==> unescape(
                v@.subrange(lo as int, hi as int),
            ) is None,
        decreases hi - i,
    {
        let ghost t = v@.subrange(i as int, hi as int);
        let ghost old_out = out@;
        assert(t[0] == v@[i as int]);
        let c = v[i];
        if c != '\\' {
            assert(t.skip(1) =~= v@.subrange(i + 1, hi as int));
            out.push(c);
            i += 1;
            proof {
                if let Some(rest) = unescape(v@.subrange(i as int, hi as int)) {
                    assert(old_out + (seq![c] + rest) =~= out@ + rest);
                }
            }
        } else if hi - i < 2 {
            return None;
        } else {
            assert(t[1] == v@[i + 1]);
            match simple_escape_exec(v[i + 1]) {
                Some(e) => {
                    assert(t.skip(2) =~= v@.subrange(i + 2, hi as int));
                    out.push(e);
                    i += 2;
                    proof {
                        if let Some(rest) = unescape(v@.subrange(i as int, hi as int)) {
                            assert(old_out + (seq![e] + rest) =~= out@ + rest);
                        }
                    }
                },
                None => {
                    match numeric_escape_exec(v, i, hi) {
                        Some((n, code)) => {
                            if code > 0x7f {
                                return None;
                            }
                            assert(t.skip(n as int) =~= v@.subrange(i + n, hi as int));
                            let ch = (code as u8) as char;
                            out.push(ch);
                            i += n;
                            proof {
                                if let Some(rest) = unescape(v@.subrange(i as int, hi as int)) {
                                    assert(old_out + (seq![ch] + rest) =~= out@ + rest);
                                }
                            }
                        },
                        None => {
                            return None;
                        },
                    }
                },
            }
        }
    }
    assert(v@.subrange(i as int, hi as int) =~= Seq::<char>::empty());
    assert(out@ + Seq::<char>::empty() =~= out@);
    Some(out)
}

fn parse_quoted(v: &Vec<char>, i: usize) -> (r: Option<(String, usize)>)
    requires
        i < v.len(),
        v@[i as int] == '"',
    ensures
        r matches Some((u, j)) ==> sp_quoted(v@, i as int) == Some((u@, j as int)) && i < j
            <= v.len(),
        r is None ==> sp_quoted(v@, i as int) is None,
{
    match scan_quoted_exec(v, i + 1) {
        Some(k) => match unescape_range(v, i + 1, k) {
            Some(u) => Some((crate::text::string_from_chars(&u), k + 1)),
            None => None,
        },
        None => None,
    }
}

fn parse_value(v: &Vec<char>, i: usize) -> (r: Option<(Value, usize)>)
    ensures
        r matches Some((x, j)) ==> sp_value(v@, i as int) == Some((x@, j as int)) && i < j
            <= v.len(),
        r is None ==> sp_value(v@, i as int) is None,
    decreases v.len() - i, 0nat,
{
    if i >= v.len() {
        return None;
    }
    let c = v[i];
    if c == '"' {
        match parse_quoted(v, i) {
            Some((u, j)) => Some((Value::Const(u), j)),
            None => None,
        }
    } else if c == '{' {
        if i + 1 < v.len() && v[i + 1] == '}' {
            let x = Value::Tuple(ResultTuple(Vec::new()));
            assert(x@ == SpecValue::Tuple(Seq::empty()));
            Some((x, i + 2))
        } else {
            match parse_results(v, i + 1) {
                Some((r, j)) => if j < v.len() && v[j] == '}' {
                    Some((Value::Tuple(ResultTuple(r)), j + 1))
                } else {
                    None
                },
                None => None,
            }
        }
    } else if c == '[' {
        if i + 1 < v.len() && v[i + 1] == ']' {
            let x = Value::List(Vec::new());
            assert(x@ == SpecValue::List(Seq::empty()));
            Some((x, i + 2))
        } else if i + 1 < v.len() && is_alpha_exec(v[i + 1]) {
            match parse_results(v, i + 1) {
                Some((r, j)) => if j < v.len() && v[j] == ']' {
                    Some((Value::TupleList(ResultTuple(r)), j + 1))
                } else {
                    None
                },
                None => None,
            }
        } else {
            match parse_values(v, i + 1) {
                Some((l, j)) => if j < v.len() && v[j] == ']' {
                    Some((Value::List(l), j + 1))
                } else {
                    None
                },
                None => None,
            }
        }
    } else {
        None
    }
}

fn parse_values(v: &Vec<char>, i: usize) -> (r: Option<(Vec<Value>, usize)>)
    ensures
        r matches Some((l, j)) ==> sp_values(v@, i as int) == Some((values_view(l@), j as int))
            && i < j <= v.len(),
        r is None ==> sp_values(v@, i as int) is None,
    decreases v.len() - i, 1nat,
{
    let mut acc: Vec<Value> = Vec::new();
    let mut cur = i;
    loop
        invariant
            i <= cur,
            sp_values(v@, cur as int) matches Some((rest, k)) ==> sp_values(v@, i as int) == Some(
                (values_view(acc@) + rest, k),
            ),
            sp_values(v@, cur as int) is None ==> sp_values(v@, i as int) is None,
            cur > i ==> cur <= v.len(),
            cur == i ==> acc@.len() == 0,
        decreases v.len() - cur,
    {
        if cur >= v.len() {
            return None;
        }
        match parse_value(v, cur) {
            None => {
                return None;
            },
            Some((x, j)) => {
                let ghost old_acc = acc@;
                proof {
                    lemma_values_view_push(old_acc, x);
                }
                acc.push(x);
                if j < v.len() && v[j] == ',' {
                    cur = j + 1;
                    proof {
                        if let Some((rest, k)) = sp_values(v@, cur as int) {
                            assert(values_view(old_acc) + (seq![x@] + rest) =~= values_view(acc@)
                                + rest);
                        }
                    }
                } else {
                    assert(values_view(old_acc) + seq![x@] =~= values_view(acc@));
                    assert(values_view(old_acc).len() == 0 ==> values_view(old_acc)
                        =~= Seq::<SpecValue>::empty());
                    return Some((acc, j));
                }
            },
        }
    }
}

fn parse_entry(v: &Vec<char>, i: usize) -> (r: Option<(ResultEntry, usize)>)
    ensures
        r matches Some((e, j)) ==> sp_entry(v@, i as int) == Some((e@, j as int)) && i < j
            <= v.len(),
        r is None ==> sp_entry(v@, i as int) is None,
    decreases v.len() - i, 1nat,
{
    if i >= v.len() || !is_alpha_exec(v[i]) {
        return None;
    }
    let k = scan_ident_exec(v, i + 1);
    if k < v.len() && v[k] == '=' {
        match parse_value(v, k + 1) {
            Some((x, j)) => {
                let key = string_of_range(v, i, k);
                Some((ResultEntry { key, value: x }, j))
            },
            None => None,
        }
    } else {
        None
    }
}

fn parse_results(v: &Vec<char>, i: usize) -> (r: Option<(Vec<ResultEntry>, usize)>)
    ensures
        r matches Some((l, j)) ==> sp_results(v@, i as int) == Some((entries_view(l@), j as int))
            && i < j <= v.len(),
        r is None ==> sp_results(v@, i as int) is None,
    decreases v.len() - i, 2nat,
{
    let mut acc: Vec<ResultEntry> = Vec::new();
    let mut cur = i;
    loop
        invariant
            i <= cur,
            sp_results(v@, cur as int) matches Some((rest, k)) ==> sp_results(v@, i as int)
                == Some((entries_view(acc@) + rest, k)),
            sp_results(v@, cur as int) is None ==> sp_results(v@, i as int) is None,
            cur > i ==> cur <= v.len(),
            cur == i ==> acc@.len() == 0,
        decreases v.len() - cur,
    {
        if cur >= v.len() {
            return None;
        }
        match parse_entry(v, cur) {
            None => {
                return None;
            },
            Some((e, j)) => {
                let ghost old_acc = acc@;
                proof {
                    lemma_entries_view_push(old_acc, e);
                }
                acc.push(e);
                if j < v.len() && v[j] == ',' {
                    cur = j + 1;
                    proof {
                        if let Some((rest, k)) = sp_results(v@, cur as int) {
                            assert(entries_view(old_acc) + (seq![e@] + rest) =~= entries_view(
                                acc@,
                            ) + rest);
                        }
                    }
                } else {
                    assert(entries_view(old_acc) + seq![e@] =~= entries_view(acc@));
                    assert(entries_view(old_acc).len() == 0 ==> entries_view(old_acc)
                        =~= Seq::<SpecEntry>::empty());
                    return Some((acc, j));
                }
            },
        }
    }
}

fn at_end_exec(v: &Vec<char>, k: usize) -> (b: bool)
    requires
        k <= v.len(),
    ensures
        b == at_end(v@, k as int),
{
    let rem = v.len() - k;
    rem == 0 || (rem == 1 && (v[k] == '\n' || v[k] == '\r')) || (rem == 2 && v[k] == '\r' && v[k
        + 1] == '\n')
}

fn parse_tail(v: &Vec<char>, j: usize) -> (r: Option<ResultTuple>)
    requires
        j <= v.len(),
    ensures
        r matches Some(t) ==> sp_tail(v@, j as int) == Some(t@),
        r is None ==> sp_tail(v@, j as int) is None,
{
    if j < v.len() && v[j] == ',' {
        match parse_results(v, j + 1) {
            Some((r, k)) => if at_end_exec(v, k) {
                Some(ResultTuple(r))
            } else {
                None
            },
            None => None,
        }
    } else if at_end_exec(v, j) {
        let t = ResultTuple(Vec::new());
        assert(t@ == Seq::<SpecEntry>::empty());
        Some(t)
    } else {
        None
    }
}

fn result_class_of_range(v: &Vec<char>, lo: usize, hi: usize) -> (r: Option<ResultClass>)
    requires
        lo <= hi <= v.len(),
    ensures
        r == spec_result_class(v@.subrange(lo as int, hi as int)),
{
    proof {
        reveal_strlit("done");
        assert("done"@ =~= seq!['d', 'o', 'n', 'e']);
        reveal_strlit("running");
        assert("running"@ =~= seq!['r', 'u', 'n', 'n', 'i', 'n', 'g']);
        reveal_strlit("connected");
        assert("connected"@ =~= seq!['c', 'o', 'n', 'n', 'e', 'c', 't', 'e', 'd']);
        reveal_strlit("error");
        assert("error"@ =~= seq!['e', 'r', 'r', 'o', 'r']);
        reveal_strlit("exit");
        assert("exit"@ =~= seq!['e', 'x', 'i', 't']);
    }
    if range_eq_str(v, lo, hi, "done") {
        Some(ResultClass::Done)
    } else if range_eq_str(v, lo, hi, "running") {
        Some(ResultClass::Running)
    } else if range_eq_str(v, lo, hi, "connected") {
        Some(ResultClass::Connected)
    } else if range_eq_str(v, lo, hi, "error") {
        Some(ResultClass::Error)
    } else if range_eq_str(v, lo, hi, "exit") {
        Some(ResultClass::Exit)
    } else {
        None
    }
}

fn async_exec_class_of_range(v: &Vec<char>, lo: usize, hi: usize) -> (r: Option<AsyncExecClass>)
    requires
        lo <= hi <= v.len(),
    ensures
        r == spec_async_exec_class(v@.subrange(lo as int, hi as int)),
{
    proof {
        reveal_strlit("running");
        assert("running"@ =~= seq!['r', 'u', 'n', 'n', 'i', 'n', 'g']);
        reveal_strlit("stopped");
        assert("stopped"@ =~= seq!['s', 't', 'o', 'p', 'p', 'e', 'd']);
    }
    if range_eq_str(v, lo, hi, "running") {
        Some(AsyncExecClass::Running)
    } else if range_eq_str(v, lo, hi, "stopped") {
        Some(AsyncExecClass::Stopped)
    } else {
        None
    }
}

impl ResultClass {
    /// Reads a result class from its name (`done`, `running`, `connected`, `error`, `exit`).
    pub fn from_str(s: &str) -> (r: Result<ResultClass, InvalidResultClass>)
        ensures
            r matches Ok(c) ==> spec_result_class(s@) == Some(c),
            r matches Err(e) ==> spec_result_class(s@) is None && e.0@ == s@,
    {
        let v = chars_of(s);
        assert(v@.subrange(0, v@.len() as int) =~= s@);
        match result_class_of_range(&v, 0, v.len()) {
            Some(c) => Ok(c),
            None => Err(InvalidResultClass(crate::text::string_from_chars(&v))),
        }
    }
}

impl AsyncExecClass {
    /// Reads an async execution class from its name (`running`, `stopped`).
    pub fn from_str(s: &str) -> (r: Result<AsyncExecClass, InvalidResultClass>)
        ensures
            r matches Ok(c) ==> spec_async_exec_class(s@) == Some(c),
            r matches Err(e) ==> spec_async_exec_class(s@) is None && e.0@ == s@,
    {
        let v = chars_of(s);
        assert(v@.subrange(0, v@.len() as int) =~= s@);
        match async_exec_class_of_range(&v, 0, v.len()) {
            Some(c) => Ok(c),
            None => Err(InvalidResultClass(crate::text::string_from_chars(&v))),
        }
    }
}

/// Parses a single line of GDB/MI output.
///
/// Result records (`^`) and asynchronous execution records (`*`) are supported.
pub fn parse_gdbmi_record(input: &str) -> (r: Result<Record, ParseError>)
    ensures
        r matches Ok(rec) ==> spec_parse_record(input@) == Some(rec@),
        r is Err ==> spec_parse_record(input@) is None,
{
    let v = chars_of(input);
    let n = v.len();
    if n > 0 && v[0] == '*' {
        if n < 2 || !is_alpha_exec(v[1]) {
            return Err(ParseError);
        }
        let k = scan_ident_exec(&v, 2);
        match async_exec_class_of_range(&v, 1, k) {
            Some(c) => match parse_tail(&v, k) {
                Some(results) => Ok(
                    Record::AsyncExec(AsyncExecRecord { async_exec_class: c, results }),
                ),
                None => Err(ParseError),
            },
            None => Err(ParseError),
        }
    } else {
        let d = scan_digits_exec(&v, 0);
        if d < n && v[d] == '^' {
            if d + 1 >= n || !is_alpha_exec(v[d + 1]) {
                return Err(ParseError);
            }
            let k = scan_ident_exec(&v, d + 2);
            match result_class_of_range(&v, d + 1, k) {
                Some(c) => match parse_tail(&v, k) {
                    Some(results) => {
                        let token = if d > 0 {
                            Some(string_of_range(&v, 0, d))
                        } else {
                            None
                        };
                        Ok(Record::Result(ResultRecord { token, result_class: c, results }))
                    },
                    None => Err(ParseError),
                },
                None => Err(ParseError),
            }
        } else {
            Err(ParseError)
        }
    }
}

// ------------------------------------------------------------------
// Laws
// ------------------------------------------------------------------

/// The letter with which C writes a character as an escape in a quoted
/// string, if it needs one: the control codes from 0x07 to 0x0d (bell,
/// backspace, tab, line feed, vertical tab, form feed, carriage return) by
/// `a b t n v f r`, and the quotes and the backslash by themselves.
pub open spec fn c_escape_letter(c: char) -> Option<char> {
    if c == '\u{7}' {
        Some('a')
    } else if c == '\u{8}' {
        Some('b')
    } else if c == '\u{9}' {
        Some('t')
    } else if c == '\u{a}' {
        Some('n')
    } else if c == '\u{b}' {
        Some('v')
    } else if c == '\u{c}' {
        Some('f')
    } else if c == '\u{d}' {
        Some('r')
    } else if c == '"' {
        Some('"')
    } else if c == '\'' {
        Some('\'')
    } else if c == '\\' {
        Some('\\')
    } else {
        None
    }
}

/// A string written as the body of a C string literal: each character that
/// has an escape letter becomes a backslash and that letter.
pub open spec fn c_quoted_body(s: Seq<char>) -> Seq<char>
    decreases s.len(),
{
    if s.len() == 0 {
        seq![]
    } else {
        (match c_escape_letter(s[0]) {
            Some(l) => seq!['\\', l],
            None => seq![s[0]],
        }) + c_quoted_body(s.skip(1))
    }
}

/// Resolving the escapes of a quoted string undoes C quoting: any string,
/// written with C's escapes for control characters, quotes and
/// backslashes, reads back as itself.
pub proof fn lemma_unescape_reads_c_quoting(s: Seq<char>)
    ensures
        unescape(c_quoted_body(s)) == Some(s),
    decreases s.len(),
{
    if s.len() > 0 {
        lemma_unescape_reads_c_quoting(s.skip(1));
        let t = c_quoted_body(s);
        let rest = c_quoted_body(s.skip(1));
        match c_escape_letter(s[0]) {
            Some(l) => {
                assert(t =~= seq!['\\', l] + rest);
                assert(t.skip(2) =~= rest);
            },
            None => {
                assert(t =~= seq![s[0]] + rest);
                assert(t.skip(1) =~= rest);
            },
        }
        assert(seq![s[0]] + s.skip(1) =~= s);
    }
}

/// The body of a C-quoted string ends at the first quote after it.
proof fn lemma_scan_c_quoted(x: Seq<char>, s: Seq<char>, i: int)
    requires
        0 <= i,
        i + c_quoted_body(s).len() < x.len(),
        x.subrange(i, i + c_quoted_body(s).len()) == c_quoted_body(s),
        x[i + c_quoted_body(s).len()] == '"',
    ensures
        scan_quoted(x, i) == Some(i + c_quoted_body(s).len()),
    decreases s.len(),
{
    let t = c_quoted_body(s);
    if s.len() > 0 {
        let rest = c_quoted_body(s.skip(1));
        match c_escape_letter(s[0]) {
            Some(l) => {
                assert(t =~= seq!['\\', l] + rest);
                assert(x[i] == t[0]);
                assert(x[i + 1] == t[1]);
                assert(t.subrange(2, t.len() as int) =~= rest);
                assert(x.subrange(i + 2, i + 2 + rest.len()) =~= x.subrange(i, i + t.len()).subrange(2, t.len() as int));
                lemma_scan_c_quoted(x, s.skip(1), i + 2);
            },
            None => {
                assert(t =~= seq![s[0]] + rest);
                assert(x[i] == t[0]);
                assert(t.subrange(1, t.len() as int) =~= rest);
                assert(x.subrange(i + 1, i + 1 + rest.len()) =~= x.subrange(i, i + t.len()).subrange(1, t.len() as int));
                lemma_scan_c_quoted(x, s.skip(1), i + 1);
            },
        }
    }
}

/// A quoted string of GDB/MI output reads as the string that C quoting wrote
/// into it, whatever follows its closing quote.
pub proof fn lemma_quoted_reads_c_quoting(x: Seq<char>, s: Seq<char>, i: int)
    requires
        0 <= i,
        i + c_quoted_body(s).len() + 1 < x.len(),
        x[i] == '"',
        x.subrange(i + 1, i + 1 + c_quoted_body(s).len()) == c_quoted_body(s),
        x[i + 1 + c_quoted_body(s).len()] == '"',
    ensures
        sp_quoted(x, i) == Some((s, i + c_quoted_body(s).len() + 2)),
{
    lemma_scan_c_quoted(x, s, i + 1);
    lemma_unescape_reads_c_quoting(s);
}

/// The hexadecimal digits, by their values.
pub open spec fn hex_digits() -> Seq<char> {
    seq!['0', '1', '2', '3', '4', '5', '6', '7', '8', '9', 'a', 'b', 'c', 'd', 'e', 'f']
}

proof fn lemma_hex_digit(d: int)
    requires
        0 <= d < 16,
    ensures
        is_hex_digit(hex_digits()[d]),
        hex_value(hex_digits()[d]) == d,
        d < 8 ==> is_octal_digit(hex_digits()[d]),
        d < 10 ==> simple_escape(hex_digits()[d]) is None,
        hex_digits()[d] != 'x',
{
    assert(hex_digits()[d] == hex_digits().index(d));
    if d == 0 { assert(hex_digits()[d] == '0'); }
    else if d == 1 { assert(hex_digits()[d] == '1'); }
    else if d == 2 { assert(hex_digits()[d] == '2'); }
    else if d == 3 { assert(hex_digits()[d] == '3'); }
    else if d == 4 { assert(hex_digits()[d] == '4'); }
    else if d == 5 { assert(hex_digits()[d] == '5'); }
    else if d == 6 { assert(hex_digits()[d] == '6'); }
    else if d == 7 { assert(hex_digits()[d] == '7'); }
    else if d == 8 { assert(hex_digits()[d] == '8'); }
    else if d == 9 { assert(hex_digits()[d] == '9'); }
    else if d == 10 { assert(hex_digits()[d] == 'a'); }
    else if d == 11 { assert(hex_digits()[d] == 'b'); }
    else if d == 12 { assert(hex_digits()[d] == 'c'); }
    else if d == 13 { assert(hex_digits()[d] == 'd'); }
    else if d == 14 { assert(hex_digits()[d] == 'e'); }
    else { assert(hex_digits()[d] == 'f'); }
}

/// Every ASCII character, written as a hexadecimal escape `\xHH` or as an
/// octal escape `\ooo` of its code, reads back as itself.
pub proof fn lemma_numeric_escapes_read_back(n: int)
    requires
        0 <= n <= 0x7f,
    ensures
        unescape(seq!['\\', 'x', hex_digits()[n / 16], hex_digits()[n % 16]]) == Some(seq![(n as u8) as char]),
        unescape(seq!['\\', hex_digits()[n / 64], hex_digits()[(n / 8) % 8], hex_digits()[n % 8]]) == Some(
            seq![(n as u8) as char],
        ),
{
    reveal_with_fuel(unescape, 2);
    assert(simple_escape('x') is None);
    lemma_hex_digit(n / 16);
    lemma_hex_digit(n % 16);
    lemma_hex_digit(n / 64);
    lemma_hex_digit((n / 8) % 8);
    lemma_hex_digit(n % 8);
    let h = seq!['\\', 'x', hex_digits()[n / 16], hex_digits()[n % 16]];
    assert(h.skip(4) =~= Seq::<char>::empty());
    assert(seq![(n as u8) as char] + Seq::<char>::empty() =~= seq![(n as u8) as char]);
    let o = seq!['\\', hex_digits()[n / 64], hex_digits()[(n / 8) % 8], hex_digits()[n % 8]];
    assert(o.skip(4) =~= Seq::<char>::empty());
    assert((n / 16) * 16 + n % 16 == n);
    assert(((n / 64) * 8 + (n / 8) % 8) * 8 + n % 8 == n);
}

} // verus!
