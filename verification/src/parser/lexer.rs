//! Tokens of the stylesheet language and the lexer that produces them.
//!
//! The lexer reads the longest token it can from the current position and
//! never backtracks: once it has read a prefix that only a longer token could
//! complete, a failure to complete it is an error that covers what was read.
//! Blanks (`' '`, `'\t'`, `'\r'`, `'\n'`), line comments (`// ...`) and block
//! comments (`/* ... */`) are skipped; line feeds in what is skipped are counted
//! to locate tokens in the source.

use crate::text::{
    chars_of, is_alpha, is_alpha_exec, is_digit, is_digit_exec, parse_unsigned_range,
    spec_parse_unsigned, string_of_range,
};
use vstd::prelude::*;

verus! {

/// Reason why an integer literal could not be read.
#[derive(Clone, Copy, PartialEq, Eq, Debug, Structural)]
pub enum IntLiteralError {
    /// The literal denotes a number larger than `u64::MAX`.
    TooLarge,
}

/// Error emitted by the lexer when a token fails to parse.
#[derive(Clone, Copy, PartialEq, Eq, Debug, Structural)]
pub enum LexerError {
    /// Lexer failed without providing any additional information.
    Generic,
    /// Integer literal is too big to be stored in an integer variable.
    ParseIntError(IntLiteralError),
    /// Start of an unquoted token, but missing required alphabetic character.
    InvalidUnquoted,
    /// Start of a numeric literal followed immediately by alphabetic characters.
    AlphaCharacterInNumber,
    /// Quoted string literal did not end before the end of a line or the end of input.
    UnterminatedQuoted,
}

/// Text that describes a lexer error.
pub open spec fn lexer_error_message(e: LexerError) -> Seq<char> {
    match e {
        LexerError::Generic => "unspecified lexer error"@,
        LexerError::ParseIntError(_) => "invalid integer literal: number too large to fit in target type"@,
        LexerError::InvalidUnquoted => "invalid unquoted token"@,
        LexerError::AlphaCharacterInNumber => "alphabetic character in integer literal"@,
        LexerError::UnterminatedQuoted => "unterminated string literal"@,
    }
}

impl LexerError {
    /// Text that describes the error.
    pub fn message(&self) -> (r: String)
        ensures
            r@ == lexer_error_message(*self),
    {
        match self {
            LexerError::Generic => String::from_str("unspecified lexer error"),
            LexerError::ParseIntError(_) => String::from_str(
                "invalid integer literal: number too large to fit in target type",
            ),
            LexerError::InvalidUnquoted => String::from_str("invalid unquoted token"),
            LexerError::AlphaCharacterInNumber => String::from_str("alphabetic character in integer literal"),
            LexerError::UnterminatedQuoted => String::from_str("unterminated string literal"),
        }
    }
}

impl Default for LexerError {
    fn default() -> (r: Self)
        ensures
            r == LexerError::Generic,
    {
        LexerError::Generic
    }
}

/// Position information that the lexer keeps while reading a source.
#[derive(Clone, Copy, PartialEq, Eq, Debug, Default, Structural)]
pub struct SourceLocationInformation {
    /// Zero-based index of the line being read.
    pub line_index: usize,
    /// One-based offset of the last linefeed from the start of the input, in bytes.
    ///
    /// Value of zero means no linefeed has been encountered.
    pub line_offset: usize,
}

/// Tokens emitted by the lexer.
#[derive(Clone, PartialEq, Eq, Debug)]
pub enum Token {
    /// Unquoted token that can be used as an identifier
    /// or coerced to a string literal.
    ///
    /// It consists of ASCII letters, digits and dashes; leading dashes are
    /// allowed, but the first character that is not a dash must be a letter.
    Unquoted(String),
    /// Double-quoted string literal, without its quotes.
    Quoted(String),
    /// Decimal integer literal.
    Int(u64),
    /// `.if`, the selector matcher that restricts by a condition.
    RestrictMatcher,
    /// `.many`, the selector matcher that iterates.
    ManyMatcher,
    /// `.alt`, the selector matcher that branches.
    AltMatcher,
    /// `::`, the selector matcher that matches the root element.
    RootMatcher,
    /// `::edge`, the pseudo-element that selects the edge leading to a node.
    EdgeMatcher,
    /// `::extra`, the pseudo-element that selects a virtual element.
    ExtraMatcher,
    /// `+`
    Plus,
    /// `-`
    Minus,
    /// `!`
    Not,
    /// `*`
    Asterisk,
    /// `/`
    Slash,
    /// `%`
    Percent,
    /// `==`
    Equals,
    /// `!=`
    NotEquals,
    /// `<`
    Less,
    /// `>`
    Greater,
    /// `<=`
    LessEquals,
    /// `>=`
    GreaterEquals,
    /// `&&`
    DoubleAnd,
    /// `||`
    DoubleOr,
    /// `?`
    Question,
    /// `@`, the operator that introduces a selection expression.
    At,
    /// `;`
    Semicolon,
    /// `,`
    Comma,
    /// `:`
    Colon,
    /// `{`
    OpenBrace,
    /// `}`
    CloseBrace,
    /// `(`
    OpenParen,
    /// `)`
    CloseParen,
    /// `[`
    OpenBracket,
    /// `]`
    CloseBracket,
    /// `#`
    Hash,
}

/// Mathematical model of a token: the text of the two kinds that carry text,
/// and the token itself for the others.
pub enum SpecToken {
    Unquoted(Seq<char>),
    Quoted(Seq<char>),
    Plain(Token),
}

impl View for Token {
    type V = SpecToken;

    open spec fn view(&self) -> SpecToken {
        match self {
            Token::Unquoted(s) => SpecToken::Unquoted(s@),
            Token::Quoted(s) => SpecToken::Quoted(s@),
            _ => SpecToken::Plain(*self),
        }
    }
}

/// Model of one item of the lexer's output.
pub open spec fn item_view(r: Result<Token, LexerError>) -> Result<SpecToken, LexerError> {
    match r {
        Ok(t) => Ok(t@),
        Err(e) => Err(e),
    }
}

// ------------------------------------------------------------------
// Specification
// ------------------------------------------------------------------

/// Classes of characters that tokens are made of.
pub enum CharClass {
    /// `-`
    Dash,
    /// `[0-9]`
    Digit,
    /// `[a-zA-Z0-9]`
    Alnum,
    /// `[a-zA-Z0-9-]`, the rest of an unquoted token.
    UnquotedBody,
    /// Anything but `"` and a line feed.
    QuotedBody,
    /// Anything but a line feed.
    LineBody,
}

pub open spec fn in_class(cl: CharClass, c: char) -> bool {
    match cl {
        CharClass::Dash => c == '-',
        CharClass::Digit => is_digit(c),
        CharClass::Alnum => is_alpha(c) || is_digit(c),
        CharClass::UnquotedBody => is_alpha(c) || is_digit(c) || c == '-',
        CharClass::QuotedBody => c != '"' && c != '\n',
        CharClass::LineBody => c != '\n',
    }
}

/// End of the longest run of characters of a class that starts at `i`.
pub open spec fn run_end(s: Seq<char>, i: int, cl: CharClass) -> int
    decreases s.len() - i,
{
    if 0 <= i < s.len() && in_class(cl, s[i]) {
        run_end(s, i + 1, cl)
    } else {
        i
    }
}

/// Position of the first `*/` whose star is at or after `k`.
pub open spec fn comment_close(s: Seq<char>, k: int) -> Option<int>
    decreases s.len() - k,
{
    if k < 0 || k + 1 >= s.len() {
        None
    } else if s[k] == '*' && s[k + 1] == '/' {
        Some(k)
    } else {
        comment_close(s, k + 1)
    }
}

/// Number of leading characters of `word` that `s` spells from position `i`.
pub open spec fn matched_len(s: Seq<char>, i: int, word: Seq<char>) -> int
    decreases word.len(),
{
    if word.len() == 0 || i < 0 || i >= s.len() || s[i] != word[0] {
        0
    } else {
        1 + matched_len(s, i + 1, word.drop_first())
    }
}

/// True if the character after position `i` is `c`.
pub open spec fn followed_by(s: Seq<char>, i: int, c: char) -> bool {
    i + 1 < s.len() && s[i + 1] == c
}

/// What the lexer does with the characters it reads in one step.
pub enum Lexeme {
    /// They are skipped.
    Skip,
    /// They make up a token, or an error.
    Emit(Result<SpecToken, LexerError>),
}

pub open spec fn plain(t: Token, end: int) -> (Lexeme, int) {
    (Lexeme::Emit(Ok(SpecToken::Plain(t))), end)
}

pub open spec fn failed(e: LexerError, end: int) -> (Lexeme, int) {
    (Lexeme::Emit(Err(e)), end)
}

/// Tokens made of a single character that no longer token starts with.
pub open spec fn single_char_token(c: char) -> Option<Token> {
    if c == '+' {
        Some(Token::Plus)
    } else if c == '*' {
        Some(Token::Asterisk)
    } else if c == '%' {
        Some(Token::Percent)
    } else if c == '?' {
        Some(Token::Question)
    } else if c == '@' {
        Some(Token::At)
    } else if c == ';' {
        Some(Token::Semicolon)
    } else if c == ',' {
        Some(Token::Comma)
    } else if c == '{' {
        Some(Token::OpenBrace)
    } else if c == '}' {
        Some(Token::CloseBrace)
    } else if c == '(' {
        Some(Token::OpenParen)
    } else if c == ')' {
        Some(Token::CloseParen)
    } else if c == '[' {
        Some(Token::OpenBracket)
    } else if c == ']' {
        Some(Token::CloseBracket)
    } else if c == '#' {
        Some(Token::Hash)
    } else {
        None
    }
}

/// Operators of one or two characters, and characters that start no token.
pub open spec fn scan_operator(s: Seq<char>, i: int) -> (Lexeme, int) {
    let c = s[i];
    if c == '!' {
        if followed_by(s, i, '=') { plain(Token::NotEquals, i + 2) } else { plain(Token::Not, i + 1) }
    } else if c == '=' {
        if followed_by(s, i, '=') { plain(Token::Equals, i + 2) } else { failed(LexerError::Generic, i + 1) }
    } else if c == '<' {
        if followed_by(s, i, '=') { plain(Token::LessEquals, i + 2) } else { plain(Token::Less, i + 1) }
    } else if c == '>' {
        if followed_by(s, i, '=') { plain(Token::GreaterEquals, i + 2) } else { plain(Token::Greater, i + 1) }
    } else if c == '&' {
        if followed_by(s, i, '&') { plain(Token::DoubleAnd, i + 2) } else { failed(LexerError::Generic, i + 1) }
    } else if c == '|' {
        if followed_by(s, i, '|') { plain(Token::DoubleOr, i + 2) } else { failed(LexerError::Generic, i + 1) }
    } else {
        match single_char_token(c) {
            Some(t) => plain(t, i + 1),
            None => failed(LexerError::Generic, i + 1),
        }
    }
}

pub open spec fn word_if() -> Seq<char> {
    seq!['i', 'f']
}

pub open spec fn word_many() -> Seq<char> {
    seq!['m', 'a', 'n', 'y']
}

pub open spec fn word_alt() -> Seq<char> {
    seq!['a', 'l', 't']
}

pub open spec fn word_edge() -> Seq<char> {
    seq!['e', 'd', 'g', 'e']
}

pub open spec fn word_extra() -> Seq<char> {
    seq!['e', 'x', 't', 'r', 'a']
}

pub open spec fn max(a: int, b: int) -> int {
    if a >= b { a } else { b }
}

/// The matchers `.if`, `.many` and `.alt`, which start with the dot at `i`.
pub open spec fn scan_dot(s: Seq<char>, i: int) -> (Lexeme, int) {
    let a = matched_len(s, i + 1, word_if());
    let b = matched_len(s, i + 1, word_many());
    let c = matched_len(s, i + 1, word_alt());
    if a == 2 {
        plain(Token::RestrictMatcher, i + 3)
    } else if b == 4 {
        plain(Token::ManyMatcher, i + 5)
    } else if c == 3 {
        plain(Token::AltMatcher, i + 4)
    } else {
        failed(LexerError::Generic, i + 1 + max(a, max(b, c)))
    }
}

/// `:`, `::`, `::edge` and `::extra`, which start with the colon at `i`.
pub open spec fn scan_colon(s: Seq<char>, i: int) -> (Lexeme, int) {
    if !followed_by(s, i, ':') {
        plain(Token::Colon, i + 1)
    } else {
        let d = matched_len(s, i + 2, word_edge());
        let x = matched_len(s, i + 2, word_extra());
        if d == 4 {
            plain(Token::EdgeMatcher, i + 6)
        } else if x == 5 {
            plain(Token::ExtraMatcher, i + 7)
        } else if max(d, x) == 0 {
            plain(Token::RootMatcher, i + 2)
        } else {
            failed(LexerError::Generic, i + 2 + max(d, x))
        }
    }
}

/// Comments and the slash operator, which start with the slash at `i`.
pub open spec fn scan_slash(s: Seq<char>, i: int) -> (Lexeme, int) {
    if followed_by(s, i, '/') {
        (Lexeme::Skip, run_end(s, i + 2, CharClass::LineBody))
    } else if followed_by(s, i, '*') {
        match comment_close(s, i + 2) {
            Some(j) => (Lexeme::Skip, j + 2),
            None => failed(LexerError::Generic, s.len() as int),
        }
    } else {
        plain(Token::Slash, i + 1)
    }
}

/// Unquoted tokens, invalid ones and the minus operator, which start with the dash at `i`.
pub open spec fn scan_dash(s: Seq<char>, i: int) -> (Lexeme, int) {
    let j = run_end(s, i, CharClass::Dash);
    if j < s.len() && is_alpha(s[j]) {
        let e = run_end(s, j + 1, CharClass::UnquotedBody);
        (Lexeme::Emit(Ok(SpecToken::Unquoted(s.subrange(i, e)))), e)
    } else if j - i >= 2 {
        failed(LexerError::InvalidUnquoted, j)
    } else {
        plain(Token::Minus, i + 1)
    }
}

/// Integer literals, which start with the digit at `i`.
pub open spec fn scan_number(s: Seq<char>, i: int) -> (Lexeme, int) {
    let j = run_end(s, i, CharClass::Digit);
    if j < s.len() && is_alpha(s[j]) {
        failed(LexerError::AlphaCharacterInNumber, run_end(s, j + 1, CharClass::Alnum))
    } else {
        match spec_parse_unsigned(s.subrange(i, j), 10, u64::MAX as int) {
            Some(n) => plain(Token::Int(n as u64), j),
            None => failed(LexerError::ParseIntError(IntLiteralError::TooLarge), j),
        }
    }
}

/// Quoted strings, which start with the quote at `i`.
pub open spec fn scan_quoted(s: Seq<char>, i: int) -> (Lexeme, int) {
    let j = run_end(s, i + 1, CharClass::QuotedBody);
    if j < s.len() && s[j] == '"' {
        (Lexeme::Emit(Ok(SpecToken::Quoted(s.subrange(i + 1, j)))), j + 1)
    } else {
        failed(LexerError::UnterminatedQuoted, j)
    }
}

/// One step of the lexer at position `i`: what it makes of the characters it
/// reads, and the position after them.
pub open spec fn scan(s: Seq<char>, i: int) -> (Lexeme, int) {
    let c = s[i];
    if c == ' ' || c == '\t' || c == '\r' || c == '\n' {
        (Lexeme::Skip, i + 1)
    } else if c == '/' {
        scan_slash(s, i)
    } else if is_alpha(c) {
        let e = run_end(s, i + 1, CharClass::UnquotedBody);
        (Lexeme::Emit(Ok(SpecToken::Unquoted(s.subrange(i, e)))), e)
    } else if c == '-' {
        scan_dash(s, i)
    } else if is_digit(c) {
        scan_number(s, i)
    } else if c == '"' {
        scan_quoted(s, i)
    } else if c == '.' {
        scan_dot(s, i)
    } else if c == ':' {
        scan_colon(s, i)
    } else {
        scan_operator(s, i)
    }
}

/// Number of bytes in the UTF-8 encoding of a character.
pub open spec fn utf8_width(c: char) -> nat {
    if (c as u32) < 0x80 {
        1
    } else if (c as u32) < 0x800 {
        2
    } else if (c as u32) < 0x10000 {
        3
    } else {
        4
    }
}

/// Number of bytes in the UTF-8 encoding of a character sequence.
pub open spec fn byte_len(s: Seq<char>) -> nat
    decreases s.len(),
{
    if s.len() == 0 {
        0
    } else {
        utf8_width(s[0]) + byte_len(s.drop_first())
    }
}

/// Location information after reading `s[a..b]` as skipped text: each line feed
/// starts a new line, which begins at the byte after the line feed.
pub open spec fn lines_through(info: (int, int), s: Seq<char>, a: int, b: int) -> (int, int)
    decreases b - a,
{
    if b <= a {
        info
    } else {
        let prev = lines_through(info, s, a, b - 1);
        if s[b - 1] == '\n' {
            (prev.0 + 1, byte_len(s.take(b)) as int)
        } else {
            prev
        }
    }
}

/// One call of the lexer from position `i` with location `info`: the position
/// and location after it, and the token or error it yields, if any is left.
pub open spec fn next_item(s: Seq<char>, i: int, info: (int, int)) -> (
    int,
    (int, int),
    Option<Result<SpecToken, LexerError>>,
)
    decreases s.len() - i,
{
    if i < 0 || i >= s.len() {
        (i, info, None)
    } else {
        let (lexeme, e) = scan(s, i);
        if e <= i || e > s.len() {
            (i, info, None)
        } else {
            match lexeme {
                Lexeme::Skip => next_item(s, e, lines_through(info, s, i, e)),
                Lexeme::Emit(x) => (e, info, Some(x)),
            }
        }
    }
}

/// Everything the lexer yields from position `i` on.
pub open spec fn lex_from(s: Seq<char>, i: int) -> Seq<Result<SpecToken, LexerError>>
    decreases s.len() - i,
{
    let (e, _, item) = next_item(s, i, (0, 0));
    match item {
        None => seq![],
        Some(x) => if i < e && e <= s.len() {
            seq![x] + lex_from(s, e)
        } else {
            seq![]
        },
    }
}

// ------------------------------------------------------------------
// Lemmas
// ------------------------------------------------------------------

proof fn lemma_run_end(s: Seq<char>, i: int, cl: CharClass)
    requires
        0 <= i <= s.len(),
    ensures
        i <= run_end(s, i, cl) <= s.len(),
    decreases s.len() - i,
{
    if i < s.len() && in_class(cl, s[i]) {
        lemma_run_end(s, i + 1, cl);
    }
}

proof fn lemma_comment_close(s: Seq<char>, k: int)
    ensures
        comment_close(s, k) matches Some(j) ==> k <= j && j + 1 < s.len(),
    decreases s.len() - k,
{
    if k < 0 || k + 1 >= s.len() {
    } else if s[k] == '*' && s[k + 1] == '/' {
    } else {
        lemma_comment_close(s, k + 1);
    }
}

proof fn lemma_matched_len(s: Seq<char>, i: int, word: Seq<char>)
    requires
        0 <= i,
    ensures
        0 <= matched_len(s, i, word) <= word.len(),
        i + matched_len(s, i, word) <= s.len() || matched_len(s, i, word) == 0,
    decreases word.len(),
{
    if word.len() == 0 || i >= s.len() || s[i] != word[0] {
    } else {
        lemma_matched_len(s, i + 1, word.drop_first());
    }
}

/// Every step of the lexer reads at least one character and stays within the input.
proof fn lemma_scan_progress(s: Seq<char>, i: int)
    requires
        0 <= i < s.len(),
    ensures
        i < scan(s, i).1 <= s.len(),
{
    let c = s[i];
    lemma_run_end(s, i, CharClass::Dash);
    lemma_run_end(s, i, CharClass::Digit);
    lemma_run_end(s, i + 1, CharClass::UnquotedBody);
    lemma_run_end(s, i + 1, CharClass::QuotedBody);
    lemma_matched_len(s, i + 1, word_if());
    lemma_matched_len(s, i + 1, word_many());
    lemma_matched_len(s, i + 1, word_alt());
    if c == '/' {
        if followed_by(s, i, '/') {
            lemma_run_end(s, i + 2, CharClass::LineBody);
        } else if followed_by(s, i, '*') {
            lemma_comment_close(s, i + 2);
        }
    } else if c == '-' {
        lemma_run_end(s, i + 1, CharClass::Dash);
        let j = run_end(s, i, CharClass::Dash);
        if j < s.len() {
            lemma_run_end(s, j + 1, CharClass::UnquotedBody);
        }
    } else if is_digit(c) {
        lemma_run_end(s, i + 1, CharClass::Digit);
        let j = run_end(s, i, CharClass::Digit);
        if j < s.len() {
            lemma_run_end(s, j + 1, CharClass::Alnum);
        }
    } else if c == ':' && followed_by(s, i, ':') {
        lemma_matched_len(s, i + 2, word_edge());
        lemma_matched_len(s, i + 2, word_extra());
    }
}

/// The position that one call of the lexer reaches, and what it yields,
/// do not depend on the location information it starts with.
pub(crate) proof fn lemma_next_item(s: Seq<char>, i: int, info: (int, int), other: (int, int))
    requires
        0 <= i <= s.len(),
    ensures
        next_item(s, i, info).0 == next_item(s, i, other).0,
        next_item(s, i, info).2 == next_item(s, i, other).2,
        i <= next_item(s, i, info).0 <= s.len(),
        next_item(s, i, info).2 is Some ==> i < next_item(s, i, info).0,
        next_item(s, i, info).2 is None ==> next_item(s, i, info).0 == s.len(),
    decreases s.len() - i,
{
    if i < s.len() {
        lemma_scan_progress(s, i);
        let (lexeme, e) = scan(s, i);
        if let Lexeme::Skip = lexeme {
            lemma_next_item(s, e, lines_through(info, s, i, e), lines_through(other, s, i, e));
        }
    }
}

proof fn lemma_byte_len_concat(a: Seq<char>, b: Seq<char>)
    ensures
        byte_len(a + b) == byte_len(a) + byte_len(b),
    decreases a.len(),
{
    if a.len() > 0 {
        assert((a + b).drop_first() =~= a.drop_first() + b);
        lemma_byte_len_concat(a.drop_first(), b);
    } else {
        assert(a + b =~= b);
    }
}

/// Extending a prefix by one character adds the width of that character.
proof fn lemma_byte_len_take(s: Seq<char>, k: int)
    requires
        0 <= k < s.len(),
    ensures
        byte_len(s.take(k + 1)) == byte_len(s.take(k)) + utf8_width(s[k]),
{
    assert(s.take(k + 1) =~= s.take(k) + seq![s[k]]);
    lemma_byte_len_concat(s.take(k), seq![s[k]]);
    assert(seq![s[k]].drop_first() =~= Seq::<char>::empty());
    assert(byte_len(seq![s[k]]) == utf8_width(s[k]) + byte_len(Seq::<char>::empty()));
}

/// A prefix never has more bytes than the whole sequence.
proof fn lemma_byte_len_prefix(s: Seq<char>, k: int)
    requires
        0 <= k <= s.len(),
    ensures
        byte_len(s.take(k)) <= byte_len(s),
{
    assert(s =~= s.take(k) + s.skip(k));
    lemma_byte_len_concat(s.take(k), s.skip(k));
}

/// `byte_len` counts the bytes of vstd's UTF-8 encoding.
proof fn lemma_byte_len_encoding(s: Seq<char>)
    ensures
        byte_len(s) == vstd::utf8::encode_utf8(s).len(),
    decreases s.len(),
{
    if s.len() > 0 {
        let c = s[0];
        vstd::utf8::char_is_scalar(c);
        lemma_byte_len_encoding(s.drop_first());
    }
}

// ------------------------------------------------------------------
// Executable lexer
// ------------------------------------------------------------------

/// What one step of the lexer made of the characters it read.
enum Scanned {
    Skip,
    Emit(Result<Token, LexerError>),
}

spec fn scanned_view(x: Scanned) -> Lexeme {
    match x {
        Scanned::Skip => Lexeme::Skip,
        Scanned::Emit(r) => Lexeme::Emit(item_view(r)),
    }
}

fn in_class_exec(cl: &CharClass, c: char) -> (b: bool)
    ensures
        b == in_class(*cl, c),
{
    match cl {
        CharClass::Dash => c == '-',
        CharClass::Digit => is_digit_exec(c),
        CharClass::Alnum => is_alpha_exec(c) || is_digit_exec(c),
        CharClass::UnquotedBody => is_alpha_exec(c) || is_digit_exec(c) || c == '-',
        CharClass::QuotedBody => c != '"' && c != '\n',
        CharClass::LineBody => c != '\n',
    }
}

fn run_end_exec(v: &Vec<char>, i: usize, cl: CharClass) -> (r: usize)
    requires
        i <= v.len(),
    ensures
        r as int == run_end(v@, i as int, cl),
        i <= r <= v.len(),
{
    proof {
        lemma_run_end(v@, i as int, cl);
    }
    let mut j = i;
    while j < v.len() && in_class_exec(&cl, v[j])
        invariant
            i <= j <= v.len(),
            run_end(v@, j as int, cl) == run_end(v@, i as int, cl),
        decreases v.len() - j,
    {
        j += 1;
    }
    j
}

fn comment_close_exec(v: &Vec<char>, k: usize) -> (r: Option<usize>)
    requires
        k <= v.len(),
    ensures
        r matches Some(j) ==> comment_close(v@, k as int) == Some(j as int),
        r is None ==> comment_close(v@, k as int) is None,
{
    let mut j = k;
    while j < v.len() && v.len() - j > 1
        invariant
            k <= j <= v.len(),
            comment_close(v@, j as int) == comment_close(v@, k as int),
        decreases v.len() - j,
    {
        if v[j] == '*' && v[j + 1] == '/' {
            return Some(j);
        }
        j += 1;
    }
    None
}

fn matched_len_exec(v: &Vec<char>, i: usize, word: &Vec<char>) -> (r: usize)
    requires
        i <= v.len(),
    ensures
        r as int == matched_len(v@, i as int, word@),
{
    let mut m: usize = 0;
    assert(word@.subrange(0, word@.len() as int) =~= word@);
    while m < word.len() && i + m < v.len() && v[i + m] == word[m]
        invariant
            i <= v.len(),
            m <= word.len(),
            i + m <= v.len(),
            matched_len(v@, i as int, word@) == m + matched_len(
                v@,
                i + m,
                word@.subrange(m as int, word@.len() as int),
            ),
        decreases word.len() - m,
    {
        assert(word@.subrange(m as int, word@.len() as int).drop_first() =~= word@.subrange(
            m + 1,
            word@.len() as int,
        ));
        m += 1;
    }
    m
}

fn followed_by_exec(v: &Vec<char>, i: usize, c: char) -> (b: bool)
    requires
        i < v.len(),
    ensures
        b == followed_by(v@, i as int, c),
{
    i + 1 < v.len() && v[i + 1] == c
}

fn single_char_token_exec(c: char) -> (r: Option<Token>)
    ensures
        r == single_char_token(c),
{
    if c == '+' {
        Some(Token::Plus)
    } else if c == '*' {
        Some(Token::Asterisk)
    } else if c == '%' {
        Some(Token::Percent)
    } else if c == '?' {
        Some(Token::Question)
    } else if c == '@' {
        Some(Token::At)
    } else if c == ';' {
        Some(Token::Semicolon)
    } else if c == ',' {
        Some(Token::Comma)
    } else if c == '{' {
        Some(Token::OpenBrace)
    } else if c == '}' {
        Some(Token::CloseBrace)
    } else if c == '(' {
        Some(Token::OpenParen)
    } else if c == ')' {
        Some(Token::CloseParen)
    } else if c == '[' {
        Some(Token::OpenBracket)
    } else if c == ']' {
        Some(Token::CloseBracket)
    } else if c == '#' {
        Some(Token::Hash)
    } else {
        None
    }
}

fn scan_operator_exec(v: &Vec<char>, i: usize) -> (r: (Scanned, usize))
    requires
        i < v.len(),
    ensures
        (scanned_view(r.0), r.1 as int) == scan_operator(v@, i as int),
{
    let c = v[i];
    if c == '!' {
        if followed_by_exec(v, i, '=') {
            (Scanned::Emit(Ok(Token::NotEquals)), i + 2)
        } else {
            (Scanned::Emit(Ok(Token::Not)), i + 1)
        }
    } else if c == '=' {
        if followed_by_exec(v, i, '=') {
            (Scanned::Emit(Ok(Token::Equals)), i + 2)
        } else {
            (Scanned::Emit(Err(LexerError::Generic)), i + 1)
        }
    } else if c == '<' {
        if followed_by_exec(v, i, '=') {
            (Scanned::Emit(Ok(Token::LessEquals)), i + 2)
        } else {
            (Scanned::Emit(Ok(Token::Less)), i + 1)
        }
    } else if c == '>' {
        if followed_by_exec(v, i, '=') {
            (Scanned::Emit(Ok(Token::GreaterEquals)), i + 2)
        } else {
            (Scanned::Emit(Ok(Token::Greater)), i + 1)
        }
    } else if c == '&' {
        if followed_by_exec(v, i, '&') {
            (Scanned::Emit(Ok(Token::DoubleAnd)), i + 2)
        } else {
            (Scanned::Emit(Err(LexerError::Generic)), i + 1)
        }
    } else if c == '|' {
        if followed_by_exec(v, i, '|') {
            (Scanned::Emit(Ok(Token::DoubleOr)), i + 2)
        } else {
            (Scanned::Emit(Err(LexerError::Generic)), i + 1)
        }
    } else {
        match single_char_token_exec(c) {
            Some(t) => (Scanned::Emit(Ok(t)), i + 1),
            None => (Scanned::Emit(Err(LexerError::Generic)), i + 1),
        }
    }
}

fn max_exec(a: usize, b: usize) -> (r: usize)
    ensures
        r as int == max(a as int, b as int),
{
    if a >= b {
        a
    } else {
        b
    }
}

fn scan_dot_exec(v: &Vec<char>, i: usize) -> (r: (Scanned, usize))
    requires
        i < v.len(),
    ensures
        (scanned_view(r.0), r.1 as int) == scan_dot(v@, i as int),
{
    let w_if: Vec<char> = vec!['i', 'f'];
    let w_many: Vec<char> = vec!['m', 'a', 'n', 'y'];
    let w_alt: Vec<char> = vec!['a', 'l', 't'];
    assert(w_if@ =~= word_if());
    assert(w_many@ =~= word_many());
    assert(w_alt@ =~= word_alt());
    let a = matched_len_exec(v, i + 1, &w_if);
    let b = matched_len_exec(v, i + 1, &w_many);
    let c = matched_len_exec(v, i + 1, &w_alt);
    proof {
        lemma_matched_len(v@, i + 1, word_if());
        lemma_matched_len(v@, i + 1, word_many());
        lemma_matched_len(v@, i + 1, word_alt());
    }
    if a == 2 {
        (Scanned::Emit(Ok(Token::RestrictMatcher)), i + 3)
    } else if b == 4 {
        (Scanned::Emit(Ok(Token::ManyMatcher)), i + 5)
    } else if c == 3 {
        (Scanned::Emit(Ok(Token::AltMatcher)), i + 4)
    } else {
        let m = max_exec(a, max_exec(b, c));
        (Scanned::Emit(Err(LexerError::Generic)), i + 1 + m)
    }
}

fn scan_colon_exec(v: &Vec<char>, i: usize) -> (r: (Scanned, usize))
    requires
        i < v.len(),
    ensures
        (scanned_view(r.0), r.1 as int) == scan_colon(v@, i as int),
{
    if !followed_by_exec(v, i, ':') {
        return (Scanned::Emit(Ok(Token::Colon)), i + 1);
    }
    let w_edge: Vec<char> = vec!['e', 'd', 'g', 'e'];
    let w_extra: Vec<char> = vec!['e', 'x', 't', 'r', 'a'];
    assert(w_edge@ =~= word_edge());
    assert(w_extra@ =~= word_extra());
    let d = matched_len_exec(v, i + 2, &w_edge);
    let x = matched_len_exec(v, i + 2, &w_extra);
    proof {
        lemma_matched_len(v@, i + 2, word_edge());
        lemma_matched_len(v@, i + 2, word_extra());
    }
    if d == 4 {
        (Scanned::Emit(Ok(Token::EdgeMatcher)), i + 6)
    } else if x == 5 {
        (Scanned::Emit(Ok(Token::ExtraMatcher)), i + 7)
    } else {
        let m = max_exec(d, x);
        if m == 0 {
            (Scanned::Emit(Ok(Token::RootMatcher)), i + 2)
        } else {
            (Scanned::Emit(Err(LexerError::Generic)), i + 2 + m)
        }
    }
}

fn scan_slash_exec(v: &Vec<char>, i: usize) -> (r: (Scanned, usize))
    requires
        i < v.len(),
    ensures
        (scanned_view(r.0), r.1 as int) == scan_slash(v@, i as int),
{
    if followed_by_exec(v, i, '/') {
        let e = run_end_exec(v, i + 2, CharClass::LineBody);
        (Scanned::Skip, e)
    } else if followed_by_exec(v, i, '*') {
        match comment_close_exec(v, i + 2) {
            Some(j) => {
                proof {
                    lemma_comment_close(v@, i + 2);
                }
                (Scanned::Skip, j + 2)
            },
            None => (Scanned::Emit(Err(LexerError::Generic)), v.len()),
        }
    } else {
        (Scanned::Emit(Ok(Token::Slash)), i + 1)
    }
}

fn scan_dash_exec(v: &Vec<char>, i: usize) -> (r: (Scanned, usize))
    requires
        i < v.len(),
    ensures
        (scanned_view(r.0), r.1 as int) == scan_dash(v@, i as int),
{
    let j = run_end_exec(v, i, CharClass::Dash);
    if j < v.len() && is_alpha_exec(v[j]) {
        let e = run_end_exec(v, j + 1, CharClass::UnquotedBody);
        (Scanned::Emit(Ok(Token::Unquoted(string_of_range(v, i, e)))), e)
    } else if j - i >= 2 {
        (Scanned::Emit(Err(LexerError::InvalidUnquoted)), j)
    } else {
        (Scanned::Emit(Ok(Token::Minus)), i + 1)
    }
}

fn scan_number_exec(v: &Vec<char>, i: usize) -> (r: (Scanned, usize))
    requires
        i < v.len(),
    ensures
        (scanned_view(r.0), r.1 as int) == scan_number(v@, i as int),
{
    let j = run_end_exec(v, i, CharClass::Digit);
    if j < v.len() && is_alpha_exec(v[j]) {
        let e = run_end_exec(v, j + 1, CharClass::Alnum);
        (Scanned::Emit(Err(LexerError::AlphaCharacterInNumber)), e)
    } else {
        match parse_unsigned_range(v, i, j, 10, u64::MAX) {
            Some(n) => (Scanned::Emit(Ok(Token::Int(n))), j),
            None => (Scanned::Emit(Err(LexerError::ParseIntError(IntLiteralError::TooLarge))), j),
        }
    }
}

fn scan_quoted_exec(v: &Vec<char>, i: usize) -> (r: (Scanned, usize))
    requires
        i < v.len(),
    ensures
        (scanned_view(r.0), r.1 as int) == scan_quoted(v@, i as int),
{
    let j = run_end_exec(v, i + 1, CharClass::QuotedBody);
    if j < v.len() && v[j] == '"' {
        (Scanned::Emit(Ok(Token::Quoted(string_of_range(v, i + 1, j)))), j + 1)
    } else {
        (Scanned::Emit(Err(LexerError::UnterminatedQuoted)), j)
    }
}

fn scan_exec(v: &Vec<char>, i: usize) -> (r: (Scanned, usize))
    requires
        i < v.len(),
    ensures
        (scanned_view(r.0), r.1 as int) == scan(v@, i as int),
        i < r.1 <= v.len(),
{
    proof {
        lemma_scan_progress(v@, i as int);
    }
    let c = v[i];
    if c == ' ' || c == '\t' || c == '\r' || c == '\n' {
        (Scanned::Skip, i + 1)
    } else if c == '/' {
        scan_slash_exec(v, i)
    } else if is_alpha_exec(c) {
        let e = run_end_exec(v, i + 1, CharClass::UnquotedBody);
        (Scanned::Emit(Ok(Token::Unquoted(string_of_range(v, i, e)))), e)
    } else if c == '-' {
        scan_dash_exec(v, i)
    } else if is_digit_exec(c) {
        scan_number_exec(v, i)
    } else if c == '"' {
        scan_quoted_exec(v, i)
    } else if c == '.' {
        scan_dot_exec(v, i)
    } else if c == ':' {
        scan_colon_exec(v, i)
    } else {
        scan_operator_exec(v, i)
    }
}

fn utf8_width_exec(c: char) -> (r: usize)
    ensures
        r == utf8_width(c),
{
    let u = c as u32;
    if u < 0x80 {
        1
    } else if u < 0x800 {
        2
    } else if u < 0x10000 {
        3
    } else {
        4
    }
}

/// Lexer over a stylesheet source.
pub struct Lexer {
    chars: Vec<char>,
    pos: usize,
    byte_pos: usize,
    extras: SourceLocationInformation,
}

impl Token {
    /// Starts lexing `source` from its beginning.
    pub fn lexer(source: &str) -> (r: Lexer)
        ensures
            r.wf(),
            r.source() == source@,
            r.pos() == 0,
            r.loc() == (0int, 0int),
    {
        Lexer::new(source)
    }
}

impl Lexer {
    /// The characters being lexed.
    pub closed spec fn source(&self) -> Seq<char> {
        self.chars@
    }

    /// The position of the next character to read.
    pub closed spec fn pos(&self) -> int {
        self.pos as int
    }

    /// The location information, as (line index, line offset).
    pub closed spec fn loc(&self) -> (int, int) {
        (self.extras.line_index as int, self.extras.line_offset as int)
    }

    pub closed spec fn wf(&self) -> bool {
        &&& self.pos <= self.chars.len()
        &&& self.byte_pos == byte_len(self.chars@.take(self.pos as int))
        &&& byte_len(self.chars@) <= usize::MAX
        &&& self.extras.line_index <= self.pos
        &&& self.extras.line_offset <= self.byte_pos
    }

    /// Starts lexing `source` from its beginning.
    pub fn new(source: &str) -> (r: Lexer)
        ensures
            r.wf(),
            r.source() == source@,
            r.pos() == 0,
            r.loc() == (0int, 0int),
    {
        let chars = chars_of(source);
        let bytes = source.as_bytes();
        let _n = bytes.len();
        proof {
            lemma_byte_len_encoding(source@);
            assert(chars@.take(0) =~= Seq::<char>::empty());
        }
        Lexer { chars, pos: 0, byte_pos: 0, extras: SourceLocationInformation { line_index: 0, line_offset: 0 } }
    }

    /// Location information after the last token that was read.
    pub fn extras(&self) -> (r: SourceLocationInformation)
        ensures
            (r.line_index as int, r.line_offset as int) == self.loc(),
    {
        self.extras
    }

    /// Moves to `end`; when `count_lines` holds, the line feeds passed over
    /// update the location information.
    fn advance(&mut self, end: usize, count_lines: bool)
        requires
            old(self).wf(),
            old(self).pos <= end <= old(self).chars.len(),
        ensures
            final(self).wf(),
            final(self).chars == old(self).chars,
            final(self).pos == end,
            final(self).loc() == if count_lines {
                lines_through(old(self).loc(), old(self).chars@, old(self).pos as int, end as int)
            } else {
                old(self).loc()
            },
    {
        let ghost start = self.pos as int;
        let ghost info = self.loc();
        while self.pos < end
            invariant
                self.wf(),
                self.chars == old(self).chars,
                start <= self.pos <= end <= self.chars.len(),
                self.loc() == if count_lines {
                    lines_through(info, self.chars@, start, self.pos as int)
                } else {
                    info
                },
            decreases end - self.pos,
        {
            let c = self.chars[self.pos];
            proof {
                lemma_byte_len_take(self.chars@, self.pos as int);
                lemma_byte_len_prefix(self.chars@, self.pos + 1);
            }
            self.byte_pos = self.byte_pos + utf8_width_exec(c);
            if count_lines && c == '\n' {
                self.extras.line_index = self.extras.line_index + 1;
                self.extras.line_offset = self.byte_pos;
            }
            self.pos = self.pos + 1;
        }
    }

    /// Reads the next token, or the next error; `None` at the end of the input.
    pub fn next(&mut self) -> (r: Option<Result<Token, LexerError>>)
        requires
            old(self).wf(),
        ensures
            final(self).wf(),
            final(self).source() == old(self).source(),
            next_item(old(self).source(), old(self).pos(), old(self).loc()) == (
                final(self).pos(),
                final(self).loc(),
                match r {
                    Some(x) => Some(item_view(x)),
                    None => None::<Result<SpecToken, LexerError>>,
                },
            ),
    {
        loop
            invariant
                self.wf(),
                self.chars == old(self).chars,
                next_item(old(self).source(), old(self).pos(), old(self).loc()) == next_item(
                    self.source(),
                    self.pos(),
                    self.loc(),
                ),
            decreases self.chars.len() - self.pos,
        {
            if self.pos >= self.chars.len() {
                return None;
            }
            let (scanned, end) = scan_exec(&self.chars, self.pos);
            match scanned {
                Scanned::Skip => {
                    self.advance(end, true);
                },
                Scanned::Emit(x) => {
                    self.advance(end, false);
                    return Some(x);
                },
            }
        }
    }
}

/// Lexes a whole source: every token and error in order.
pub fn tokenize(source: &str) -> (r: Vec<Result<Token, LexerError>>)
    ensures
        r@.map_values(|x: Result<Token, LexerError>| item_view(x)) == lex_from(source@, 0),
{
    let mut lexer = Lexer::new(source);
    let mut out: Vec<Result<Token, LexerError>> = Vec::new();
    loop
        invariant
            lexer.wf(),
            lexer.source() == source@,
            0 <= lexer.pos() <= source@.len(),
            out@.map_values(|x: Result<Token, LexerError>| item_view(x)) + lex_from(source@, lexer.pos())
                == lex_from(source@, 0),
        decreases source@.len() - lexer.pos(),
    {
        let ghost p = lexer.pos();
        let ghost info = lexer.loc();
        proof {
            lemma_next_item(source@, p, info, (0, 0));
        }
        match lexer.next() {
            None => {
                assert(lex_from(source@, p) =~= seq![]);
                assert(out@.map_values(|x: Result<Token, LexerError>| item_view(x)) + seq![]
                    =~= out@.map_values(|x: Result<Token, LexerError>| item_view(x)));
                return out;
            },
            Some(x) => {
                let ghost old_out = out@;
                out.push(x);
                assert(out@.map_values(|x: Result<Token, LexerError>| item_view(x)) =~= old_out.map_values(
                    |x: Result<Token, LexerError>| item_view(x),
                ).push(item_view(x)));
            },
        }
    }
}

} // verus!
