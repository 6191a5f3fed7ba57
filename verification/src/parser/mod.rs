//! The stylesheet language: its tokens, the lexer that reads them, and the
//! parser that builds stylesheets from them.

pub mod grammar;
pub mod lexer;
pub mod report;
pub mod symbols;
pub mod syntax;

use grammar::{ParseFailure, SyntaxError, syntax_error_message};
use lexer::{LexerError, SpecToken, Token, lex_from, lexer_error_message, next_item};
use report::{cooldown_after_events, next_cooldown};
use syntax::{Log, SpecSyntaxError, log_view, parse_tokens, stylesheet, syntax_error_view, views};
use crate::style::stylesheet::{RawPropertyKey, Stylesheet, sheet_view};
use crate::gdbmi::session::{decimal_text, push_decimal};
use crate::text::{push_str, string_from_chars};
use vstd::prelude::*;

verus! {

/// Recoverable lexer or parser input error, with where it occurred.
#[derive(Clone, PartialEq, Eq, Debug)]
pub struct ParseError {
    /// Information about the error.
    pub error_data: ParseErrorInfo,
    /// One-based number of the line where the error occurred.
    pub line_number: usize,
}

/// Recoverable lexer or parser errors.
#[derive(Clone, PartialEq, Eq, Debug)]
pub enum ParseErrorInfo {
    /// Error originating from the lexer.
    LexerError(LexerError),
    /// Error originating from the parser.
    SyntaxError(SyntaxError),
}

impl From<LexerError> for ParseErrorInfo {
    fn from(value: LexerError) -> (r: Self) {
        ParseErrorInfo::LexerError(value)
    }
}

impl vstd::std_specs::convert::FromSpecImpl<LexerError> for ParseErrorInfo {
    open spec fn obeys_from_spec() -> bool {
        true
    }

    open spec fn from_spec(v: LexerError) -> Self {
        ParseErrorInfo::LexerError(v)
    }
}

impl From<SyntaxError> for ParseErrorInfo {
    fn from(value: SyntaxError) -> (r: Self) {
        ParseErrorInfo::SyntaxError(value)
    }
}

impl vstd::std_specs::convert::FromSpecImpl<SyntaxError> for ParseErrorInfo {
    open spec fn obeys_from_spec() -> bool {
        true
    }

    open spec fn from_spec(v: SyntaxError) -> Self {
        ParseErrorInfo::SyntaxError(v)
    }
}

/// The tokens among what the lexer yields, in order, without the errors.
pub open spec fn ok_tokens(items: Seq<Result<SpecToken, LexerError>>) -> Seq<SpecToken>
    decreases items.len(),
{
    if items.len() == 0 {
        seq![]
    } else {
        let first: Seq<SpecToken> = match items[0] {
            Ok(t) => seq![t],
            Err(_) => seq![],
        };
        first + ok_tokens(items.drop_first())
    }
}

impl ParseError {
    /// Text that describes the error: its line number, then what went wrong.
    pub fn message(&self) -> (r: String)
        ensures
            r@ == "line "@ + decimal_text(self.line_number as nat) + ": "@ + match self.error_data {
                ParseErrorInfo::LexerError(e) => lexer_error_message(e),
                ParseErrorInfo::SyntaxError(e) => syntax_error_message(e),
            },
    {
        let mut out: Vec<char> = Vec::new();
        push_str(&mut out, "line ");
        push_decimal(&mut out, self.line_number as u64);
        push_str(&mut out, ": ");
        let detail = match &self.error_data {
            ParseErrorInfo::LexerError(e) => e.message(),
            ParseErrorInfo::SyntaxError(e) => e.message(),
        };
        push_str(&mut out, detail.as_str());
        string_from_chars(&out)
    }
}

/// What parsing tells an error handler, in order: an error it recovered
/// from, or that a token was accepted.
#[derive(Clone, PartialEq, Eq, Debug)]
pub enum ParseReport {
    /// An error, with the line where it occurred.
    Error(ParseError),
    /// A token was read.
    TokenAccepted,
}

/// Model of [`ParseErrorInfo`].
pub enum SpecErrorInfo {
    LexerError(LexerError),
    SyntaxError(SpecSyntaxError),
}

/// Model of [`ParseReport`]: an error with its one-based line number, or an accepted token.
pub enum SpecReport {
    Error(SpecErrorInfo, int),
    TokenAccepted,
}

/// The model of an error's information.
pub open spec fn error_info_view(e: ParseErrorInfo) -> SpecErrorInfo {
    match e {
        ParseErrorInfo::LexerError(l) => SpecErrorInfo::LexerError(l),
        ParseErrorInfo::SyntaxError(s) => SpecErrorInfo::SyntaxError(syntax_error_view(s)),
    }
}

/// The model of a report.
pub open spec fn report_view(r: ParseReport) -> SpecReport {
    match r {
        ParseReport::Error(e) => SpecReport::Error(error_info_view(e.error_data), e.line_number as int),
        ParseReport::TokenAccepted => SpecReport::TokenAccepted,
    }
}

/// The models of a sequence of reports.
pub open spec fn reports_view(r: Seq<ParseReport>) -> Seq<SpecReport> {
    r.map_values(|x: ParseReport| report_view(x))
}

/// What the lexer yields, each with the zero-based line it was read on: a
/// token (with its index among the tokens), an error, and last the end of the
/// input (with the number of tokens and the line where the input ends).
pub enum SpecLexed {
    Token(int, int),
    Error(LexerError, int),
    End(int, int),
}

/// What the lexer yields from position `i` of `s` with location `info`, the
/// `k` tokens before it not counted.
pub open spec fn lexed_from(s: Seq<char>, i: int, info: (int, int), k: int) -> Seq<SpecLexed>
    decreases s.len() - i,
{
    let (e, next_info, item) = next_item(s, i, info);
    match item {
        None => seq![SpecLexed::End(k, next_info.0)],
        Some(x) => if i < e && e <= s.len() {
            match x {
                Ok(_) => seq![SpecLexed::Token(k, next_info.0)] + lexed_from(s, e, next_info, k + 1),
                Err(err) => seq![SpecLexed::Error(err, next_info.0)] + lexed_from(s, e, next_info, k),
            }
        } else {
            seq![]
        },
    }
}

/// One-based line number of a zero-based line index.
pub open spec fn spec_line_number(line_index: int) -> int {
    if line_index < usize::MAX {
        line_index + 1
    } else {
        line_index
    }
}

/// The syntax errors logged for the token at index `k`, in their order,
/// reported on the line with index `line`.
pub open spec fn errors_at(log: Log, k: int, line: int) -> Seq<SpecReport>
    decreases log.len(),
{
    if log.len() == 0 {
        seq![]
    } else {
        errors_at(log.drop_last(), k, line) + if log.last().0 == k {
            seq![SpecReport::Error(SpecErrorInfo::SyntaxError(log.last().1), spec_line_number(line))]
        } else {
            seq![]
        }
    }
}

/// The reports of a parser that reads the tokens one at a time: a lexer
/// error where the lexer yields it; before each token, the syntax errors
/// found with that token ahead; then the token is accepted, unless parsing
/// stopped there (at `halt`); at the end of the input, the errors found there.
pub open spec fn reports(lexed: Seq<SpecLexed>, log: Log, halt: int) -> Seq<SpecReport>
    decreases lexed.len(),
{
    if lexed.len() == 0 {
        seq![]
    } else {
        match lexed[0] {
            SpecLexed::Error(e, line) => seq![
                SpecReport::Error(SpecErrorInfo::LexerError(e), spec_line_number(line)),
            ] + reports(lexed.drop_first(), log, halt),
            SpecLexed::Token(k, line) => errors_at(log, k, line) + if k >= halt {
                seq![]
            } else {
                seq![SpecReport::TokenAccepted] + reports(lexed.drop_first(), log, halt)
            },
            SpecLexed::End(k, line) => errors_at(log, k, line),
        }
    }
}

/// The reports of parsing `source`.
pub open spec fn source_reports(source: Seq<char>) -> Seq<SpecReport> {
    let (_, halt, log) = stylesheet(ok_tokens(lex_from(source, 0)));
    reports(lexed_from(source, 0, (0, 0), 0), log, halt)
}

/// The events that reports stand for, for the error filter: `true` for an
/// error, `false` for an accepted token.
pub open spec fn report_events(r: Seq<SpecReport>) -> Seq<bool> {
    r.map_values(|x: SpecReport| x is Error)
}

/// The reports of errors that the filter forwards: each error before which
/// the cooldown of a fresh filter fed with the reports before it is zero.
pub open spec fn forwarded(r: Seq<SpecReport>) -> Seq<SpecReport>
    decreases r.len(),
{
    if r.len() == 0 {
        seq![]
    } else {
        forwarded(r.drop_last()) + if r.last() is Error && cooldown_after_events(report_events(r.drop_last()))
            == 0 {
            seq![r.last()]
        } else {
            seq![]
        }
    }
}

/// The models of errors, as reports.
pub open spec fn error_reports(e: Seq<ParseError>) -> Seq<SpecReport> {
    e.map_values(|x: ParseError| SpecReport::Error(error_info_view(x.error_data), x.line_number as int))
}

/// Position of something the lexer yielded: a token (the index of the token),
/// or a lexer error; with the zero-based line it was read on.
enum Lexed {
    Token(usize, usize),
    Error(LexerError, usize),
}

/// The model of a position of something the lexer yielded.
spec fn lexed_view(l: Lexed) -> SpecLexed {
    match l {
        Lexed::Token(k, line) => SpecLexed::Token(k as int, line as int),
        Lexed::Error(e, line) => SpecLexed::Error(e, line as int),
    }
}

/// The models of positions of what the lexer yielded.
spec fn lexed_views(l: Seq<Lexed>) -> Seq<SpecLexed> {
    l.map_values(|x: Lexed| lexed_view(x))
}

/// One-based line number of a zero-based line index.
fn line_number(line_index: usize) -> (r: usize)
    ensures
        r as int == spec_line_number(line_index as int),
{
    if line_index < usize::MAX {
        line_index + 1
    } else {
        line_index
    }
}

/// Parses a stylesheet and lists what a parser that reads one token at a
/// time reports: see [`parse_stylesheet`].
pub fn parse_with_reports(source: &str) -> (r: (Result<Stylesheet<RawPropertyKey>, ParseFailure>, Vec<ParseReport>))
    ensures
        match stylesheet(ok_tokens(lex_from(source@, 0))).0 {
            Ok(rules) => r.0 matches Ok(s) && sheet_view(s) == rules,
            Err(e) => r.0 == Err::<Stylesheet<RawPropertyKey>, ParseFailure>(e),
        },
        reports_view(r.1@) == source_reports(source@),
{
    // Read all tokens, and where the lexer errors fall among them
    let mut lexer = Token::lexer(source);
    let mut tokens: Vec<Token> = Vec::new();
    let mut lexed: Vec<Lexed> = Vec::new();
    let ghost all_lexed = lexed_from(source@, 0, (0, 0), 0);
    assert(lexed_views(lexed@) =~= Seq::<SpecLexed>::empty());
    loop
        invariant
            lexer.wf(),
            lexer.source() == source@,
            0 <= lexer.pos() <= source@.len(),
            views(tokens@) + ok_tokens(lex_from(source@, lexer.pos())) == ok_tokens(lex_from(source@, 0)),
            all_lexed == lexed_from(source@, 0, (0, 0), 0),
            lexed_views(lexed@) + lexed_from(source@, lexer.pos(), lexer.loc(), tokens@.len() as int) == all_lexed,
            forall|x: int| 0 <= x < lexed@.len() ==> (#[trigger] lexed@[x] matches Lexed::Token(k, _) ==> k < tokens@.len()),
        ensures
            views(tokens@) == ok_tokens(lex_from(source@, 0)),
            all_lexed == lexed_views(lexed@) + seq![SpecLexed::End(tokens@.len() as int, lexer.loc().0)],
            forall|x: int| 0 <= x < lexed@.len() ==> (#[trigger] lexed@[x] matches Lexed::Token(k, _) ==> k < tokens@.len()),
        decreases source@.len() - lexer.pos(),
    {
        let ghost p = lexer.pos();
        let ghost loc = lexer.loc();
        let ghost rest = lex_from(source@, p);
        let ghost lexed_rest = lexed_from(source@, p, loc, tokens@.len() as int);
        proof {
            lexer::lemma_next_item(source@, p, loc, (0, 0));
        }
        let item = lexer.next();
        let line = lexer.extras().line_index;
        match item {
            None => {
                assert(rest =~= Seq::<Result<SpecToken, LexerError>>::empty());
                assert(ok_tokens(rest) =~= Seq::<SpecToken>::empty());
                assert(views(tokens@) + ok_tokens(rest) =~= views(tokens@));
                assert(lexed_rest == seq![SpecLexed::End(tokens@.len() as int, lexer.loc().0)]);
                break;
            },
            Some(Ok(t)) => {
                proof {
                    assert(rest[0] == Ok::<SpecToken, LexerError>(t@));
                    assert(rest.drop_first() =~= lex_from(source@, lexer.pos()));
                }
                let ghost before = tokens@;
                let ghost lexed_before = lexed@;
                lexed.push(Lexed::Token(tokens.len(), line));
                tokens.push(t);
                assert(views(tokens@) =~= views(before).push(t@));
                assert(views(tokens@) + ok_tokens(lex_from(source@, lexer.pos())) =~= views(before) + ok_tokens(
                    rest,
                ));
                assert(lexed_views(lexed@) =~= lexed_views(lexed_before).push(
                    SpecLexed::Token(before.len() as int, line as int),
                ));
                assert(lexed_rest =~= seq![SpecLexed::Token(before.len() as int, line as int)] + lexed_from(
                    source@,
                    lexer.pos(),
                    lexer.loc(),
                    tokens@.len() as int,
                ));
                assert(lexed_views(lexed@) + lexed_from(source@, lexer.pos(), lexer.loc(), tokens@.len() as int)
                    =~= lexed_views(lexed_before) + lexed_rest);
                assert forall|x: int| 0 <= x < lexed@.len() implies (#[trigger] lexed@[x] matches Lexed::Token(k, _) ==> k
                    < tokens@.len()) by {
                    if x < lexed_before.len() {
                        assert(lexed@[x] == lexed_before[x]);
                    }
                }
            },
            Some(Err(e)) => {
                proof {
                    assert(rest[0] == Err::<SpecToken, LexerError>(e));
                    assert(rest.drop_first() =~= lex_from(source@, lexer.pos()));
                    assert(ok_tokens(rest) =~= ok_tokens(lex_from(source@, lexer.pos())));
                }
                let ghost lexed_before = lexed@;
                lexed.push(Lexed::Error(e, line));
                assert(lexed_views(lexed@) =~= lexed_views(lexed_before).push(SpecLexed::Error(e, line as int)));
                assert(lexed_rest =~= seq![SpecLexed::Error(e, line as int)] + lexed_from(
                    source@,
                    lexer.pos(),
                    lexer.loc(),
                    tokens@.len() as int,
                ));
                assert(lexed_views(lexed@) + lexed_from(source@, lexer.pos(), lexer.loc(), tokens@.len() as int)
                    =~= lexed_views(lexed_before) + lexed_rest);
                assert forall|x: int| 0 <= x < lexed@.len() implies (#[trigger] lexed@[x] matches Lexed::Token(k, _) ==> k
                    < tokens@.len()) by {
                    if x < lexed_before.len() {
                        assert(lexed@[x] == lexed_before[x]);
                    }
                }
            },
        }
    }
    let final_line = lexer.extras().line_index;
    // Parse them
    let (result, halt, log) = parse_tokens(&tokens);
    let ghost spec_log = log_view(log@);
    let ghost total = reports(all_lexed, spec_log, halt as int);
    // List the reports as a parser that reads one token at a time would make them
    let mut out: Vec<ParseReport> = Vec::new();
    let mut i: usize = 0;
    let mut halted = false;
    assert(all_lexed.skip(0) =~= all_lexed);
    assert(reports_view(out@) =~= Seq::<SpecReport>::empty());
    while i < lexed.len() && !halted
        invariant
            i <= lexed@.len(),
            spec_log == log_view(log@),
            all_lexed == lexed_views(lexed@) + seq![SpecLexed::End(tokens@.len() as int, final_line as int)],
            total == reports(all_lexed, spec_log, halt as int),
            !halted ==> reports_view(out@) + reports(all_lexed.skip(i as int), spec_log, halt as int) == total,
            halted ==> reports_view(out@) == total,
        decreases lexed@.len() - i,
    {
        let ghost rest = all_lexed.skip(i as int);
        assert(rest[0] == lexed_view(lexed@[i as int]));
        assert(rest.drop_first() =~= all_lexed.skip(i + 1));
        let ghost out_before = reports_view(out@);
        match &lexed[i] {
            Lexed::Error(e, line) => {
                out.push(
                    ParseReport::Error(ParseError { error_data: ParseErrorInfo::LexerError(*e), line_number: line_number(*line) }),
                );
                assert(reports_view(out@) =~= out_before.push(
                    SpecReport::Error(SpecErrorInfo::LexerError(*e), spec_line_number(*line as int)),
                ));
            },
            Lexed::Token(k, line) => {
                push_errors_at(&mut out, &log, *k, *line);
                if *k >= halt {
                    halted = true;
                    assert(reports_view(out@) =~= out_before + errors_at(spec_log, *k as int, *line as int));
                } else {
                    let ghost mid = reports_view(out@);
                    out.push(ParseReport::TokenAccepted);
                    assert(reports_view(out@) =~= mid.push(SpecReport::TokenAccepted));
                }
            },
        }
        i = i + 1;
    }
    if !halted {
        let ghost out_before = reports_view(out@);
        assert(all_lexed.skip(i as int) =~= seq![SpecLexed::End(tokens@.len() as int, final_line as int)]);
        push_errors_at(&mut out, &log, tokens.len(), final_line);
    }
    (result, out)
}

/// A copy of an error.
fn copy_error(e: &ParseError) -> (r: ParseError)
    ensures
        error_info_view(r.error_data) == error_info_view(e.error_data),
        r.line_number == e.line_number,
{
    let error_data = match &e.error_data {
        ParseErrorInfo::LexerError(l) => ParseErrorInfo::LexerError(*l),
        ParseErrorInfo::SyntaxError(s) => ParseErrorInfo::SyntaxError(s.duplicate()),
    };
    ParseError { error_data, line_number: e.line_number }
}

/// Parses a stylesheet and lists the errors that reach an error handler: the
/// reports of [`parse_with_reports`] passed through the filter of
/// [`report::FilteredErrorHandler`], which drops an error that follows another one
/// within fewer than four accepted tokens.
pub fn parse_with_errors(source: &str) -> (r: (Result<Stylesheet<RawPropertyKey>, ParseFailure>, Vec<ParseError>))
    ensures
        match stylesheet(ok_tokens(lex_from(source@, 0))).0 {
            Ok(rules) => r.0 matches Ok(s) && sheet_view(s) == rules,
            Err(e) => r.0 == Err::<Stylesheet<RawPropertyKey>, ParseFailure>(e),
        },
        error_reports(r.1@) == forwarded(source_reports(source@)),
{
    let (result, reports) = parse_with_reports(source);
    let ghost all = reports_view(reports@);
    let mut errors: Vec<ParseError> = Vec::new();
    let mut cooldown: u8 = 0;
    let mut i: usize = 0;
    assert(all.take(0) =~= Seq::<SpecReport>::empty());
    assert(report_events(all.take(0)) =~= Seq::<bool>::empty());
    assert(error_reports(errors@) =~= Seq::<SpecReport>::empty());
    while i < reports.len()
        invariant
            i <= reports@.len(),
            all == reports_view(reports@),
            cooldown == cooldown_after_events(report_events(all.take(i as int))),
            error_reports(errors@) == forwarded(all.take(i as int)),
        decreases reports@.len() - i,
    {
        let ghost prefix = all.take(i as int);
        let ghost next = all.take(i + 1);
        assert(next.drop_last() =~= prefix);
        assert(next.last() == all[i as int]);
        assert(report_events(next).drop_last() =~= report_events(prefix));
        assert(report_events(next).last() == (all[i as int] is Error));
        let ghost before = error_reports(errors@);
        match &reports[i] {
            ParseReport::Error(e) => {
                if cooldown == 0 {
                    errors.push(copy_error(e));
                    assert(error_reports(errors@) =~= before.push(all[i as int]));
                } else {
                    assert(error_reports(errors@) =~= before + Seq::<SpecReport>::empty());
                }
                cooldown = next_cooldown(cooldown, true);
            },
            ParseReport::TokenAccepted => {
                assert(error_reports(errors@) =~= before + Seq::<SpecReport>::empty());
                cooldown = next_cooldown(cooldown, false);
            },
        }
        i = i + 1;
    }
    assert(all.take(reports@.len() as int) =~= all);
    (result, errors)
}

/// Parses a stylesheet.
///
/// The parser recovers from errors by discarding what it cannot parse: the
/// returned stylesheet holds the rules of the input that parsed without an
/// error; an error is returned only where parsing fails beyond recovery
/// (nesting too deep). The errors recovered from that [`parse_with_errors`]
/// lists are sent to `error_handler`, in their order: each error with its
/// line, except those that follow another one within fewer than four tokens.
/// The handler is called once for each of these errors, in their order, and
/// for nothing else: `passed` below is the list of its arguments.
pub fn parse_stylesheet<F: FnMut(ParseError)>(source: &str, error_handler: F) -> (r: Result<
    Stylesheet<RawPropertyKey>,
    ParseFailure,
>)
    requires
        forall|f: F, e: ParseError| call_requires(f, (e,)),
    ensures
        match stylesheet(ok_tokens(lex_from(source@, 0))).0 {
            Ok(rules) => r matches Ok(s) && sheet_view(s) == rules,
            Err(e) => r == Err::<Stylesheet<RawPropertyKey>, ParseFailure>(e),
        },
        exists|passed: Seq<ParseError>|
            #[trigger] error_reports(passed) == forwarded(source_reports(source@)) && forall|k: int|
                0 <= k < passed.len() ==> call_ensures(error_handler, (#[trigger] passed[k],), ()),
{
    broadcast use vstd::function::group_function_axioms;

    let (result, errors) = parse_with_errors(source);
    let mut handler = error_handler;
    let ghost mut passed: Seq<ParseError> = Seq::empty();
    let mut i: usize = 0;
    assert(error_reports(errors@.take(0)) =~= error_reports(passed));
    while i < errors.len()
        invariant
            forall|f: F, e: ParseError| call_requires(f, (e,)),
            i <= errors@.len(),
            handler == error_handler,
            passed.len() == i,
            error_reports(passed) == error_reports(errors@.take(i as int)),
            forall|k: int| 0 <= k < passed.len() ==> call_ensures(error_handler, (#[trigger] passed[k],), ()),
        decreases errors@.len() - i,
    {
        let e = copy_error(&errors[i]);
        let ghost sent = e;
        handler(e);
        proof {
            let before = passed;
            passed = passed.push(sent);
            assert(errors@.take(i + 1) =~= errors@.take(i as int).push(errors@[i as int]));
            assert(error_reports(passed) =~= error_reports(before).push(
                SpecReport::Error(error_info_view(sent.error_data), sent.line_number as int),
            ));
            assert(error_reports(errors@.take(i + 1)) =~= error_reports(errors@.take(i as int)).push(
                SpecReport::Error(error_info_view(errors@[i as int].error_data), errors@[i as int].line_number as int),
            ));
            assert forall|k: int| 0 <= k < passed.len() implies call_ensures(error_handler, (#[trigger] passed[k],), ()) by {
                if k < before.len() {
                    assert(passed[k] == before[k]);
                }
            }
        }
        i = i + 1;
    }
    assert(errors@.take(errors@.len() as int) =~= errors@);
    result
}

/// Appends a report for each error logged for the token at index `k`.
fn push_errors_at(out: &mut Vec<ParseReport>, log: &Vec<(usize, SyntaxError)>, k: usize, line_index: usize)
    ensures
        reports_view(final(out)@) == reports_view(old(out)@) + errors_at(log_view(log@), k as int, line_index as int),
{
    let ghost start = reports_view(out@);
    let mut j: usize = 0;
    assert(log_view(log@).take(0) =~= Seq::<(int, SpecSyntaxError)>::empty());
    assert(reports_view(out@) =~= start + errors_at(log_view(log@).take(0), k as int, line_index as int));
    while j < log.len()
        invariant
            j <= log@.len(),
            reports_view(out@) == start + errors_at(log_view(log@).take(j as int), k as int, line_index as int),
        decreases log@.len() - j,
    {
        let ghost before = reports_view(out@);
        let ghost lv = log_view(log@);
        assert(lv.take(j + 1).drop_last() =~= lv.take(j as int));
        assert(lv.take(j + 1).last() == lv[j as int]);
        if log[j].0 == k {
            out.push(
                ParseReport::Error(ParseError {
                    error_data: ParseErrorInfo::SyntaxError(log[j].1.duplicate()),
                    line_number: line_number(line_index),
                }),
            );
            assert(reports_view(out@) =~= before.push(
                SpecReport::Error(SpecErrorInfo::SyntaxError(lv[j as int].1), spec_line_number(line_index as int)),
            ));
        } else {
            assert(reports_view(out@) =~= before);
        }
        j = j + 1;
    }
    assert(log_view(log@).take(log@.len() as int) =~= log_view(log@));
}

} // verus!
