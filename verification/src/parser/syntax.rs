//! Syntactic analysis of stylesheets: the grammar of rules, selectors and
//! expressions over the tokens of the lexer, with error recovery.
//!
//! Every nonterminal of the grammar has a model here (a function from the
//! tokens and a position to what is parsed there) and a parser that computes
//! exactly that model. Errors that the parser recovers from are logged with
//! the index of the token that was ahead when they were found; the index of
//! the end of input is the number of tokens.

use super::grammar::{ParseFailure, SyntaxError};
use super::lexer::{lex_from, next_item, run_end, SpecToken, Token};
use super::symbols::{
    InvalidSymbol, spec_edge_label, spec_is_variable_name, spec_literal, spec_magic_variable,
    spec_node_type_class, spec_unary_function,
};
use crate::model::state::{EdgeLabel, SpecEdgeLabel};
use crate::style::expression::{
    BinaryOperator, Expression, LimitedEdgeMatcher, LimitedSelector, MagicVariableKey, SpecExpr, limited_path_view,
    SpecLimitedMatcher, SpecLimitedSelector, UnaryOperator, expr_view, limited_selector_view, limited_matcher_view,
};
use crate::style::selector::{
    EdgeMatcher, Selector, SelectorPath, SelectorSegment, SpecMatcher, SpecSegment, SpecSelector, paths_view,
    segment_view, segments_view,
};
use crate::style::stylesheet::{
    RawPropertyKey, SpecClause, SpecRule, SpecStyleKey, StyleClause, StyleKey, StyleRule, Stylesheet, clause_view,
    clauses_view, key_view, rule_view, sheet_view,
};
use vstd::prelude::*;

verus! {

/// How deeply expressions, limited selectors and nested selector paths may
/// be nested in one another before the parser gives up with
/// [`ParseFailure::StackOverflow`].
///
/// The limit bounds the depth of the parser's own recursion, counted in
/// nesting levels of the grammar. It is not the measure of a table-driven
/// parser, whose stack of pending symbols fills up after a number of symbols
/// rather than of levels: sixty nested conditional expressions exceed this
/// limit and a handful do not, but an input near it may fare differently
/// under the two.
pub const NESTING_LIMIT: usize = 48;

/// Model of a [`SyntaxError`].
pub enum SpecSyntaxError {
    UnexpectedEnd,
    UnexpectedToken,
    InvalidEdgeLabel(Seq<char>),
    InvalidFunction(Seq<char>),
    InvalidUnquoted(Seq<char>),
    UnterminatedRule,
}

/// The model of a syntax error.
pub open spec fn syntax_error_view(e: SyntaxError) -> SpecSyntaxError {
    match e {
        SyntaxError::UnexpectedEnd => SpecSyntaxError::UnexpectedEnd,
        SyntaxError::UnexpectedToken => SpecSyntaxError::UnexpectedToken,
        SyntaxError::InvalidEdgeLabel(s) => SpecSyntaxError::InvalidEdgeLabel(s.0@),
        SyntaxError::InvalidFunction(s) => SpecSyntaxError::InvalidFunction(s.0@),
        SyntaxError::InvalidUnquoted(s) => SpecSyntaxError::InvalidUnquoted(s.0@),
        SyntaxError::UnterminatedRule => SpecSyntaxError::UnterminatedRule,
    }
}

impl SyntaxError {
    /// A copy of the error.
    pub fn duplicate(&self) -> (r: SyntaxError)
        ensures
            syntax_error_view(r) == syntax_error_view(*self),
    {
        match self {
            SyntaxError::UnexpectedEnd => SyntaxError::UnexpectedEnd,
            SyntaxError::UnexpectedToken => SyntaxError::UnexpectedToken,
            SyntaxError::InvalidEdgeLabel(s) => SyntaxError::InvalidEdgeLabel(InvalidSymbol(s.0.clone())),
            SyntaxError::InvalidFunction(s) => SyntaxError::InvalidFunction(InvalidSymbol(s.0.clone())),
            SyntaxError::InvalidUnquoted(s) => SyntaxError::InvalidUnquoted(InvalidSymbol(s.0.clone())),
            SyntaxError::UnterminatedRule => SyntaxError::UnterminatedRule,
        }
    }
}

/// An error log: each error with the index of the token ahead when it was found.
pub type Log = Seq<(int, SpecSyntaxError)>;

/// The model of an error log.
pub open spec fn log_view(log: Seq<(usize, SyntaxError)>) -> Log {
    log.map_values(|e: (usize, SyntaxError)| (e.0 as int, syntax_error_view(e.1)))
}

/// Outcome of parsing a part of the input, in the model.
pub enum Outcome<V> {
    /// A value was parsed; the next token is at the position.
    Done(V, int),
    /// The token at the position (the end of input if it is the number of
    /// tokens) cannot continue what is being parsed.
    Unexpected(int),
    /// Nesting exceeded [`NESTING_LIMIT`] at the token at the position.
    TooDeep(int),
}

/// Outcome of parsing a part of the input.
pub enum Parsed<T> {
    /// A value was parsed; the next token is at the position.
    Done(T, usize),
    /// The token at the position cannot continue what is being parsed.
    Unexpected(usize),
    /// Nesting exceeded [`NESTING_LIMIT`] at the token at the position.
    TooDeep(usize),
}

/// True if a parse result that succeeded, or that failed at a token, stays
/// within the `n` tokens.
pub open spec fn within<T>(r: Parsed<T>, n: int) -> bool {
    &&& r matches Parsed::Done(_, q) ==> q <= n
    &&& r matches Parsed::Unexpected(q) ==> q <= n
}

/// True if an outcome is the model of a parse result, values related by `f`.
pub open spec fn agrees<T, V>(r: Parsed<T>, o: Outcome<V>, f: spec_fn(T) -> V) -> bool {
    match (r, o) {
        (Parsed::Done(v, p), Outcome::Done(w, q)) => f(v) == w && p as int == q,
        (Parsed::Unexpected(p), Outcome::Unexpected(q)) => p as int == q,
        (Parsed::TooDeep(p), Outcome::TooDeep(q)) => p as int == q,
        _ => false,
    }
}

// ------------------------------------------------------------------
// Model of the grammar
// ------------------------------------------------------------------

/// True if the token at `p` is the plain token `k`.
pub open spec fn at(t: Seq<SpecToken>, p: int, k: Token) -> bool {
    0 <= p < t.len() && t[p] == SpecToken::Plain(k)
}

/// `@`: the selection of the current entity.
pub open spec fn current_selection() -> SpecExpr {
    SpecExpr::Select(Box::new(SpecLimitedSelector { path: seq![], origin: None, extra_label: None }))
}

/// The condition on the type of the current node that `:name` stands for.
pub open spec fn type_condition(name: Seq<char>, allow_special_names: bool) -> SpecExpr {
    if allow_special_names && spec_node_type_class(name) is Some {
        SpecExpr::UnaryOperator(
            UnaryOperator::NodeIsA(spec_node_type_class(name)->0),
            Box::new(current_selection()),
        )
    } else {
        SpecExpr::BinaryOperator(
            Box::new(SpecExpr::UnaryOperator(UnaryOperator::NodeTypeName, Box::new(current_selection()))),
            BinaryOperator::Eq,
            Box::new(SpecExpr::String(name)),
        )
    }
}

/// The condition that the index of the edge just traversed equals `index`.
pub open spec fn index_condition(index: SpecExpr) -> SpecExpr {
    SpecExpr::BinaryOperator(
        Box::new(SpecExpr::MagicVariable(MagicVariableKey::EdgeIndex)),
        BinaryOperator::Eq,
        Box::new(index),
    )
}

/// The segment that matches anything any number of times.
pub open spec fn anything_segment() -> SpecSegment {
    SpecSegment::AnyNumberOfTimes(seq![SpecSegment::Match(SpecMatcher::Any)])
}

/// The expression that an unquoted symbol stands for: a literal, a magic
/// variable or a variable.
pub open spec fn unquoted_value(s: Seq<char>) -> Option<SpecExpr> {
    match spec_literal(s) {
        Some(e) => Some(e@),
        None => match spec_magic_variable(s) {
            Some(m) => Some(SpecExpr::MagicVariable(m)),
            None => if spec_is_variable_name(s) {
                Some(SpecExpr::Variable(s))
            } else {
                None
            },
        },
    }
}

/// The edge label that an unquoted name stands for in a path, with the
/// errors that it causes: an unknown name stands for `main`.
pub open spec fn named_edge(s: Seq<char>, next: int) -> (SpecEdgeLabel, Log) {
    match spec_edge_label(s) {
        Some(l) => (l@, seq![]),
        None => (SpecEdgeLabel::Main, seq![(next, SpecSyntaxError::InvalidEdgeLabel(s))]),
    }
}

/// The binary operator that a token stands for, with its precedence.
pub open spec fn binary_operator(t: SpecToken) -> Option<(BinaryOperator, int)> {
    match t {
        SpecToken::Plain(Token::DoubleOr) => Some((BinaryOperator::Or, 2)),
        SpecToken::Plain(Token::DoubleAnd) => Some((BinaryOperator::And, 3)),
        SpecToken::Plain(Token::Equals) => Some((BinaryOperator::Eq, 4)),
        SpecToken::Plain(Token::NotEquals) => Some((BinaryOperator::Ne, 4)),
        SpecToken::Plain(Token::Less) => Some((BinaryOperator::Lt, 5)),
        SpecToken::Plain(Token::LessEquals) => Some((BinaryOperator::Le, 5)),
        SpecToken::Plain(Token::Greater) => Some((BinaryOperator::Gt, 5)),
        SpecToken::Plain(Token::GreaterEquals) => Some((BinaryOperator::Ge, 5)),
        SpecToken::Plain(Token::Plus) => Some((BinaryOperator::Plus, 6)),
        SpecToken::Plain(Token::Minus) => Some((BinaryOperator::Minus, 6)),
        SpecToken::Plain(Token::Asterisk) => Some((BinaryOperator::Mul, 7)),
        SpecToken::Plain(Token::Slash) => Some((BinaryOperator::Div, 7)),
        SpecToken::Plain(Token::Percent) => Some((BinaryOperator::Mod, 7)),
        _ => None,
    }
}

/// The prefix operator that a token stands for.
pub open spec fn prefix_operator(t: SpecToken) -> Option<UnaryOperator> {
    match t {
        SpecToken::Plain(Token::Plus) => Some(UnaryOperator::Plus),
        SpecToken::Plain(Token::Minus) => Some(UnaryOperator::Minus),
        SpecToken::Plain(Token::Not) => Some(UnaryOperator::Not),
        _ => None,
    }
}

/// An expression at `p` whose binary operators bind at least as tightly as
/// `min`: a prefix expression followed by operators. Precedence from the
/// loosest: `?:` (right associative), `||`, `&&`, `== !=`, `< <= > >=`,
/// `+ -`, `* / %` (all left associative); prefix operators bind tightest.
pub open spec fn expr(t: Seq<SpecToken>, p: int, min: int, d: int) -> (Outcome<SpecExpr>, Log)
    decreases t.len() - p, 3int,
{
    if p < 0 || p > t.len() {
        (Outcome::Unexpected(p), seq![])
    } else if d >= NESTING_LIMIT {
        (Outcome::TooDeep(p), seq![])
    } else {
        let (u, l1) = prefix_expr(t, p, d + 1);
        match u {
            Outcome::Done(lhs, q) => if p < q <= t.len() {
                let (r, l2) = expr_tail(t, lhs, q, min, d + 1);
                (r, l1 + l2)
            } else {
                (Outcome::Unexpected(p), l1)
            },
            Outcome::Unexpected(q) => (Outcome::Unexpected(q), l1),
            Outcome::TooDeep(q) => (Outcome::TooDeep(q), l1),
        }
    }
}

/// The operators that follow an operand `lhs` ending before `p`, with what
/// they apply to.
pub open spec fn expr_tail(t: Seq<SpecToken>, lhs: SpecExpr, p: int, min: int, d: int) -> (Outcome<SpecExpr>, Log)
    decreases t.len() - p, 0int,
{
    if p < 0 || p >= t.len() {
        (Outcome::Done(lhs, p), seq![])
    } else if at(t, p, Token::Question) && min <= 1 {
        let (m, l1) = expr(t, p + 1, 1, d);
        match m {
            Outcome::Done(mid, q) => if p < q < t.len() && at(t, q, Token::Colon) {
                let (f, l2) = expr(t, q + 1, 1, d);
                match f {
                    Outcome::Done(other, s) => if q < s <= t.len() {
                        let (r, l3) = expr_tail(
                            t,
                            SpecExpr::Conditional(Box::new(lhs), Box::new(mid), Box::new(other)),
                            s,
                            min,
                            d,
                        );
                        (r, l1 + l2 + l3)
                    } else {
                        (Outcome::Unexpected(q), l1 + l2)
                    },
                    Outcome::Unexpected(s) => (Outcome::Unexpected(s), l1 + l2),
                    Outcome::TooDeep(s) => (Outcome::TooDeep(s), l1 + l2),
                }
            } else {
                (Outcome::Unexpected(q), l1)
            },
            Outcome::Unexpected(q) => (Outcome::Unexpected(q), l1),
            Outcome::TooDeep(q) => (Outcome::TooDeep(q), l1),
        }
    } else if binary_operator(t[p]) matches Some((_, prec)) && prec >= min {
        let (op, prec) = binary_operator(t[p])->0;
        let (r, l1) = expr(t, p + 1, prec + 1, d);
        match r {
            Outcome::Done(rhs, q) => if p < q <= t.len() {
                let (r2, l2) = expr_tail(t, SpecExpr::BinaryOperator(Box::new(lhs), op, Box::new(rhs)), q, min, d);
                (r2, l1 + l2)
            } else {
                (Outcome::Unexpected(p), l1)
            },
            Outcome::Unexpected(q) => (Outcome::Unexpected(q), l1),
            Outcome::TooDeep(q) => (Outcome::TooDeep(q), l1),
        }
    } else {
        (Outcome::Done(lhs, p), seq![])
    }
}

/// An operand at `p`: prefix operators applied to a primary expression.
pub open spec fn prefix_expr(t: Seq<SpecToken>, p: int, d: int) -> (Outcome<SpecExpr>, Log)
    decreases t.len() - p, 2int,
{
    if 0 <= p < t.len() && prefix_operator(t[p]) is Some {
        let (r, l) = prefix_expr(t, p + 1, d);
        match r {
            Outcome::Done(x, q) => (
                Outcome::Done(SpecExpr::UnaryOperator(prefix_operator(t[p])->0, Box::new(x)), q),
                l,
            ),
            Outcome::Unexpected(q) => (Outcome::Unexpected(q), l),
            Outcome::TooDeep(q) => (Outcome::TooDeep(q), l),
        }
    } else {
        primary_expr(t, p, d)
    }
}

/// A primary expression at `p`: a parenthesized expression, a literal, a
/// function call, an unquoted symbol or a selection.
pub open spec fn primary_expr(t: Seq<SpecToken>, p: int, d: int) -> (Outcome<SpecExpr>, Log)
    decreases t.len() - p, 1int,
{
    if p < 0 || p >= t.len() {
        (Outcome::Unexpected(p), seq![])
    } else {
        match t[p] {
            SpecToken::Plain(Token::OpenParen) => {
                let (r, l) = expr(t, p + 1, 0, d);
                match r {
                    Outcome::Done(x, q) => if at(t, q, Token::CloseParen) {
                        (Outcome::Done(x, q + 1), l)
                    } else {
                        (Outcome::Unexpected(q), l)
                    },
                    Outcome::Unexpected(q) => (Outcome::Unexpected(q), l),
                    Outcome::TooDeep(q) => (Outcome::TooDeep(q), l),
                }
            },
            SpecToken::Quoted(s) => (Outcome::Done(SpecExpr::String(s), p + 1), seq![]),
            SpecToken::Plain(Token::Int(i)) => (Outcome::Done(SpecExpr::Int(i), p + 1), seq![]),
            SpecToken::Unquoted(s) => if at(t, p + 1, Token::OpenParen) {
                let (r, l) = expr(t, p + 2, 0, d);
                match r {
                    Outcome::Done(x, q) => if at(t, q, Token::CloseParen) {
                        match spec_unary_function(s) {
                            Some(op) => (Outcome::Done(SpecExpr::UnaryOperator(op, Box::new(x)), q + 1), l),
                            None => (
                                Outcome::Done(SpecExpr::UnaryOperator(UnaryOperator::Plus, Box::new(x)), q + 1),
                                l.push((q + 1, SpecSyntaxError::InvalidFunction(s))),
                            ),
                        }
                    } else {
                        (Outcome::Unexpected(q), l)
                    },
                    Outcome::Unexpected(q) => (Outcome::Unexpected(q), l),
                    Outcome::TooDeep(q) => (Outcome::TooDeep(q), l),
                }
            } else {
                match unquoted_value(s) {
                    Some(x) => (Outcome::Done(x, p + 1), seq![]),
                    None => (
                        Outcome::Done(SpecExpr::Unset, p + 1),
                        seq![(p + 1, SpecSyntaxError::InvalidUnquoted(s))],
                    ),
                }
            },
            SpecToken::Plain(Token::At) => if at(t, p + 1, Token::OpenParen) {
                let (r, l) = limited_selector(t, p + 2, d);
                match r {
                    Outcome::Done(s, q) => if at(t, q, Token::CloseParen) {
                        (Outcome::Done(SpecExpr::Select(Box::new(s)), q + 1), l)
                    } else {
                        (Outcome::Unexpected(q), l)
                    },
                    Outcome::Unexpected(q) => (Outcome::Unexpected(q), l),
                    Outcome::TooDeep(q) => (Outcome::TooDeep(q), l),
                }
            } else {
                (Outcome::Done(current_selection(), p + 1), seq![])
            },
            _ => (Outcome::Unexpected(p), seq![]),
        }
    }
}

/// The integer token at `p`, if there is one.
pub open spec fn discriminator(t: Seq<SpecToken>, p: int) -> Option<u64> {
    if 0 <= p < t.len() {
        match t[p] {
            SpecToken::Plain(Token::Int(i)) => Some(i),
            _ => None,
        }
    } else {
        None
    }
}

/// What follows a selector at `p`: nothing, `::extra` (an empty label), or
/// `::extra(label)`.
pub open spec fn extra_label(t: Seq<SpecToken>, p: int) -> Outcome<Option<Seq<char>>> {
    if at(t, p, Token::ExtraMatcher) {
        if at(t, p + 1, Token::OpenParen) {
            if 0 <= p + 2 < t.len() && t[p + 2] is Unquoted {
                if at(t, p + 3, Token::CloseParen) {
                    Outcome::Done(Some(t[p + 2]->Unquoted_0), p + 4)
                } else {
                    Outcome::Unexpected(p + 3)
                }
            } else {
                Outcome::Unexpected(p + 2)
            }
        } else {
            Outcome::Done(Some(seq![]), p + 1)
        }
    } else {
        Outcome::Done(None, p)
    }
}

/// A limited selector at `p`: an optional parenthesized origin, a limited
/// path and an optional extra label.
pub open spec fn limited_selector(t: Seq<SpecToken>, p: int, d: int) -> (Outcome<SpecLimitedSelector>, Log)
    decreases t.len() - p, 2int,
{
    if p < 0 || p > t.len() {
        (Outcome::Unexpected(p), seq![])
    } else if d >= NESTING_LIMIT {
        (Outcome::TooDeep(p), seq![])
    } else {
        let (base, l1) = if at(t, p, Token::OpenParen) {
            let (o, l) = expr(t, p + 1, 0, d + 1);
            match o {
                Outcome::Done(origin, q) => if p < q < t.len() && at(t, q, Token::CloseParen) {
                    let (path, l2) = limited_path(t, q + 1, seq![], d + 1);
                    match path {
                        Outcome::Done(m, s) => (Outcome::Done((m, Some(origin)), s), l + l2),
                        Outcome::Unexpected(s) => (Outcome::Unexpected(s), l + l2),
                        Outcome::TooDeep(s) => (Outcome::TooDeep(s), l + l2),
                    }
                } else {
                    (Outcome::Unexpected(q), l)
                },
                Outcome::Unexpected(q) => (Outcome::Unexpected(q), l),
                Outcome::TooDeep(q) => (Outcome::TooDeep(q), l),
            }
        } else {
            let (path, l) = limited_path(t, p, seq![], d + 1);
            match path {
                Outcome::Done(m, s) => (Outcome::Done((m, None::<SpecExpr>), s), l),
                Outcome::Unexpected(s) => (Outcome::Unexpected(s), l),
                Outcome::TooDeep(s) => (Outcome::TooDeep(s), l),
            }
        };
        match base {
            Outcome::Done((m, origin), q) => match extra_label(t, q) {
                Outcome::Done(x, s) => (
                    Outcome::Done(
                        SpecLimitedSelector {
                            path: m,
                            origin: match origin {
                                Some(o) => Some(Box::new(o)),
                                None => None,
                            },
                            extra_label: x,
                        },
                        s,
                    ),
                    l1,
                ),
                Outcome::Unexpected(s) => (Outcome::Unexpected(s), l1),
                Outcome::TooDeep(s) => (Outcome::TooDeep(s), l1),
            },
            Outcome::Unexpected(q) => (Outcome::Unexpected(q), l1),
            Outcome::TooDeep(q) => (Outcome::TooDeep(q), l1),
        }
    }
}

/// One segment of a limited path at `p`, if one starts there: an index in
/// brackets, a quoted name with an optional `#discriminator`, or an edge name.
pub open spec fn limited_segment(t: Seq<SpecToken>, p: int, d: int) -> (Outcome<Option<SpecLimitedMatcher>>, Log)
    decreases t.len() - p, 0int,
{
    if p < 0 || p >= t.len() {
        (Outcome::Done(None, p), seq![])
    } else {
        match t[p] {
            SpecToken::Plain(Token::OpenBracket) => {
                let (r, l) = expr(t, p + 1, 0, d);
                match r {
                    Outcome::Done(x, q) => if p < q < t.len() && at(t, q, Token::CloseBracket) {
                        let m = match x {
                            SpecExpr::Int(i) => SpecLimitedMatcher::Exact(SpecEdgeLabel::Index(i as usize)),
                            _ => SpecLimitedMatcher::DynIndex(x),
                        };
                        (Outcome::Done(Some(m), q + 1), l)
                    } else {
                        (Outcome::Unexpected(q), l)
                    },
                    Outcome::Unexpected(q) => (Outcome::Unexpected(q), l),
                    Outcome::TooDeep(q) => (Outcome::TooDeep(q), l),
                }
            },
            SpecToken::Quoted(s) => if at(t, p + 1, Token::Hash) {
                match discriminator(t, p + 2) {
                    Some(i) => (
                        Outcome::Done(Some(SpecLimitedMatcher::Exact(SpecEdgeLabel::Named(s, i as usize))), p + 3),
                        seq![],
                    ),
                    None => (Outcome::Unexpected(p + 2), seq![]),
                }
            } else {
                (Outcome::Done(Some(SpecLimitedMatcher::Exact(SpecEdgeLabel::Named(s, 0))), p + 1), seq![])
            },
            SpecToken::Unquoted(s) => {
                let (label, l) = named_edge(s, p + 1);
                (Outcome::Done(Some(SpecLimitedMatcher::Exact(label)), p + 1), l)
            },
            _ => (Outcome::Done(None, p), seq![]),
        }
    }
}

/// The segments of a limited path from `p` on, after `acc`.
pub open spec fn limited_path(t: Seq<SpecToken>, p: int, acc: Seq<SpecLimitedMatcher>, d: int) -> (
    Outcome<Seq<SpecLimitedMatcher>>,
    Log,
)
    decreases t.len() - p, 1int,
{
    if p < 0 || p > t.len() {
        (Outcome::Unexpected(p), seq![])
    } else {
        let (r, l) = limited_segment(t, p, d);
        match r {
            Outcome::Done(Some(m), q) => if p < q <= t.len() {
                let (rest, l2) = limited_path(t, q, acc.push(m), d);
                (rest, l + l2)
            } else {
                (Outcome::Unexpected(p), l)
            },
            Outcome::Done(None, q) => (Outcome::Done(acc, q), l),
            Outcome::Unexpected(q) => (Outcome::Unexpected(q), l),
            Outcome::TooDeep(q) => (Outcome::TooDeep(q), l),
        }
    }
}

/// One segment of a selector path at `p`, if one starts there: a matcher,
/// a repetition, alternatives, a condition, or an index (which may stand for
/// two segments: any index, and a condition on it).
pub open spec fn path_segment(t: Seq<SpecToken>, p: int, d: int) -> (Outcome<Option<Seq<SpecSegment>>>, Log)
    decreases t.len() - p, 0int,
{
    if p < 0 || p >= t.len() {
        (Outcome::Done(None, p), seq![])
    } else {
        match t[p] {
            SpecToken::Plain(Token::Asterisk) => (Outcome::Done(Some(seq![SpecSegment::Match(SpecMatcher::Any)]), p + 1), seq![]),
            SpecToken::Plain(Token::Percent) => (Outcome::Done(Some(seq![SpecSegment::Match(SpecMatcher::AnyNamed)]), p + 1), seq![]),
            SpecToken::Plain(Token::OpenBracket) => if at(t, p + 1, Token::CloseBracket) {
                (Outcome::Done(Some(seq![SpecSegment::Match(SpecMatcher::AnyIndex)]), p + 2), seq![])
            } else {
                let (r, l) = expr(t, p + 1, 0, d);
                match r {
                    Outcome::Done(x, q) => if p < q < t.len() && at(t, q, Token::CloseBracket) {
                        let segments = match x {
                            SpecExpr::Int(i) => seq![SpecSegment::Match(SpecMatcher::Exact(SpecEdgeLabel::Index(i as usize)))],
                            _ => seq![SpecSegment::Match(SpecMatcher::AnyIndex), SpecSegment::Condition(index_condition(x))],
                        };
                        (Outcome::Done(Some(segments), q + 1), l)
                    } else {
                        (Outcome::Unexpected(q), l)
                    },
                    Outcome::Unexpected(q) => (Outcome::Unexpected(q), l),
                    Outcome::TooDeep(q) => (Outcome::TooDeep(q), l),
                }
            },
            SpecToken::Quoted(s) => if at(t, p + 1, Token::Hash) {
                match discriminator(t, p + 2) {
                    Some(i) => (
                        Outcome::Done(Some(seq![SpecSegment::Match(SpecMatcher::Exact(SpecEdgeLabel::Named(s, i as usize)))]), p + 3),
                        seq![],
                    ),
                    None => (Outcome::Unexpected(p + 2), seq![]),
                }
            } else {
                (Outcome::Done(Some(seq![SpecSegment::Match(SpecMatcher::Named(s))]), p + 1), seq![])
            },
            SpecToken::Unquoted(s) => {
                let (label, l) = named_edge(s, p + 1);
                (Outcome::Done(Some(seq![SpecSegment::Match(SpecMatcher::Exact(label))]), p + 1), l)
            },
            SpecToken::Plain(Token::ManyMatcher) => if at(t, p + 1, Token::OpenParen) {
                let (r, l) = if d >= NESTING_LIMIT {
                    (Outcome::TooDeep(p + 2), seq![])
                } else {
                    path(t, p + 2, seq![], d + 1)
                };
                match r {
                    Outcome::Done(sub, q) => if at(t, q, Token::CloseParen) {
                        (Outcome::Done(Some(seq![SpecSegment::AnyNumberOfTimes(sub)]), q + 1), l)
                    } else {
                        (Outcome::Unexpected(q), l)
                    },
                    Outcome::Unexpected(q) => (Outcome::Unexpected(q), l),
                    Outcome::TooDeep(q) => (Outcome::TooDeep(q), l),
                }
            } else {
                (Outcome::Unexpected(p + 1), seq![])
            },
            SpecToken::Plain(Token::AltMatcher) => if at(t, p + 1, Token::OpenParen) {
                let (r, l) = if d >= NESTING_LIMIT {
                    (Outcome::TooDeep(p + 2), seq![])
                } else {
                    path_list(t, p + 2, seq![], d + 1)
                };
                match r {
                    Outcome::Done(list, q) => if at(t, q, Token::CloseParen) {
                        (Outcome::Done(Some(seq![SpecSegment::Branch(list)]), q + 1), l)
                    } else {
                        (Outcome::Unexpected(q), l)
                    },
                    Outcome::Unexpected(q) => (Outcome::Unexpected(q), l),
                    Outcome::TooDeep(q) => (Outcome::TooDeep(q), l),
                }
            } else {
                (Outcome::Unexpected(p + 1), seq![])
            },
            SpecToken::Plain(Token::RestrictMatcher) => if at(t, p + 1, Token::OpenParen) {
                let (r, l) = expr(t, p + 2, 0, d);
                match r {
                    Outcome::Done(x, q) => if at(t, q, Token::CloseParen) {
                        (Outcome::Done(Some(seq![SpecSegment::Condition(x)]), q + 1), l)
                    } else {
                        (Outcome::Unexpected(q), l)
                    },
                    Outcome::Unexpected(q) => (Outcome::Unexpected(q), l),
                    Outcome::TooDeep(q) => (Outcome::TooDeep(q), l),
                }
            } else {
                (Outcome::Unexpected(p + 1), seq![])
            },
            SpecToken::Plain(Token::Colon) => if p + 1 < t.len() {
                match t[p + 1] {
                    SpecToken::Unquoted(s) => (Outcome::Done(Some(seq![SpecSegment::Condition(type_condition(s, true))]), p + 2), seq![]),
                    SpecToken::Quoted(s) => (Outcome::Done(Some(seq![SpecSegment::Condition(type_condition(s, false))]), p + 2), seq![]),
                    _ => (Outcome::Unexpected(p + 1), seq![]),
                }
            } else {
                (Outcome::Unexpected(p + 1), seq![])
            },
            _ => (Outcome::Done(None, p), seq![]),
        }
    }
}

/// The segments of a selector path from `p` on, after `acc`.
pub open spec fn path(t: Seq<SpecToken>, p: int, acc: Seq<SpecSegment>, d: int) -> (Outcome<Seq<SpecSegment>>, Log)
    decreases t.len() - p, 1int,
{
    if p < 0 || p > t.len() {
        (Outcome::Unexpected(p), seq![])
    } else {
        let (r, l) = path_segment(t, p, d);
        match r {
            Outcome::Done(Some(segments), q) => if p < q <= t.len() {
                let (rest, l2) = path(t, q, acc + segments, d);
                (rest, l + l2)
            } else {
                (Outcome::Unexpected(p), l)
            },
            Outcome::Done(None, q) => (Outcome::Done(acc, q), l),
            Outcome::Unexpected(q) => (Outcome::Unexpected(q), l),
            Outcome::TooDeep(q) => (Outcome::TooDeep(q), l),
        }
    }
}

/// Comma-separated paths from `p` on, after `acc`.
pub open spec fn path_list(t: Seq<SpecToken>, p: int, acc: Seq<Seq<SpecSegment>>, d: int) -> (
    Outcome<Seq<Seq<SpecSegment>>>,
    Log,
)
    decreases t.len() - p, 2int,
{
    if p < 0 || p > t.len() {
        (Outcome::Unexpected(p), seq![])
    } else {
        let (r, l) = path(t, p, seq![], d);
        match r {
            Outcome::Done(segments, q) => if p <= q < t.len() && at(t, q, Token::Comma) {
                let (rest, l2) = path_list(t, q + 1, acc.push(segments), d);
                (rest, l + l2)
            } else {
                (Outcome::Done(acc.push(segments), q), l)
            },
            Outcome::Unexpected(q) => (Outcome::Unexpected(q), l),
            Outcome::TooDeep(q) => (Outcome::TooDeep(q), l),
        }
    }
}

/// A selector at `p`: `::` for a path from the root (otherwise the path may
/// start anywhere), a path, `::edge` to select the edge, and an extra label.
pub open spec fn selector(t: Seq<SpecToken>, p: int) -> (Outcome<SpecSelector>, Log) {
    let root = at(t, p, Token::RootMatcher);
    let start = if root {
        p + 1
    } else {
        p
    };
    let (r, l) = path(t, start, seq![], 0);
    match r {
        Outcome::Done(segments, q) => {
            let full = if root {
                segments
            } else {
                seq![anything_segment()] + segments
            };
            let edge = at(t, q, Token::EdgeMatcher);
            let q2 = if edge {
                q + 1
            } else {
                q
            };
            match extra_label(t, q2) {
                Outcome::Done(x, s) => (Outcome::Done(SpecSelector { path: full, selects_edge: edge, extra: x }, s), l),
                Outcome::Unexpected(s) => (Outcome::Unexpected(s), l),
                Outcome::TooDeep(s) => (Outcome::TooDeep(s), l),
            }
        },
        Outcome::Unexpected(q) => (Outcome::Unexpected(q), l),
        Outcome::TooDeep(q) => (Outcome::TooDeep(q), l),
    }
}

/// The key of a clause at `p`: a quoted property, a variable or property
/// name, or `fragment/property`.
pub open spec fn lvalue(t: Seq<SpecToken>, p: int) -> Outcome<SpecStyleKey> {
    if 0 <= p < t.len() {
        match t[p] {
            SpecToken::Quoted(s) => Outcome::Done(SpecStyleKey::QuotedProperty(s), p + 1),
            SpecToken::Unquoted(f) => if at(t, p + 1, Token::Slash) {
                if p + 2 < t.len() {
                    match t[p + 2] {
                        SpecToken::Unquoted(s) => Outcome::Done(SpecStyleKey::FragmentProperty(f, s), p + 3),
                        SpecToken::Quoted(s) => Outcome::Done(SpecStyleKey::FragmentProperty(f, s), p + 3),
                        _ => Outcome::Unexpected(p + 2),
                    }
                } else {
                    Outcome::Unexpected(p + 2)
                }
            } else if spec_is_variable_name(f) {
                Outcome::Done(SpecStyleKey::Variable(f), p + 1)
            } else {
                Outcome::Done(SpecStyleKey::Property(f), p + 1)
            },
            _ => Outcome::Unexpected(p),
        }
    } else {
        Outcome::Unexpected(p)
    }
}

/// True if the token at `p` ends a clause: `;`, `}` or the end of input.
pub open spec fn ends_clause(t: Seq<SpecToken>, p: int) -> bool {
    p == t.len() || at(t, p, Token::Semicolon) || at(t, p, Token::CloseBrace)
}

/// The value of a clause at `p`: a lone unquoted symbol stands for its
/// literal or variable, or else for itself as a string; anything else is an
/// expression.
pub open spec fn rvalue(t: Seq<SpecToken>, p: int) -> (Outcome<SpecExpr>, Log) {
    if 0 <= p < t.len() && t[p] is Unquoted && ends_clause(t, p + 1) {
        let s = t[p]->Unquoted_0;
        (
            Outcome::Done(
                match unquoted_value(s) {
                    Some(x) => x,
                    None => SpecExpr::String(s),
                },
                p + 1,
            ),
            seq![],
        )
    } else {
        expr(t, p, 0, 0)
    }
}

/// A clause at `p`: a key, `:` and a value.
pub open spec fn clause(t: Seq<SpecToken>, p: int) -> (Outcome<SpecClause>, Log) {
    match lvalue(t, p) {
        Outcome::Done(k, q) => if at(t, q, Token::Colon) {
            let (r, l) = rvalue(t, q + 1);
            match r {
                Outcome::Done(v, s) => (Outcome::Done(SpecClause { key: k, value: v }, s), l),
                Outcome::Unexpected(s) => (Outcome::Unexpected(s), l),
                Outcome::TooDeep(s) => (Outcome::TooDeep(s), l),
            }
        } else {
            (Outcome::Unexpected(q), seq![])
        },
        Outcome::Unexpected(q) => (Outcome::Unexpected(q), seq![]),
        Outcome::TooDeep(q) => (Outcome::TooDeep(q), seq![]),
    }
}

/// The clauses of a rule body from `p` on, after `acc`, up to and including
/// the closing brace. Clauses are separated by `;`, which may also follow the
/// last one; a body that the end of input cuts short is complete, with an error.
pub open spec fn clauses(t: Seq<SpecToken>, p: int, acc: Seq<SpecClause>) -> (Outcome<Seq<SpecClause>>, Log)
    decreases t.len() - p,
{
    if p < 0 || p > t.len() {
        (Outcome::Unexpected(p), seq![])
    } else if p == t.len() {
        (Outcome::Done(acc, p), seq![(p, SpecSyntaxError::UnterminatedRule)])
    } else if at(t, p, Token::CloseBrace) {
        (Outcome::Done(acc, p + 1), seq![])
    } else {
        let (c, l) = clause(t, p);
        match c {
            Outcome::Done(cl, q) => if p < q < t.len() && at(t, q, Token::Semicolon) {
                let (rest, l2) = clauses(t, q + 1, acc.push(cl));
                (rest, l + l2)
            } else if at(t, q, Token::CloseBrace) {
                (Outcome::Done(acc.push(cl), q + 1), l)
            } else if q == t.len() {
                (Outcome::Done(acc.push(cl), q), l.push((q, SpecSyntaxError::UnterminatedRule)))
            } else {
                (Outcome::Unexpected(q), l)
            },
            Outcome::Unexpected(q) => (Outcome::Unexpected(q), l),
            Outcome::TooDeep(q) => (Outcome::TooDeep(q), l),
        }
    }
}

/// A rule at `p`: a selector and a body in braces.
pub open spec fn rule(t: Seq<SpecToken>, p: int) -> (Outcome<SpecRule>, Log) {
    let (s, l) = selector(t, p);
    match s {
        Outcome::Done(sel, q) => if 0 <= q < t.len() && at(t, q, Token::OpenBrace) {
            let (b, l2) = clauses(t, q + 1, seq![]);
            match b {
                Outcome::Done(props, r) => (Outcome::Done(SpecRule { selector: sel, properties: props }, r), l + l2),
                Outcome::Unexpected(r) => (Outcome::Unexpected(r), l + l2),
                Outcome::TooDeep(r) => (Outcome::TooDeep(r), l + l2),
            }
        } else {
            (Outcome::Unexpected(q), l)
        },
        Outcome::Unexpected(q) => (Outcome::Unexpected(q), l),
        Outcome::TooDeep(q) => (Outcome::TooDeep(q), l),
    }
}

/// True for the tokens that can start a rule.
pub open spec fn starts_rule(t: SpecToken) -> bool {
    match t {
        SpecToken::Quoted(_) | SpecToken::Unquoted(_) => true,
        SpecToken::Plain(k) => match k {
            Token::RootMatcher | Token::Asterisk | Token::OpenBracket | Token::Percent | Token::ManyMatcher
            | Token::AltMatcher | Token::RestrictMatcher | Token::Colon | Token::EdgeMatcher
            | Token::ExtraMatcher | Token::OpenBrace => true,
            _ => false,
        },
    }
}

/// The position of the first token from `p` on that can start a rule, or
/// the end of input.
pub open spec fn next_rule_start(t: Seq<SpecToken>, p: int) -> int
    decreases t.len() - p,
{
    if p < 0 || p >= t.len() {
        t.len() as int
    } else if starts_rule(t[p]) {
        p
    } else {
        next_rule_start(t, p + 1)
    }
}

/// True if a log holds no error but missing closing braces: the rule it
/// belongs to is kept.
pub open spec fn only_unterminated(l: Log) -> bool {
    forall|i: int| 0 <= i < l.len() ==> (#[trigger] l[i]).1 is UnterminatedRule
}

/// The count of tokens still to be accepted before a failure is reported
/// again, after `shifted` more were accepted; any negative count is kept as
/// minus one.
pub open spec fn countdown(errcnt: int, shifted: int) -> int {
    if errcnt - shifted < -1 {
        -1
    } else {
        errcnt - shifted
    }
}

/// What parsing does at `p`, where a rule should start, given the rules so
/// far and the countdown of reports.
pub enum SheetStep {
    /// Parsing goes on at the position, with these rules and countdown, after
    /// logging these errors.
    Continue(int, Seq<SpecRule>, int, Log),
    /// Parsing ends with the result, at the position, after logging these errors.
    Finish(Result<Seq<SpecRule>, ParseFailure>, int, Log),
}

/// One step of parsing the rules of a stylesheet at `p`: a rule is parsed
/// and kept unless it had an error (other than a missing closing brace);
/// where no rule can be parsed, the failure is reported unless fewer than
/// four tokens have been accepted since the previous one (`errcnt` counts
/// down from three after a failure, and is minus one when reports are due),
/// and the tokens up to the next one that can start a rule are skipped.
pub open spec fn sheet_step(t: Seq<SpecToken>, p: int, rules: Seq<SpecRule>, errcnt: int) -> SheetStep {
    let (r, l) = rule(t, p);
    match r {
        Outcome::Done(rl, q) => if p < q <= t.len() {
            SheetStep::Continue(
                q,
                if only_unterminated(l) {
                    rules.push(rl)
                } else {
                    rules
                },
                countdown(errcnt, q - p),
                l,
            )
        } else {
            SheetStep::Finish(Ok(rules), t.len() as int, l)
        },
        Outcome::Unexpected(q) => {
            let error = if q >= t.len() {
                SpecSyntaxError::UnexpectedEnd
            } else {
                SpecSyntaxError::UnexpectedToken
            };
            let s = next_rule_start(t, q);
            SheetStep::Continue(
                if p < s <= t.len() {
                    s
                } else {
                    p + 1
                },
                rules,
                3,
                if countdown(errcnt, q - p) < 0 {
                    l.push((q, error))
                } else {
                    l
                },
            )
        },
        Outcome::TooDeep(q) => SheetStep::Finish(Err(ParseFailure::StackOverflow), q, l),
    }
}

/// The rules from `p` on, after `rules` (see [`sheet_step`]), with the
/// position where parsing stopped and the errors it recovered from.
pub open spec fn sheet(t: Seq<SpecToken>, p: int, rules: Seq<SpecRule>, errcnt: int) -> (
    Result<Seq<SpecRule>, ParseFailure>,
    int,
    Log,
)
    decreases t.len() - p,
{
    if p < 0 || p >= t.len() {
        (Ok(rules), t.len() as int, seq![])
    } else {
        match sheet_step(t, p, rules, errcnt) {
            SheetStep::Continue(q, rules2, count, l) => if p < q <= t.len() {
                let (res, h, l2) = sheet(t, q, rules2, count);
                (res, h, l + l2)
            } else {
                (Ok(rules), t.len() as int, l)
            },
            SheetStep::Finish(res, h, l) => (res, h, l),
        }
    }
}

/// The model of parsing a stylesheet from its tokens: the rules, or the
/// failure; the position where parsing stopped; the errors it recovered from.
pub open spec fn stylesheet(t: Seq<SpecToken>) -> (Result<Seq<SpecRule>, ParseFailure>, int, Log) {
    sheet(t, 0, seq![], -1)
}

/// Parsing recovers from every error but nesting that is too deep: it then
/// fails with a stack overflow; otherwise it reads the input to its end and
/// returns the rules.
pub proof fn lemma_only_overflow_fails(t: Seq<SpecToken>, p: int, rules: Seq<SpecRule>, errcnt: int)
    ensures
        sheet(t, p, rules, errcnt).0 is Err ==> sheet(t, p, rules, errcnt).0 == Err::<Seq<SpecRule>, ParseFailure>(
            ParseFailure::StackOverflow,
        ),
        sheet(t, p, rules, errcnt).0 is Ok ==> sheet(t, p, rules, errcnt).1 == t.len(),
    decreases t.len() - p,
{
    if 0 <= p < t.len() {
        match sheet_step(t, p, rules, errcnt) {
            SheetStep::Continue(q, rules2, count, _) => {
                if p < q <= t.len() {
                    lemma_only_overflow_fails(t, q, rules2, count);
                }
            },
            SheetStep::Finish(_, _, _) => {},
        }
    }
}

/// True if the rule is what parses at `p` without an error.
pub open spec fn parses_cleanly_at(t: Seq<SpecToken>, p: int, r: SpecRule) -> bool {
    &&& rule(t, p).0 matches Outcome::Done(x, _) && x == r
    &&& only_unterminated(rule(t, p).1)
}

/// True if the rule is what parses, without an error, at some position.
pub open spec fn parses_cleanly(t: Seq<SpecToken>, r: SpecRule) -> bool {
    exists|p: int| 0 <= p < t.len() && #[trigger] parses_cleanly_at(t, p, r)
}

/// The rules of a parsed stylesheet are a portion of the input: each is what
/// parses without an error at some position, and they come after the rules
/// parsed before.
pub proof fn lemma_rules_parse_cleanly(t: Seq<SpecToken>, p: int, rules: Seq<SpecRule>, errcnt: int)
    ensures
        sheet(t, p, rules, errcnt).0 matches Ok(result) ==> {
            &&& result.len() >= rules.len()
            &&& result.take(rules.len() as int) == rules
            &&& forall|i: int| rules.len() <= i < result.len() ==> parses_cleanly(t, #[trigger] result[i])
        },
    decreases t.len() - p,
{
    if 0 <= p < t.len() {
        match sheet_step(t, p, rules, errcnt) {
            SheetStep::Continue(q, rules2, count, _) => {
                if p < q <= t.len() {
                    lemma_rules_parse_cleanly(t, q, rules2, count);
                    let (r, l) = rule(t, p);
                    if let Ok(result) = sheet(t, p, rules, errcnt).0 {
                        assert(sheet(t, p, rules, errcnt).0 == sheet(t, q, rules2, count).0);
                        if rules2.len() > rules.len() {
                            assert(rules2 == rules.push(r->Done_0));
                            assert(result[rules.len() as int] == rules2[rules.len() as int]);
                            assert(parses_cleanly(t, result[rules.len() as int])) by {
                                assert(parses_cleanly_at(t, p, result[rules.len() as int]));
                            }
                            assert(result.take(rules.len() as int) =~= rules) by {
                                assert(result.take(rules2.len() as int).take(rules.len() as int) =~= result.take(
                                    rules.len() as int,
                                ));
                            }
                        }
                    }
                }
            },
            SheetStep::Finish(_, _, _) => {},
        }
    } else {
        if let Ok(result) = sheet(t, p, rules, errcnt).0 {
            assert(result.take(rules.len() as int) =~= rules);
        }
    }
}

// ------------------------------------------------------------------
// Parser
// ------------------------------------------------------------------

/// The models of a sequence of tokens.
pub open spec fn views(t: Seq<Token>) -> Seq<SpecToken> {
    t.map_values(|x: Token| x@)
}

/// True for the tokens that carry no payload.
pub open spec fn is_plain(k: Token) -> bool {
    !(k is Unquoted || k is Quoted || k is Int)
}

proof fn lemma_log_view(s: Seq<(usize, SyntaxError)>)
    ensures
        log_view(s).len() == s.len(),
        forall|i: int| 0 <= i < s.len() ==> #[trigger] log_view(s)[i] == (s[i].0 as int, syntax_error_view(s[i].1)),
{
}

proof fn lemma_log_push(s: Seq<(usize, SyntaxError)>, x: (usize, SyntaxError))
    ensures
        log_view(s.push(x)) == log_view(s).push((x.0 as int, syntax_error_view(x.1))),
{
    assert(log_view(s.push(x)) =~= log_view(s).push((x.0 as int, syntax_error_view(x.1))));
}

/// Tests whether a token is a given token without payload.
fn token_is(a: &Token, k: &Token) -> (r: bool)
    requires
        is_plain(*k),
    ensures
        r == (*a == *k),
{
    match (a, k) {
        (Token::RestrictMatcher, Token::RestrictMatcher) => true,
        (Token::ManyMatcher, Token::ManyMatcher) => true,
        (Token::AltMatcher, Token::AltMatcher) => true,
        (Token::RootMatcher, Token::RootMatcher) => true,
        (Token::EdgeMatcher, Token::EdgeMatcher) => true,
        (Token::ExtraMatcher, Token::ExtraMatcher) => true,
        (Token::Plus, Token::Plus) => true,
        (Token::Minus, Token::Minus) => true,
        (Token::Not, Token::Not) => true,
        (Token::Asterisk, Token::Asterisk) => true,
        (Token::Slash, Token::Slash) => true,
        (Token::Percent, Token::Percent) => true,
        (Token::Equals, Token::Equals) => true,
        (Token::NotEquals, Token::NotEquals) => true,
        (Token::Less, Token::Less) => true,
        (Token::Greater, Token::Greater) => true,
        (Token::LessEquals, Token::LessEquals) => true,
        (Token::GreaterEquals, Token::GreaterEquals) => true,
        (Token::DoubleAnd, Token::DoubleAnd) => true,
        (Token::DoubleOr, Token::DoubleOr) => true,
        (Token::Question, Token::Question) => true,
        (Token::At, Token::At) => true,
        (Token::Semicolon, Token::Semicolon) => true,
        (Token::Comma, Token::Comma) => true,
        (Token::Colon, Token::Colon) => true,
        (Token::OpenBrace, Token::OpenBrace) => true,
        (Token::CloseBrace, Token::CloseBrace) => true,
        (Token::OpenParen, Token::OpenParen) => true,
        (Token::CloseParen, Token::CloseParen) => true,
        (Token::OpenBracket, Token::OpenBracket) => true,
        (Token::CloseBracket, Token::CloseBracket) => true,
        (Token::Hash, Token::Hash) => true,
        _ => false,
    }
}

/// Tests whether the token at `p` is a given token without payload.
fn at_exec(t: &Vec<Token>, p: usize, k: Token) -> (r: bool)
    requires
        is_plain(k),
    ensures
        r == at(views(t@), p as int, k),
        r ==> p < t.len(),
{
    if p < t.len() {
        let r = token_is(&t[p], &k);
        assert(views(t@)[p as int] == t@[p as int]@);
        r
    } else {
        false
    }
}

/// The binary operator that a token stands for, with its precedence.
fn binary_operator_exec(a: &Token) -> (r: Option<(BinaryOperator, u64)>)
    ensures
        match binary_operator(a@) {
            Some((op, prec)) => r == Some((op, prec as u64)),
            None => r is None,
        },
{
    match a {
        Token::DoubleOr => Some((BinaryOperator::Or, 2)),
        Token::DoubleAnd => Some((BinaryOperator::And, 3)),
        Token::Equals => Some((BinaryOperator::Eq, 4)),
        Token::NotEquals => Some((BinaryOperator::Ne, 4)),
        Token::Less => Some((BinaryOperator::Lt, 5)),
        Token::LessEquals => Some((BinaryOperator::Le, 5)),
        Token::Greater => Some((BinaryOperator::Gt, 5)),
        Token::GreaterEquals => Some((BinaryOperator::Ge, 5)),
        Token::Plus => Some((BinaryOperator::Plus, 6)),
        Token::Minus => Some((BinaryOperator::Minus, 6)),
        Token::Asterisk => Some((BinaryOperator::Mul, 7)),
        Token::Slash => Some((BinaryOperator::Div, 7)),
        Token::Percent => Some((BinaryOperator::Mod, 7)),
        _ => None,
    }
}

/// The prefix operator that a token stands for.
fn prefix_operator_exec(a: &Token) -> (r: Option<UnaryOperator>)
    ensures
        r == prefix_operator(a@),
{
    match a {
        Token::Plus => Some(UnaryOperator::Plus),
        Token::Minus => Some(UnaryOperator::Minus),
        Token::Not => Some(UnaryOperator::Not),
        _ => None,
    }
}

/// Parses an expression; see [`expr`].
#[verifier::spinoff_prover]
#[verifier::rlimit(60)]
pub fn parse_expr(t: &Vec<Token>, p: usize, min: u64, d: usize, log: &mut Vec<(usize, SyntaxError)>) -> (r: Parsed<Expression>)
    requires
        p <= t@.len(),
        min <= 8,
    ensures
        within(r, t@.len() as int),
        agrees(r, expr(views(t@), p as int, min as int, d as int).0, |e: Expression| e@),
        log_view(final(log)@) == log_view(old(log)@) + expr(views(t@), p as int, min as int, d as int).1,
    decreases t@.len() - p, 3int,
{
    if d >= NESTING_LIMIT {
        assert(log_view(log@) =~= log_view(old(log)@) + Seq::<(int, SpecSyntaxError)>::empty());
        return Parsed::TooDeep(p);
    }
    let ghost l0 = log_view(log@);
    let u = parse_prefix(t, p, d + 1, log);
    match u {
        Parsed::Done(lhs, q) => {
            if p < q && q <= t.len() {
                let ghost l1 = log_view(log@);
                let r = parse_tail(t, lhs, q, min, d + 1, log);
                proof {
                    let (_, s1) = prefix_expr(views(t@), p as int, d + 1);
                    let (_, s2) = expr_tail(views(t@), lhs@, q as int, min as int, d + 1);
                    assert(log_view(log@) =~= l0 + (s1 + s2));
                }
                r
            } else {
                Parsed::Unexpected(p)
            }
        },
        Parsed::Unexpected(q) => Parsed::Unexpected(q),
        Parsed::TooDeep(q) => Parsed::TooDeep(q),
    }
}

/// Parses the operators that follow an operand; see [`expr_tail`].
#[verifier::spinoff_prover]
#[verifier::rlimit(60)]
fn parse_tail(
    t: &Vec<Token>,
    lhs: Expression,
    p: usize,
    min: u64,
    d: usize,
    log: &mut Vec<(usize, SyntaxError)>,
) -> (r: Parsed<Expression>)
    requires
        p <= t@.len(),
        min <= 8,
    ensures
        within(r, t@.len() as int),
        agrees(r, expr_tail(views(t@), lhs@, p as int, min as int, d as int).0, |e: Expression| e@),
        log_view(final(log)@) == log_view(old(log)@) + expr_tail(views(t@), lhs@, p as int, min as int, d as int).1,
    decreases t@.len() - p, 0int,
{
    let ghost tv = views(t@);
    let ghost l0 = log_view(log@);
    if p >= t.len() {
        assert(log_view(log@) =~= l0 + Seq::<(int, SpecSyntaxError)>::empty());
        return Parsed::Done(lhs, p);
    }
    assert(tv[p as int] == t@[p as int]@);
    if at_exec(t, p, Token::Question) && min <= 1 {
        let m = parse_expr(t, p + 1, 1, d, log);
        let ghost l1 = log_view(log@);
        match m {
            Parsed::Done(mid, q) => {
                if p < q && q < t.len() && at_exec(t, q, Token::Colon) {
                    let f = parse_expr(t, q + 1, 1, d, log);
                    let ghost l2 = log_view(log@);
                    match f {
                        Parsed::Done(other, s) => {
                            if q < s && s <= t.len() {
                                let c = Expression::Conditional(Box::new(lhs), Box::new(mid), Box::new(other));
                                let r = parse_tail(t, c, s, min, d, log);
                                proof {
                                    let (_, s1) = expr(tv, p + 1, 1, d as int);
                                    let (_, s2) = expr(tv, q + 1, 1, d as int);
                                    let (_, s3) = expr_tail(tv, c@, s as int, min as int, d as int);
                                    assert(log_view(log@) =~= l0 + (s1 + s2 + s3));
                                }
                                r
                            } else {
                                proof {
                                    let (_, s1) = expr(tv, p + 1, 1, d as int);
                                    let (_, s2) = expr(tv, q + 1, 1, d as int);
                                    assert(log_view(log@) =~= l0 + (s1 + s2));
                                }
                                Parsed::Unexpected(q)
                            }
                        },
                        Parsed::Unexpected(s) => {
                            proof {
                                let (_, s1) = expr(tv, p + 1, 1, d as int);
                                let (_, s2) = expr(tv, q + 1, 1, d as int);
                                assert(log_view(log@) =~= l0 + (s1 + s2));
                            }
                            Parsed::Unexpected(s)
                        },
                        Parsed::TooDeep(s) => {
                            proof {
                                let (_, s1) = expr(tv, p + 1, 1, d as int);
                                let (_, s2) = expr(tv, q + 1, 1, d as int);
                                assert(log_view(log@) =~= l0 + (s1 + s2));
                            }
                            Parsed::TooDeep(s)
                        },
                    }
                } else {
                    Parsed::Unexpected(q)
                }
            },
            Parsed::Unexpected(q) => Parsed::Unexpected(q),
            Parsed::TooDeep(q) => Parsed::TooDeep(q),
        }
    } else {
        match binary_operator_exec(&t[p]) {
            Some((op, prec)) => {
                if prec >= min {
                    let r = parse_expr(t, p + 1, prec + 1, d, log);
                    match r {
                        Parsed::Done(rhs, q) => {
                            if p < q && q <= t.len() {
                                let b = Expression::BinaryOperator(Box::new(lhs), op, Box::new(rhs));
                                let ghost l1 = log_view(log@);
                                let r2 = parse_tail(t, b, q, min, d, log);
                                proof {
                                    let (_, s1) = expr(tv, p + 1, prec + 1, d as int);
                                    let (_, s2) = expr_tail(tv, b@, q as int, min as int, d as int);
                                    assert(log_view(log@) =~= l0 + (s1 + s2));
                                }
                                r2
                            } else {
                                Parsed::Unexpected(p)
                            }
                        },
                        Parsed::Unexpected(q) => Parsed::Unexpected(q),
                        Parsed::TooDeep(q) => Parsed::TooDeep(q),
                    }
                } else {
                    assert(log_view(log@) =~= l0 + Seq::<(int, SpecSyntaxError)>::empty());
                    Parsed::Done(lhs, p)
                }
            },
            None => {
                assert(log_view(log@) =~= l0 + Seq::<(int, SpecSyntaxError)>::empty());
                Parsed::Done(lhs, p)
            },
        }
    }
}

/// Parses an operand; see [`prefix_expr`].
#[verifier::spinoff_prover]
#[verifier::rlimit(60)]
fn parse_prefix(t: &Vec<Token>, p: usize, d: usize, log: &mut Vec<(usize, SyntaxError)>) -> (r: Parsed<Expression>)
    requires
        p <= t@.len(),
    ensures
        within(r, t@.len() as int),
        agrees(r, prefix_expr(views(t@), p as int, d as int).0, |e: Expression| e@),
        log_view(final(log)@) == log_view(old(log)@) + prefix_expr(views(t@), p as int, d as int).1,
    decreases t@.len() - p, 2int,
{
    if p < t.len() {
        assert(views(t@)[p as int] == t@[p as int]@);
        match prefix_operator_exec(&t[p]) {
            Some(op) => {
                let r = parse_prefix(t, p + 1, d, log);
                match r {
                    Parsed::Done(x, q) => Parsed::Done(Expression::UnaryOperator(op, Box::new(x)), q),
                    Parsed::Unexpected(q) => Parsed::Unexpected(q),
                    Parsed::TooDeep(q) => Parsed::TooDeep(q),
                }
            },
            None => parse_primary(t, p, d, log),
        }
    } else {
        parse_primary(t, p, d, log)
    }
}

/// Parses a primary expression; see [`primary_expr`].
#[verifier::spinoff_prover]
#[verifier::rlimit(60)]
fn parse_primary(t: &Vec<Token>, p: usize, d: usize, log: &mut Vec<(usize, SyntaxError)>) -> (r: Parsed<Expression>)
    requires
        p <= t@.len(),
    ensures
        within(r, t@.len() as int),
        agrees(r, primary_expr(views(t@), p as int, d as int).0, |e: Expression| e@),
        log_view(final(log)@) == log_view(old(log)@) + primary_expr(views(t@), p as int, d as int).1,
    decreases t@.len() - p, 1int,
{
    let ghost tv = views(t@);
    let ghost l0 = log_view(log@);
    if p >= t.len() {
        assert(log_view(log@) =~= l0 + Seq::<(int, SpecSyntaxError)>::empty());
        return Parsed::Unexpected(p);
    }
    assert(tv[p as int] == t@[p as int]@);
    match &t[p] {
        Token::OpenParen => {
            let r = parse_expr(t, p + 1, 0, d, log);
            match r {
                Parsed::Done(x, q) => if at_exec(t, q, Token::CloseParen) {
                    Parsed::Done(x, q + 1)
                } else {
                    Parsed::Unexpected(q)
                },
                Parsed::Unexpected(q) => Parsed::Unexpected(q),
                Parsed::TooDeep(q) => Parsed::TooDeep(q),
            }
        },
        Token::Quoted(s) => {
            assert(log_view(log@) =~= l0 + Seq::<(int, SpecSyntaxError)>::empty());
            Parsed::Done(Expression::String(s.clone()), p + 1)
        },
        Token::Int(i) => {
            assert(log_view(log@) =~= l0 + Seq::<(int, SpecSyntaxError)>::empty());
            Parsed::Done(Expression::Int(*i), p + 1)
        },
        Token::Unquoted(s) => {
            if at_exec(t, p + 1, Token::OpenParen) {
                let r = parse_expr(t, p + 2, 0, d, log);
                match r {
                    Parsed::Done(x, q) => if at_exec(t, q, Token::CloseParen) {
                        match super::symbols::unary_function_by_name(s.as_str()) {
                            Ok(op) => {
                                assert(spec_unary_function(s@) == Some(op));
                                Parsed::Done(Expression::UnaryOperator(op, Box::new(x)), q + 1)
                            },
                            Err(e) => {
                                let ghost before = log@;
                                log.push((q + 1, SyntaxError::InvalidFunction(e)));
                                proof {
                                    lemma_log_push(before, ((q + 1) as usize, SyntaxError::InvalidFunction(e)));
                                }
                                Parsed::Done(Expression::UnaryOperator(UnaryOperator::Plus, Box::new(x)), q + 1)
                            },
                        }
                    } else {
                        Parsed::Unexpected(q)
                    },
                    Parsed::Unexpected(q) => Parsed::Unexpected(q),
                    Parsed::TooDeep(q) => Parsed::TooDeep(q),
                }
            } else {
                match super::symbols::resolve_unquoted_expression(s.as_str()) {
                    Ok(x) => {
                        assert(log_view(log@) =~= l0 + Seq::<(int, SpecSyntaxError)>::empty());
                        assert(unquoted_value(s@) == Some(x@));
                        Parsed::Done(x, p + 1)
                    },
                    Err(e) => {
                        let ghost before = log@;
                        log.push((p + 1, SyntaxError::InvalidUnquoted(e)));
                        proof {
                            lemma_log_push(before, ((p + 1) as usize, SyntaxError::InvalidUnquoted(e)));
                            assert(log_view(log@) =~= l0 + seq![((p + 1) as int, SpecSyntaxError::InvalidUnquoted(s@))]);
                        }
                        Parsed::Done(Expression::Unset, p + 1)
                    },
                }
            }
        },
        Token::At => {
            if at_exec(t, p + 1, Token::OpenParen) {
                let r = parse_limited_selector(t, p + 2, d, log);
                match r {
                    Parsed::Done(sel, q) => if at_exec(t, q, Token::CloseParen) {
                        Parsed::Done(Expression::Select(Box::new(sel)), q + 1)
                    } else {
                        Parsed::Unexpected(q)
                    },
                    Parsed::Unexpected(q) => Parsed::Unexpected(q),
                    Parsed::TooDeep(q) => Parsed::TooDeep(q),
                }
            } else {
                let sel = LimitedSelector::default();
                assert(limited_path_view(sel.path@) =~= Seq::<SpecLimitedMatcher>::empty());
                assert(limited_selector_view(sel) == SpecLimitedSelector { path: seq![], origin: None, extra_label: None });
                assert(expr_view(Expression::Select(Box::new(sel))) == current_selection());
                assert(log_view(log@) =~= l0 + Seq::<(int, SpecSyntaxError)>::empty());
                Parsed::Done(Expression::Select(Box::new(sel)), p + 1)
            }
        },
        _ => {
            assert(log_view(log@) =~= l0 + Seq::<(int, SpecSyntaxError)>::empty());
            Parsed::Unexpected(p)
        },
    }
}

/// Parses what may follow a selector; see [`extra_label`].
fn parse_extra_label(t: &Vec<Token>, p: usize) -> (r: Parsed<Option<String>>)
    requires
        p <= t@.len(),
    ensures
        within(r, t@.len() as int),
        agrees(
            r,
            extra_label(views(t@), p as int),
            |x: Option<String>|
                match x {
                    Some(s) => Some(s@),
                    None => None,
                },
        ),
{
    if at_exec(t, p, Token::ExtraMatcher) {
        if at_exec(t, p + 1, Token::OpenParen) {
            if p + 2 < t.len() {
                assert(views(t@)[p + 2] == t@[p + 2]@);
                match &t[p + 2] {
                    Token::Unquoted(s) => if at_exec(t, p + 3, Token::CloseParen) {
                        Parsed::Done(Some(s.clone()), p + 4)
                    } else {
                        Parsed::Unexpected(p + 3)
                    },
                    _ => Parsed::Unexpected(p + 2),
                }
            } else {
                Parsed::Unexpected(p + 2)
            }
        } else {
            let e = String::new();
            assert(e@ =~= Seq::<char>::empty());
            Parsed::Done(Some(e), p + 1)
        }
    } else {
        Parsed::Done(None, p)
    }
}

/// Parses a limited selector; see [`limited_selector`].
#[verifier::spinoff_prover]
#[verifier::rlimit(60)]
fn parse_limited_selector(t: &Vec<Token>, p: usize, d: usize, log: &mut Vec<(usize, SyntaxError)>) -> (r: Parsed<
    LimitedSelector,
>)
    requires
        p <= t@.len(),
    ensures
        within(r, t@.len() as int),
        agrees(r, limited_selector(views(t@), p as int, d as int).0, |s: LimitedSelector| s@),
        log_view(final(log)@) == log_view(old(log)@) + limited_selector(views(t@), p as int, d as int).1,
    decreases t@.len() - p, 2int,
{
    let ghost tv = views(t@);
    let ghost l0 = log_view(log@);
    if d >= NESTING_LIMIT {
        assert(log_view(log@) =~= l0 + Seq::<(int, SpecSyntaxError)>::empty());
        return Parsed::TooDeep(p);
    }
    let base: Parsed<(Vec<LimitedEdgeMatcher>, Option<Expression>)> = if at_exec(t, p, Token::OpenParen) {
        let o = parse_expr(t, p + 1, 0, d + 1, log);
        match o {
            Parsed::Done(origin, q) => if p < q && q < t.len() && at_exec(t, q, Token::CloseParen) {
                let ghost l1 = log_view(log@);
                let path = parse_limited_path(t, q + 1, Vec::new(), d + 1, log);
                proof {
                    let (_, s1) = expr(tv, p + 1, 0, d + 1);
                    let (_, s2) = limited_path(tv, q + 1, seq![], d + 1);
                    assert(limited_path_view(Seq::<LimitedEdgeMatcher>::empty()) =~= Seq::<SpecLimitedMatcher>::empty());
                    assert(log_view(log@) =~= l0 + (s1 + s2));
                }
                match path {
                    Parsed::Done(m, s) => Parsed::Done((m, Some(origin)), s),
                    Parsed::Unexpected(s) => Parsed::Unexpected(s),
                    Parsed::TooDeep(s) => Parsed::TooDeep(s),
                }
            } else {
                Parsed::Unexpected(q)
            },
            Parsed::Unexpected(q) => Parsed::Unexpected(q),
            Parsed::TooDeep(q) => Parsed::TooDeep(q),
        }
    } else {
        proof {
            assert(limited_path_view(Seq::<LimitedEdgeMatcher>::empty()) =~= Seq::<SpecLimitedMatcher>::empty());
        }
        let path = parse_limited_path(t, p, Vec::new(), d + 1, log);
        match path {
            Parsed::Done(m, s) => Parsed::Done((m, None), s),
            Parsed::Unexpected(s) => Parsed::Unexpected(s),
            Parsed::TooDeep(s) => Parsed::TooDeep(s),
        }
    };
    match base {
        Parsed::Done((m, origin), q) => match parse_extra_label(t, q) {
            Parsed::Done(x, s) => {
                let sel = LimitedSelector {
                    path: m,
                    origin: match origin {
                        Some(o) => Some(Box::new(o)),
                        None => None,
                    },
                    extra_label: x,
                };
                Parsed::Done(sel, s)
            },
            Parsed::Unexpected(s) => Parsed::Unexpected(s),
            Parsed::TooDeep(s) => Parsed::TooDeep(s),
        },
        Parsed::Unexpected(q) => Parsed::Unexpected(q),
        Parsed::TooDeep(q) => Parsed::TooDeep(q),
    }
}

/// Parses one segment of a limited path; see [`limited_segment`].
#[verifier::spinoff_prover]
#[verifier::rlimit(60)]
fn parse_limited_segment(t: &Vec<Token>, p: usize, d: usize, log: &mut Vec<(usize, SyntaxError)>) -> (r: Parsed<
    Option<LimitedEdgeMatcher>,
>)
    requires
        p <= t@.len(),
    ensures
        within(r, t@.len() as int),
        agrees(
            r,
            limited_segment(views(t@), p as int, d as int).0,
            |m: Option<LimitedEdgeMatcher>|
                match m {
                    Some(x) => Some(limited_matcher_view(x)),
                    None => None,
                },
        ),
        log_view(final(log)@) == log_view(old(log)@) + limited_segment(views(t@), p as int, d as int).1,
    decreases t@.len() - p, 0int,
{
    let ghost tv = views(t@);
    let ghost l0 = log_view(log@);
    if p >= t.len() {
        assert(log_view(log@) =~= l0 + Seq::<(int, SpecSyntaxError)>::empty());
        return Parsed::Done(None, p);
    }
    assert(tv[p as int] == t@[p as int]@);
    match &t[p] {
        Token::OpenBracket => {
            let r = parse_expr(t, p + 1, 0, d, log);
            match r {
                Parsed::Done(x, q) => if p < q && q < t.len() && at_exec(t, q, Token::CloseBracket) {
                    let m = match x {
                        Expression::Int(i) => LimitedEdgeMatcher::Exact(EdgeLabel::Index(i as usize)),
                        _ => LimitedEdgeMatcher::DynIndex(x),
                    };
                    Parsed::Done(Some(m), q + 1)
                } else {
                    Parsed::Unexpected(q)
                },
                Parsed::Unexpected(q) => Parsed::Unexpected(q),
                Parsed::TooDeep(q) => Parsed::TooDeep(q),
            }
        },
        Token::Quoted(s) => {
            assert(log_view(log@) =~= l0 + Seq::<(int, SpecSyntaxError)>::empty());
            if at_exec(t, p + 1, Token::Hash) {
                if p + 2 < t.len() {
                    assert(tv[p + 2] == t@[p + 2]@);
                    match &t[p + 2] {
                        Token::Int(i) => Parsed::Done(Some(LimitedEdgeMatcher::Exact(EdgeLabel::Named(s.clone(), *i as usize))), p + 3),
                        _ => Parsed::Unexpected(p + 2),
                    }
                } else {
                    Parsed::Unexpected(p + 2)
                }
            } else {
                Parsed::Done(Some(LimitedEdgeMatcher::Exact(EdgeLabel::Named(s.clone(), 0))), p + 1)
            }
        },
        Token::Unquoted(s) => {
            let label = match super::symbols::edge_label_from_name(s.as_str()) {
                Ok(l) => {
                    assert(log_view(log@) =~= l0 + Seq::<(int, SpecSyntaxError)>::empty());
                    l
                },
                Err(e) => {
                    let ghost before = log@;
                    log.push((p + 1, SyntaxError::InvalidEdgeLabel(e)));
                    proof {
                        lemma_log_push(before, ((p + 1) as usize, SyntaxError::InvalidEdgeLabel(e)));
                        assert(log_view(log@) =~= l0 + seq![((p + 1) as int, SpecSyntaxError::InvalidEdgeLabel(s@))]);
                    }
                    EdgeLabel::Main
                },
            };
            Parsed::Done(Some(LimitedEdgeMatcher::Exact(label)), p + 1)
        },
        _ => {
            assert(log_view(log@) =~= l0 + Seq::<(int, SpecSyntaxError)>::empty());
            Parsed::Done(None, p)
        },
    }
}

/// Parses a limited path; see [`limited_path`].
#[verifier::spinoff_prover]
#[verifier::rlimit(60)]
fn parse_limited_path(
    t: &Vec<Token>,
    p: usize,
    acc: Vec<LimitedEdgeMatcher>,
    d: usize,
    log: &mut Vec<(usize, SyntaxError)>,
) -> (r: Parsed<Vec<LimitedEdgeMatcher>>)
    requires
        p <= t@.len(),
    ensures
        within(r, t@.len() as int),
        agrees(
            r,
            limited_path(views(t@), p as int, limited_path_view(acc@), d as int).0,
            |v: Vec<LimitedEdgeMatcher>| limited_path_view(v@),
        ),
        log_view(final(log)@) == log_view(old(log)@) + limited_path(views(t@), p as int, limited_path_view(acc@), d as int).1,
    decreases t@.len() - p, 1int,
{
    let ghost l0 = log_view(log@);
    let ghost av = limited_path_view(acc@);
    let mut acc = acc;
    let r = parse_limited_segment(t, p, d, log);
    match r {
        Parsed::Done(Some(m), q) => {
            if p < q && q <= t.len() {
                let ghost l1 = log_view(log@);
                let ghost before = acc@;
                acc.push(m);
                assert(acc@.drop_last() =~= before);
                assert(limited_path_view(acc@) == av.push(limited_matcher_view(m)));
                let rest = parse_limited_path(t, q, acc, d, log);
                proof {
                    let (_, s1) = limited_segment(views(t@), p as int, d as int);
                    let (_, s2) = limited_path(views(t@), q as int, av.push(limited_matcher_view(m)), d as int);
                    assert(log_view(log@) =~= l0 + (s1 + s2));
                }
                rest
            } else {
                Parsed::Unexpected(p)
            }
        },
        Parsed::Done(None, q) => Parsed::Done(acc, q),
        Parsed::Unexpected(q) => Parsed::Unexpected(q),
        Parsed::TooDeep(q) => Parsed::TooDeep(q),
    }
}

proof fn lemma_segments_view_append(a: Seq<SelectorSegment>, b: Seq<SelectorSegment>)
    ensures
        segments_view(a + b) == segments_view(a) + segments_view(b),
    decreases b.len(),
{
    if b.len() == 0 {
        assert(a + b =~= a);
        assert(segments_view(a) + segments_view(b) =~= segments_view(a));
    } else {
        lemma_segments_view_append(a, b.drop_last());
        assert((a + b).drop_last() =~= a + b.drop_last());
        assert((a + b).last() == b.last());
        assert(segments_view(a) + segments_view(b) =~= (segments_view(a) + segments_view(b.drop_last())).push(
            segment_view(b.last()),
        ));
    }
}

proof fn lemma_select_current(e: Expression)
    requires
        super::grammar::is_select_current(e),
    ensures
        e@ == current_selection(),
{
    match e {
        Expression::Select(sel) => {
            assert(limited_path_view(sel.path@) =~= Seq::<SpecLimitedMatcher>::empty());
            assert(limited_selector_view(*sel) == SpecLimitedSelector { path: seq![], origin: None, extra_label: None });
        },
        _ => {},
    }
}

/// The condition on the type of the current node that `:name` stands for.
fn type_condition_exec(name: &String, allow_special_names: bool) -> (r: Expression)
    ensures
        r@ == type_condition(name@, allow_special_names),
{
    let r = super::grammar::type_match_condition(name.as_str(), allow_special_names);
    let ghost g = r;
    proof {
        reveal_with_fuel(expr_view, 3);
        match g {
            Expression::UnaryOperator(_, arg) => {
                if allow_special_names && spec_node_type_class(name@) is Some {
                    lemma_select_current(*arg);
                }
            },
            Expression::BinaryOperator(l, _, _) => {
                match *l {
                    Expression::UnaryOperator(_, arg) => {
                        lemma_select_current(*arg);
                    },
                    _ => {},
                }
            },
            _ => {},
        }
    }
    r
}

/// A path of one segment.
fn one_segment(x: SelectorSegment) -> (v: Vec<SelectorSegment>)
    ensures
        segments_view(v@) == seq![segment_view(x)],
{
    let mut v: Vec<SelectorSegment> = Vec::new();
    v.push(x);
    assert(v@.drop_last() =~= Seq::<SelectorSegment>::empty());
    assert(segments_view(Seq::<SelectorSegment>::empty()) =~= Seq::<SpecSegment>::empty());
    assert(segments_view(v@) =~= seq![segment_view(x)]);
    v
}

/// Parses one segment of a selector path; see [`path_segment`].
#[verifier::spinoff_prover]
#[verifier::rlimit(60)]
fn parse_path_segment(t: &Vec<Token>, p: usize, d: usize, log: &mut Vec<(usize, SyntaxError)>) -> (r: Parsed<
    Option<Vec<SelectorSegment>>,
>)
    requires
        p <= t@.len(),
    ensures
        within(r, t@.len() as int),
        agrees(
            r,
            path_segment(views(t@), p as int, d as int).0,
            |m: Option<Vec<SelectorSegment>>|
                match m {
                    Some(v) => Some(segments_view(v@)),
                    None => None,
                },
        ),
        log_view(final(log)@) == log_view(old(log)@) + path_segment(views(t@), p as int, d as int).1,
    decreases t@.len() - p, 0int,
{
    let ghost tv = views(t@);
    let ghost l0 = log_view(log@);
    if p >= t.len() {
        assert(log_view(log@) =~= l0 + Seq::<(int, SpecSyntaxError)>::empty());
        return Parsed::Done(None, p);
    }
    assert(tv[p as int] == t@[p as int]@);
    match &t[p] {
        Token::Asterisk => {
            assert(log_view(log@) =~= l0 + Seq::<(int, SpecSyntaxError)>::empty());
            let v = one_segment(SelectorSegment::Match(EdgeMatcher::Any));
            Parsed::Done(Some(v), p + 1)
        },
        Token::Percent => {
            assert(log_view(log@) =~= l0 + Seq::<(int, SpecSyntaxError)>::empty());
            let v = one_segment(SelectorSegment::Match(EdgeMatcher::AnyNamed));
            Parsed::Done(Some(v), p + 1)
        },
        Token::OpenBracket => {
            if at_exec(t, p + 1, Token::CloseBracket) {
                assert(log_view(log@) =~= l0 + Seq::<(int, SpecSyntaxError)>::empty());
                let v = one_segment(SelectorSegment::Match(EdgeMatcher::AnyIndex));
                Parsed::Done(Some(v), p + 2)
            } else {
                let r = parse_expr(t, p + 1, 0, d, log);
                match r {
                    Parsed::Done(x, q) => if p < q && q < t.len() && at_exec(t, q, Token::CloseBracket) {
                        let ghost xv = x@;
                        let v = match x {
                            Expression::Int(i) => {
                                let v = one_segment(SelectorSegment::Match(EdgeMatcher::Exact(EdgeLabel::Index(i as usize))));
                                v
                            },
                            _ => {
                                let c = SelectorSegment::Condition(super::grammar::index_match_condition(x));
                                let mut v = one_segment(SelectorSegment::Match(EdgeMatcher::AnyIndex));
                                let ghost first = v@;
                                v.push(c);
                                assert(v@.drop_last() =~= first);
                                assert(segment_view(c) == SpecSegment::Condition(index_condition(xv))) by {
                                    reveal_with_fuel(expr_view, 2);
                                }
                                assert(segments_view(v@) =~= seq![
                                    SpecSegment::Match(SpecMatcher::AnyIndex),
                                    SpecSegment::Condition(index_condition(xv)),
                                ]);
                                v
                            },
                        };
                        Parsed::Done(Some(v), q + 1)
                    } else {
                        Parsed::Unexpected(q)
                    },
                    Parsed::Unexpected(q) => Parsed::Unexpected(q),
                    Parsed::TooDeep(q) => Parsed::TooDeep(q),
                }
            }
        },
        Token::Quoted(s) => {
            assert(log_view(log@) =~= l0 + Seq::<(int, SpecSyntaxError)>::empty());
            if at_exec(t, p + 1, Token::Hash) {
                if p + 2 < t.len() {
                    assert(tv[p + 2] == t@[p + 2]@);
                    match &t[p + 2] {
                        Token::Int(i) => {
                            let v = one_segment(SelectorSegment::Match(EdgeMatcher::Exact(EdgeLabel::Named(s.clone(), *i as usize))));
                            Parsed::Done(Some(v), p + 3)
                        },
                        _ => Parsed::Unexpected(p + 2),
                    }
                } else {
                    Parsed::Unexpected(p + 2)
                }
            } else {
                let v = one_segment(SelectorSegment::Match(EdgeMatcher::Named(s.clone())));
                Parsed::Done(Some(v), p + 1)
            }
        },
        Token::Unquoted(s) => {
            let label = match super::symbols::edge_label_from_name(s.as_str()) {
                Ok(l) => {
                    assert(log_view(log@) =~= l0 + Seq::<(int, SpecSyntaxError)>::empty());
                    l
                },
                Err(e) => {
                    let ghost before = log@;
                    log.push((p + 1, SyntaxError::InvalidEdgeLabel(e)));
                    proof {
                        lemma_log_push(before, ((p + 1) as usize, SyntaxError::InvalidEdgeLabel(e)));
                        assert(log_view(log@) =~= l0 + seq![((p + 1) as int, SpecSyntaxError::InvalidEdgeLabel(s@))]);
                    }
                    EdgeLabel::Main
                },
            };
            let v = one_segment(SelectorSegment::Match(EdgeMatcher::Exact(label)));
            Parsed::Done(Some(v), p + 1)
        },
        Token::ManyMatcher => {
            if at_exec(t, p + 1, Token::OpenParen) {
                let r = if d >= NESTING_LIMIT {
                    assert(log_view(log@) =~= l0 + Seq::<(int, SpecSyntaxError)>::empty());
                    Parsed::TooDeep(p + 2)
                } else {
                    assert(segments_view(Seq::<SelectorSegment>::empty()) =~= Seq::<SpecSegment>::empty());
                    parse_path(t, p + 2, Vec::new(), d + 1, log)
                };
                match r {
                    Parsed::Done(sub, q) => if at_exec(t, q, Token::CloseParen) {
                        let seg = SelectorSegment::AnyNumberOfTimes(SelectorPath(sub));
                        let v = one_segment(seg);
                        Parsed::Done(Some(v), q + 1)
                    } else {
                        Parsed::Unexpected(q)
                    },
                    Parsed::Unexpected(q) => Parsed::Unexpected(q),
                    Parsed::TooDeep(q) => Parsed::TooDeep(q),
                }
            } else {
                assert(log_view(log@) =~= l0 + Seq::<(int, SpecSyntaxError)>::empty());
                Parsed::Unexpected(p + 1)
            }
        },
        Token::AltMatcher => {
            if at_exec(t, p + 1, Token::OpenParen) {
                let r = if d >= NESTING_LIMIT {
                    assert(log_view(log@) =~= l0 + Seq::<(int, SpecSyntaxError)>::empty());
                    Parsed::TooDeep(p + 2)
                } else {
                    assert(paths_view(Seq::<SelectorPath>::empty()) =~= Seq::<Seq<SpecSegment>>::empty());
                    parse_path_list(t, p + 2, Vec::new(), d + 1, log)
                };
                match r {
                    Parsed::Done(list, q) => if at_exec(t, q, Token::CloseParen) {
                        let v = one_segment(SelectorSegment::Branch(list));
                        Parsed::Done(Some(v), q + 1)
                    } else {
                        Parsed::Unexpected(q)
                    },
                    Parsed::Unexpected(q) => Parsed::Unexpected(q),
                    Parsed::TooDeep(q) => Parsed::TooDeep(q),
                }
            } else {
                assert(log_view(log@) =~= l0 + Seq::<(int, SpecSyntaxError)>::empty());
                Parsed::Unexpected(p + 1)
            }
        },
        Token::RestrictMatcher => {
            if at_exec(t, p + 1, Token::OpenParen) {
                let r = parse_expr(t, p + 2, 0, d, log);
                match r {
                    Parsed::Done(x, q) => if at_exec(t, q, Token::CloseParen) {
                        let v = one_segment(SelectorSegment::Condition(x));
                        Parsed::Done(Some(v), q + 1)
                    } else {
                        Parsed::Unexpected(q)
                    },
                    Parsed::Unexpected(q) => Parsed::Unexpected(q),
                    Parsed::TooDeep(q) => Parsed::TooDeep(q),
                }
            } else {
                assert(log_view(log@) =~= l0 + Seq::<(int, SpecSyntaxError)>::empty());
                Parsed::Unexpected(p + 1)
            }
        },
        Token::Colon => {
            assert(log_view(log@) =~= l0 + Seq::<(int, SpecSyntaxError)>::empty());
            if p + 1 < t.len() {
                assert(tv[p + 1] == t@[p + 1]@);
                match &t[p + 1] {
                    Token::Unquoted(s) => {
                        let v = one_segment(SelectorSegment::Condition(type_condition_exec(s, true)));
                        Parsed::Done(Some(v), p + 2)
                    },
                    Token::Quoted(s) => {
                        let v = one_segment(SelectorSegment::Condition(type_condition_exec(s, false)));
                        Parsed::Done(Some(v), p + 2)
                    },
                    _ => Parsed::Unexpected(p + 1),
                }
            } else {
                Parsed::Unexpected(p + 1)
            }
        },
        _ => {
            assert(log_view(log@) =~= l0 + Seq::<(int, SpecSyntaxError)>::empty());
            Parsed::Done(None, p)
        },
    }
}

/// Parses a selector path; see [`path`].
#[verifier::spinoff_prover]
fn parse_path(
    t: &Vec<Token>,
    p: usize,
    acc: Vec<SelectorSegment>,
    d: usize,
    log: &mut Vec<(usize, SyntaxError)>,
) -> (r: Parsed<Vec<SelectorSegment>>)
    requires
        p <= t@.len(),
    ensures
        within(r, t@.len() as int),
        agrees(r, path(views(t@), p as int, segments_view(acc@), d as int).0, |v: Vec<SelectorSegment>| segments_view(v@)),
        log_view(final(log)@) == log_view(old(log)@) + path(views(t@), p as int, segments_view(acc@), d as int).1,
    decreases t@.len() - p, 1int,
{
    let ghost l0 = log_view(log@);
    let ghost av = segments_view(acc@);
    let mut acc = acc;
    let r = parse_path_segment(t, p, d, log);
    match r {
        Parsed::Done(Some(segments), q) => {
            if p < q && q <= t.len() {
                let ghost before = acc@;
                let ghost sv = segments@;
                let mut segments = segments;
                acc.append(&mut segments);
                proof {
                    lemma_segments_view_append(before, sv);
                }
                let rest = parse_path(t, q, acc, d, log);
                proof {
                    let (_, s1) = path_segment(views(t@), p as int, d as int);
                    let (_, s2) = path(views(t@), q as int, av + segments_view(sv), d as int);
                    assert(log_view(log@) =~= l0 + (s1 + s2));
                }
                rest
            } else {
                Parsed::Unexpected(p)
            }
        },
        Parsed::Done(None, q) => Parsed::Done(acc, q),
        Parsed::Unexpected(q) => Parsed::Unexpected(q),
        Parsed::TooDeep(q) => Parsed::TooDeep(q),
    }
}

/// Parses comma-separated selector paths; see [`path_list`].
#[verifier::spinoff_prover]
fn parse_path_list(
    t: &Vec<Token>,
    p: usize,
    acc: Vec<SelectorPath>,
    d: usize,
    log: &mut Vec<(usize, SyntaxError)>,
) -> (r: Parsed<Vec<SelectorPath>>)
    requires
        p <= t@.len(),
    ensures
        within(r, t@.len() as int),
        agrees(r, path_list(views(t@), p as int, paths_view(acc@), d as int).0, |v: Vec<SelectorPath>| paths_view(v@)),
        log_view(final(log)@) == log_view(old(log)@) + path_list(views(t@), p as int, paths_view(acc@), d as int).1,
    decreases t@.len() - p, 2int,
{
    let ghost l0 = log_view(log@);
    let ghost av = paths_view(acc@);
    let mut acc = acc;
    assert(segments_view(Seq::<SelectorSegment>::empty()) =~= Seq::<SpecSegment>::empty());
    let r = parse_path(t, p, Vec::new(), d, log);
    match r {
        Parsed::Done(segments, q) => {
            let ghost sv = segments_view(segments@);
            let ghost before = acc@;
            acc.push(SelectorPath(segments));
            assert(acc@.drop_last() =~= before);
            assert(paths_view(acc@) == av.push(sv));
            if p <= q && q < t.len() && at_exec(t, q, Token::Comma) {
                let rest = parse_path_list(t, q + 1, acc, d, log);
                proof {
                    let (_, s1) = path(views(t@), p as int, seq![], d as int);
                    let (_, s2) = path_list(views(t@), q + 1, av.push(sv), d as int);
                    assert(log_view(log@) =~= l0 + (s1 + s2));
                }
                rest
            } else {
                Parsed::Done(acc, q)
            }
        },
        Parsed::Unexpected(q) => Parsed::Unexpected(q),
        Parsed::TooDeep(q) => Parsed::TooDeep(q),
    }
}

/// Parses a selector; see [`selector`].
#[verifier::spinoff_prover]
fn parse_selector(t: &Vec<Token>, p: usize, log: &mut Vec<(usize, SyntaxError)>) -> (r: Parsed<Selector>)
    requires
        p <= t@.len(),
    ensures
        within(r, t@.len() as int),
        agrees(r, selector(views(t@), p as int).0, |s: Selector| s@),
        log_view(final(log)@) == log_view(old(log)@) + selector(views(t@), p as int).1,
{
    let root = at_exec(t, p, Token::RootMatcher);
    let start = if root {
        p + 1
    } else {
        p
    };
    assert(segments_view(Seq::<SelectorSegment>::empty()) =~= Seq::<SpecSegment>::empty());
    let r = parse_path(t, start, Vec::new(), 0, log);
    match r {
        Parsed::Done(segments, q) => {
            let ghost sv = segments@;
            let sel0 = if root {
                Selector::from_path(SelectorPath(segments))
            } else {
                let sel = super::grammar::selector_from_not_root(segments);
                proof {
                    let first = sel.path.0@[0];
                    assert(sel.path.0@ =~= seq![first] + sv);
                    lemma_segments_view_append(seq![first], sv);
                    let inner = seq![SelectorSegment::Match(EdgeMatcher::Any)];
                    assert(segments_view(Seq::<SelectorSegment>::empty()) =~= Seq::<SpecSegment>::empty());
                    assert(inner.drop_last() =~= Seq::<SelectorSegment>::empty());
                    assert(inner.last() == SelectorSegment::Match(EdgeMatcher::Any));
                    assert(segment_view(inner.last()) == SpecSegment::Match(SpecMatcher::Any));
                    assert(segments_view(inner) =~= seq![SpecSegment::Match(SpecMatcher::Any)]) by {
                        reveal_with_fuel(segments_view, 2);
                    }
                    assert(seq![first].drop_last() =~= Seq::<SelectorSegment>::empty());
                    assert(segment_view(first) == anything_segment());
                    assert(segments_view(seq![first]) =~= seq![anything_segment()]);
                }
                sel
            };
            let edge = at_exec(t, q, Token::EdgeMatcher);
            let sel1 = if edge {
                sel0.selecting_edge()
            } else {
                sel0
            };
            let q2 = if edge {
                q + 1
            } else {
                q
            };
            match parse_extra_label(t, q2) {
                Parsed::Done(x, s) => {
                    let sel2 = match x {
                        Some(e) => sel1.with_extra(e),
                        None => sel1,
                    };
                    Parsed::Done(sel2, s)
                },
                Parsed::Unexpected(s) => Parsed::Unexpected(s),
                Parsed::TooDeep(s) => Parsed::TooDeep(s),
            }
        },
        Parsed::Unexpected(q) => Parsed::Unexpected(q),
        Parsed::TooDeep(q) => Parsed::TooDeep(q),
    }
}

/// Parses the key of a clause; see [`lvalue`].
fn parse_lvalue(t: &Vec<Token>, p: usize) -> (r: Parsed<StyleKey<RawPropertyKey>>)
    requires
        p <= t@.len(),
    ensures
        within(r, t@.len() as int),
        agrees(r, lvalue(views(t@), p as int), |k: StyleKey<RawPropertyKey>| key_view(k)),
{
    if p >= t.len() {
        return Parsed::Unexpected(p);
    }
    assert(views(t@)[p as int] == t@[p as int]@);
    match &t[p] {
        Token::Quoted(s) => Parsed::Done(StyleKey::Property(RawPropertyKey::QuotedProperty(s.clone())), p + 1),
        Token::Unquoted(f) => {
            if at_exec(t, p + 1, Token::Slash) {
                if p + 2 < t.len() {
                    assert(views(t@)[p + 2] == t@[p + 2]@);
                    match &t[p + 2] {
                        Token::Unquoted(s) => Parsed::Done(
                            StyleKey::Property(RawPropertyKey::FragmentProperty(f.clone(), s.clone())),
                            p + 3,
                        ),
                        Token::Quoted(s) => Parsed::Done(
                            StyleKey::Property(RawPropertyKey::FragmentProperty(f.clone(), s.clone())),
                            p + 3,
                        ),
                        _ => Parsed::Unexpected(p + 2),
                    }
                } else {
                    Parsed::Unexpected(p + 2)
                }
            } else if super::symbols::is_variable_name(f.as_str()) {
                Parsed::Done(StyleKey::Variable(f.clone()), p + 1)
            } else {
                Parsed::Done(StyleKey::Property(RawPropertyKey::Property(f.clone())), p + 1)
            }
        },
        _ => Parsed::Unexpected(p),
    }
}

/// Tests whether the token at `p` ends a clause; see [`ends_clause`].
fn ends_clause_exec(t: &Vec<Token>, p: usize) -> (r: bool)
    ensures
        r == ends_clause(views(t@), p as int),
{
    p == t.len() || at_exec(t, p, Token::Semicolon) || at_exec(t, p, Token::CloseBrace)
}

/// Parses the value of a clause; see [`rvalue`].
fn parse_rvalue(t: &Vec<Token>, p: usize, log: &mut Vec<(usize, SyntaxError)>) -> (r: Parsed<Expression>)
    requires
        p <= t@.len(),
    ensures
        within(r, t@.len() as int),
        agrees(r, rvalue(views(t@), p as int).0, |e: Expression| e@),
        log_view(final(log)@) == log_view(old(log)@) + rvalue(views(t@), p as int).1,
{
    if p < t.len() {
        assert(views(t@)[p as int] == t@[p as int]@);
        match &t[p] {
            Token::Unquoted(s) => {
                if ends_clause_exec(t, p + 1) {
                    let value = match super::symbols::resolve_unquoted_expression(s.as_str()) {
                        Ok(x) => x,
                        Err(_) => Expression::String(s.clone()),
                    };
                    assert(log_view(log@) =~= log_view(old(log)@) + Seq::<(int, SpecSyntaxError)>::empty());
                    return Parsed::Done(value, p + 1);
                }
            },
            _ => {},
        }
    }
    parse_expr(t, p, 0, 0, log)
}

/// Parses a clause; see [`clause`].
fn parse_clause(t: &Vec<Token>, p: usize, log: &mut Vec<(usize, SyntaxError)>) -> (r: Parsed<StyleClause<RawPropertyKey>>)
    requires
        p <= t@.len(),
    ensures
        within(r, t@.len() as int),
        agrees(r, clause(views(t@), p as int).0, |c: StyleClause<RawPropertyKey>| clause_view(c)),
        log_view(final(log)@) == log_view(old(log)@) + clause(views(t@), p as int).1,
{
    match parse_lvalue(t, p) {
        Parsed::Done(k, q) => {
            if at_exec(t, q, Token::Colon) {
                match parse_rvalue(t, q + 1, log) {
                    Parsed::Done(v, s) => Parsed::Done(StyleClause { key: k, value: v }, s),
                    Parsed::Unexpected(s) => Parsed::Unexpected(s),
                    Parsed::TooDeep(s) => Parsed::TooDeep(s),
                }
            } else {
                assert(log_view(log@) =~= log_view(old(log)@) + Seq::<(int, SpecSyntaxError)>::empty());
                Parsed::Unexpected(q)
            }
        },
        Parsed::Unexpected(q) => {
            assert(log_view(log@) =~= log_view(old(log)@) + Seq::<(int, SpecSyntaxError)>::empty());
            Parsed::Unexpected(q)
        },
        Parsed::TooDeep(q) => {
            assert(log_view(log@) =~= log_view(old(log)@) + Seq::<(int, SpecSyntaxError)>::empty());
            Parsed::TooDeep(q)
        },
    }
}

/// Parses the clauses of a rule body; see [`clauses`].
#[verifier::spinoff_prover]
fn parse_clauses(
    t: &Vec<Token>,
    p: usize,
    acc: Vec<StyleClause<RawPropertyKey>>,
    log: &mut Vec<(usize, SyntaxError)>,
) -> (r: Parsed<Vec<StyleClause<RawPropertyKey>>>)
    requires
        p <= t@.len(),
    ensures
        within(r, t@.len() as int),
        agrees(r, clauses(views(t@), p as int, clauses_view(acc@)).0, |v: Vec<StyleClause<RawPropertyKey>>| clauses_view(v@)),
        log_view(final(log)@) == log_view(old(log)@) + clauses(views(t@), p as int, clauses_view(acc@)).1,
    decreases t@.len() - p,
{
    let ghost l0 = log_view(log@);
    let ghost av = clauses_view(acc@);
    let mut acc = acc;
    if p == t.len() {
        let ghost before = log@;
        log.push((p, SyntaxError::UnterminatedRule));
        proof {
            lemma_log_push(before, (p, SyntaxError::UnterminatedRule));
            assert(log_view(log@) =~= l0 + seq![(p as int, SpecSyntaxError::UnterminatedRule)]);
        }
        return Parsed::Done(acc, p);
    }
    if at_exec(t, p, Token::CloseBrace) {
        assert(log_view(log@) =~= l0 + Seq::<(int, SpecSyntaxError)>::empty());
        return Parsed::Done(acc, p + 1);
    }
    match parse_clause(t, p, log) {
        Parsed::Done(c, q) => {
            let ghost cv = clause_view(c);
            acc.push(c);
            assert(clauses_view(acc@) =~= av.push(cv));
            if p < q && q < t.len() && at_exec(t, q, Token::Semicolon) {
                let ghost l1 = log_view(log@);
                let rest = parse_clauses(t, q + 1, acc, log);
                proof {
                    let (_, s1) = clause(views(t@), p as int);
                    let (_, s2) = clauses(views(t@), q + 1, av.push(cv));
                    assert(log_view(log@) =~= l0 + (s1 + s2));
                }
                rest
            } else if at_exec(t, q, Token::CloseBrace) {
                Parsed::Done(acc, q + 1)
            } else if q == t.len() {
                let ghost before = log@;
                log.push((q, SyntaxError::UnterminatedRule));
                proof {
                    lemma_log_push(before, (q, SyntaxError::UnterminatedRule));
                    let (_, s1) = clause(views(t@), p as int);
                    assert(log_view(log@) =~= l0 + s1.push((q as int, SpecSyntaxError::UnterminatedRule)));
                }
                Parsed::Done(acc, q)
            } else {
                Parsed::Unexpected(q)
            }
        },
        Parsed::Unexpected(q) => Parsed::Unexpected(q),
        Parsed::TooDeep(q) => Parsed::TooDeep(q),
    }
}

/// Parses a rule; see [`rule`].
fn parse_rule(t: &Vec<Token>, p: usize, log: &mut Vec<(usize, SyntaxError)>) -> (r: Parsed<StyleRule<RawPropertyKey>>)
    requires
        p <= t@.len(),
    ensures
        within(r, t@.len() as int),
        agrees(r, rule(views(t@), p as int).0, |x: StyleRule<RawPropertyKey>| rule_view(x)),
        log_view(final(log)@) == log_view(old(log)@) + rule(views(t@), p as int).1,
{
    let ghost l0 = log_view(log@);
    match parse_selector(t, p, log) {
        Parsed::Done(sel, q) => {
            if q < t.len() && at_exec(t, q, Token::OpenBrace) {
                assert(clauses_view(Seq::<StyleClause<RawPropertyKey>>::empty()) =~= Seq::<SpecClause>::empty());
                let ghost l1 = log_view(log@);
                let b = parse_clauses(t, q + 1, Vec::new(), log);
                proof {
                    let (_, s1) = selector(views(t@), p as int);
                    let (_, s2) = clauses(views(t@), q + 1, seq![]);
                    assert(log_view(log@) =~= l0 + (s1 + s2));
                }
                match b {
                    Parsed::Done(props, s) => Parsed::Done(StyleRule { selector: sel, properties: props }, s),
                    Parsed::Unexpected(s) => Parsed::Unexpected(s),
                    Parsed::TooDeep(s) => Parsed::TooDeep(s),
                }
            } else {
                Parsed::Unexpected(q)
            }
        },
        Parsed::Unexpected(q) => Parsed::Unexpected(q),
        Parsed::TooDeep(q) => Parsed::TooDeep(q),
    }
}

/// Tests whether a token can start a rule; see [`starts_rule`].
fn starts_rule_exec(a: &Token) -> (r: bool)
    ensures
        r == starts_rule(a@),
{
    match a {
        Token::Quoted(_) | Token::Unquoted(_) | Token::RootMatcher | Token::Asterisk | Token::OpenBracket
        | Token::Percent | Token::ManyMatcher | Token::AltMatcher | Token::RestrictMatcher | Token::Colon
        | Token::EdgeMatcher | Token::ExtraMatcher | Token::OpenBrace => true,
        _ => false,
    }
}

/// Finds the first token from `p` on that can start a rule; see [`next_rule_start`].
fn next_rule_start_exec(t: &Vec<Token>, p: usize) -> (r: usize)
    requires
        p <= t@.len(),
    ensures
        r as int == next_rule_start(views(t@), p as int),
{
    let mut q = p;
    while q < t.len()
        invariant
            p <= q <= t@.len(),
            next_rule_start(views(t@), p as int) == next_rule_start(views(t@), q as int),
        decreases t@.len() - q,
    {
        assert(views(t@)[q as int] == t@[q as int]@);
        if starts_rule_exec(&t[q]) {
            return q;
        }
        q = q + 1;
    }
    q
}

/// The countdown of tokens before failures are reported again; see [`countdown`].
fn countdown_exec(errcnt: i64, shifted: usize) -> (r: i64)
    requires
        -1 <= errcnt <= 3,
    ensures
        r == countdown(errcnt as int, shifted as int),
        -1 <= r <= 3,
{
    if shifted >= 4 {
        -1
    } else {
        let c = errcnt - (shifted as i64);
        if c < -1 {
            -1
        } else {
            c
        }
    }
}

/// Tests whether the errors logged from `start` on are all missing closing
/// braces; see [`only_unterminated`].
fn only_unterminated_exec(log: &Vec<(usize, SyntaxError)>, start: usize) -> (r: bool)
    requires
        start <= log@.len(),
    ensures
        r == only_unterminated(log_view(log@.skip(start as int))),
{
    let ghost tail = log_view(log@.skip(start as int));
    let mut i = start;
    while i < log.len()
        invariant
            start <= i <= log@.len(),
            tail == log_view(log@.skip(start as int)),
            tail.len() == log@.len() - start,
            forall|k: int| 0 <= k < i - start ==> (#[trigger] tail[k]).1 is UnterminatedRule,
        decreases log@.len() - i,
    {
        assert(tail[i - start] == (log@[i as int].0 as int, syntax_error_view(log@[i as int].1)));
        match &log[i].1 {
            SyntaxError::UnterminatedRule => {},
            _ => {
                return false;
            },
        }
        i = i + 1;
    }
    true
}

/// Tests whether a failure at `q` of a rule that started at `p` is reported:
/// whether the countdown has run out by then.
fn reports_due(errcnt: i64, p: usize, q: usize) -> (r: bool)
    requires
        -1 <= errcnt <= 3,
    ensures
        r == (countdown(errcnt as int, q - p) < 0),
{
    if q >= p {
        q - p > 3 || (errcnt as i128) - ((q - p) as i128) < 0
    } else {
        false
    }
}

/// The models of the rules parsed so far.
pub open spec fn rules_view(rules: Seq<StyleRule<RawPropertyKey>>) -> Seq<SpecRule> {
    rules.map_values(|r: StyleRule<RawPropertyKey>| rule_view(r))
}

/// Outcome of one step of parsing the rules of a stylesheet.
enum StepResult {
    /// Parsing goes on at the position.
    Continue(usize),
    /// Parsing ends, at the position, with the stack overflow if one happened.
    Finish(Option<ParseFailure>, usize),
}

/// Takes one step of parsing the rules of a stylesheet; see [`sheet_step`].
#[verifier::spinoff_prover]
fn parse_step(
    t: &Vec<Token>,
    p: usize,
    rules: &mut Vec<StyleRule<RawPropertyKey>>,
    errcnt: &mut i64,
    log: &mut Vec<(usize, SyntaxError)>,
) -> (r: StepResult)
    requires
        p < t.len(),
        -1 <= *old(errcnt) <= 3,
    ensures
        -1 <= *final(errcnt) <= 3,
        match sheet_step(views(t@), p as int, rules_view(old(rules)@), *old(errcnt) as int) {
            SheetStep::Continue(q, rules2, count, l) => r == StepResult::Continue(q as usize) && q <= t@.len()
                && rules_view(final(rules)@) == rules2 && *final(errcnt) == count && log_view(final(log)@)
                == log_view(old(log)@) + l,
            SheetStep::Finish(res, h, l) => r matches StepResult::Finish(f, x) && x as int == h
                && log_view(final(log)@) == log_view(old(log)@) + l && match res {
                Ok(rules2) => f is None && rules_view(final(rules)@) == rules2,
                Err(e) => f == Some(e),
            },
        },
{
    let ghost tv = views(t@);
    let ghost l0 = log_view(log@);
    let ghost rv = rules_view(rules@);
    let start = log.len();
    proof {
        lemma_log_view(log@);
    }
    let r = parse_rule(t, p, log);
    let ghost s1 = rule(tv, p as int).1;
    proof {
        lemma_log_view(log@);
        lemma_log_view(log@.skip(start as int));
    }
    assert(log_view(log@) == l0 + s1);
    assert(l0.len() == start);
    match r {
        Parsed::Done(rl, q) => {
            if p < q && q <= t.len() {
                proof {
                    assert(log_view(log@.skip(start as int)) =~= s1) by {
                        assert forall|k: int| 0 <= k < s1.len() implies log_view(log@.skip(start as int))[k] == s1[k] by {
                            assert(log@.skip(start as int)[k] == log@[start + k]);
                            assert(log_view(log@)[start + k] == (l0 + s1)[start + k]);
                        }
                    }
                }
                if only_unterminated_exec(log, start) {
                    let ghost v = rule_view(rl);
                    rules.push(rl);
                    assert(rules_view(rules@) =~= rv.push(v));
                }
                *errcnt = countdown_exec(*errcnt, q - p);
                StepResult::Continue(q)
            } else {
                StepResult::Finish(None, t.len())
            }
        },
        Parsed::Unexpected(q) => {
            if reports_due(*errcnt, p, q) {
                let error = if q >= t.len() {
                    SyntaxError::UnexpectedEnd
                } else {
                    SyntaxError::UnexpectedToken
                };
                let ghost before = log@;
                log.push((q, error));
                proof {
                    lemma_log_push(before, (q, error));
                    assert(log_view(log@) =~= l0 + s1.push((q as int, syntax_error_view(error))));
                }
            }
            let s = next_rule_start_exec(t, q);
            *errcnt = 3;
            if p < s && s <= t.len() {
                StepResult::Continue(s)
            } else {
                StepResult::Continue(p + 1)
            }
        },
        Parsed::TooDeep(q) => StepResult::Finish(Some(ParseFailure::StackOverflow), q),
    }
}

/// Parses a stylesheet from its tokens, recovering from errors; see
/// [`stylesheet`]. Returns the stylesheet or the failure, the index of the
/// token where parsing stopped (the number of tokens if it read them all),
/// and the errors it recovered from, each with the index of the token that
/// was ahead when it was found.
pub fn parse_tokens(t: &Vec<Token>) -> (r: (Result<Stylesheet<RawPropertyKey>, ParseFailure>, usize, Vec<(usize, SyntaxError)>))
    ensures
        ({
            let (res, h, l) = stylesheet(views(t@));
            &&& r.1 as int == h
            &&& log_view(r.2@) == l
            &&& match (r.0, res) {
                (Ok(s), Ok(rules)) => sheet_view(s) == rules,
                (Err(e), Err(f)) => e == f,
                _ => false,
            }
        }),
{
    let ghost tv = views(t@);
    let mut p: usize = 0;
    let mut rules: Vec<StyleRule<RawPropertyKey>> = Vec::new();
    let mut errcnt: i64 = -1;
    let mut log: Vec<(usize, SyntaxError)> = Vec::new();
    assert(rules_view(rules@) =~= Seq::<SpecRule>::empty());
    assert(log_view(log@) =~= Seq::<(int, SpecSyntaxError)>::empty());
    while p < t.len()
        invariant
            tv == views(t@),
            p <= t@.len(),
            -1 <= errcnt <= 3,
            ({
                let (res, h, l) = stylesheet(tv);
                let (res2, h2, l2) = sheet(tv, p as int, rules_view(rules@), errcnt as int);
                res == res2 && h == h2 && l == log_view(log@) + l2
            }),
        decreases t@.len() - p,
    {
        let ghost l0 = log_view(log@);
        let ghost step = sheet_step(tv, p as int, rules_view(rules@), errcnt as int);
        let ghost p0 = p as int;
        match parse_step(t, p, &mut rules, &mut errcnt, &mut log) {
            StepResult::Continue(q) => {
                proof {
                    let l1 = step->Continue_3;
                    let l2 = sheet(tv, q as int, rules_view(rules@), errcnt as int).2;
                    assert(l0 + (l1 + l2) =~= log_view(log@) + l2);
                }
                p = q;
            },
            StepResult::Finish(f, h) => {
                proof {
                    assert(log_view(log@) =~= log_view(log@) + Seq::<(int, SpecSyntaxError)>::empty());
                }
                match f {
                    Some(e) => {
                        return (Err(e), h, log);
                    },
                    None => {
                        return (Ok(Stylesheet(rules)), h, log);
                    },
                }
            },
        }
    }
    proof {
        assert(log_view(log@) =~= log_view(log@) + Seq::<(int, SpecSyntaxError)>::empty());
    }
    (Ok(Stylesheet(rules)), t.len(), log)
}

/// How a binary operator is written in a stylesheet.
pub open spec fn operator_spelling(op: BinaryOperator) -> Seq<char> {
    match op {
        BinaryOperator::Plus => seq!['+'],
        BinaryOperator::Minus => seq!['-'],
        BinaryOperator::Mul => seq!['*'],
        BinaryOperator::Div => seq!['/'],
        BinaryOperator::Mod => seq!['%'],
        BinaryOperator::Eq => seq!['=', '='],
        BinaryOperator::Ne => seq!['!', '='],
        BinaryOperator::Lt => seq!['<'],
        BinaryOperator::Le => seq!['<', '='],
        BinaryOperator::Gt => seq!['>'],
        BinaryOperator::Ge => seq!['>', '='],
        BinaryOperator::And => seq!['&', '&'],
        BinaryOperator::Or => seq!['|', '|'],
    }
}

/// Every binary operator reads back as itself: its spelling is one token,
/// and that token stands for the operator.
pub proof fn lemma_operator_spelling_reads_back(op: BinaryOperator)
    ensures
        lex_from(operator_spelling(op), 0).len() == 1,
        lex_from(operator_spelling(op), 0)[0] is Ok,
        binary_operator(lex_from(operator_spelling(op), 0)[0]->Ok_0) is Some,
        (binary_operator(lex_from(operator_spelling(op), 0)[0]->Ok_0)->0).0 == op,
{
    let s = operator_spelling(op);
    reveal_with_fuel(lex_from, 2);
    reveal_with_fuel(run_end, 3);
    assert(next_item(s, s.len() as int, (0, 0)).2 is None);
}

/// Distinct tokens stand for distinct binary operators.
pub proof fn lemma_binary_operators_distinct(a: SpecToken, b: SpecToken)
    ensures
        binary_operator(a) is Some && binary_operator(b) is Some && (binary_operator(a)->0).0 == (binary_operator(
            b,
        )->0).0 ==> a == b,
{
}

/// The kind of a binary operator, from the loosest to the tightest binding:
/// disjunction, conjunction, equality tests, order comparisons, additive and
/// multiplicative arithmetic.
pub open spec fn operator_kind(op: BinaryOperator) -> int {
    match op {
        BinaryOperator::Or => 0,
        BinaryOperator::And => 1,
        BinaryOperator::Eq | BinaryOperator::Ne => 2,
        BinaryOperator::Lt | BinaryOperator::Le | BinaryOperator::Gt | BinaryOperator::Ge => 3,
        BinaryOperator::Plus | BinaryOperator::Minus => 4,
        BinaryOperator::Mul | BinaryOperator::Div | BinaryOperator::Mod => 5,
    }
}

/// Of two binary operators, the one of the tighter kind binds tighter, and
/// operators of one kind bind equally tightly.
pub proof fn lemma_operator_precedence(a: SpecToken, b: SpecToken)
    ensures
        binary_operator(a) is Some && binary_operator(b) is Some ==> {
            let (x, p) = binary_operator(a)->0;
            let (y, q) = binary_operator(b)->0;
            &&& (p < q <==> operator_kind(x) < operator_kind(y))
            &&& (p == q <==> operator_kind(x) == operator_kind(y))
        },
{
    lemma_precedence_of_kind(a);
    lemma_precedence_of_kind(b);
}

proof fn lemma_precedence_of_kind(t: SpecToken)
    ensures
        binary_operator(t) is Some ==> (binary_operator(t)->0).1 == operator_kind((binary_operator(t)->0).0) + 2,
{
}

} // verus!
