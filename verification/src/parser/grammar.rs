//! Building blocks that the stylesheet grammar assembles selectors and
//! conditions from, and the errors that parsing reports.

use crate::model::state::NodeTypeClass;
use crate::style::expression::{BinaryOperator, Expression, LimitedSelector, MagicVariableKey, UnaryOperator};
use crate::style::selector::{EdgeMatcher, Selector, SelectorPath, SelectorSegment};
use super::symbols::{InvalidSymbol, node_type_class_by_name, spec_node_type_class};
use crate::text::{debug_quoted, debug_text, push_str, string_from_chars};
use vstd::prelude::*;

verus! {

/// Error returned by a parser when it irrecoverably fails.
#[derive(Clone, Copy, PartialEq, Eq, Debug, Default, Structural)]
pub enum ParseFailure {
    /// Parser failed without providing any additional information.
    #[default]
    Generic,
    /// Parser's stack has overflown.
    StackOverflow,
}

/// Error emitted by a parser when incorrect syntax is encountered.
#[derive(Clone, PartialEq, Eq, Debug)]
pub enum SyntaxError {
    /// Parser expected additional tokens at the end of input.
    UnexpectedEnd,
    /// Parser encountered an unexpected token.
    UnexpectedToken,
    /// An unrecognized edge name was used in a selector.
    InvalidEdgeLabel(InvalidSymbol),
    /// An unrecognized token was used as a function name.
    InvalidFunction(InvalidSymbol),
    /// An invalid literal was used in an expression.
    InvalidUnquoted(InvalidSymbol),
    /// Missing closing brace at the end of input.
    UnterminatedRule,
}

impl ParseFailure {
    /// Text that describes the failure.
    pub fn message(&self) -> (r: String)
        ensures
            *self is Generic ==> r@ == "irrecoverable parser failure"@,
            *self is StackOverflow ==> r@ == "parser stack overflow"@,
    {
        match self {
            ParseFailure::Generic => String::from_str("irrecoverable parser failure"),
            ParseFailure::StackOverflow => String::from_str("parser stack overflow"),
        }
    }
}

/// Text that describes a syntax error; symbols are shown as `Debug`
/// formatting writes a string.
pub open spec fn syntax_error_message(e: SyntaxError) -> Seq<char> {
    match e {
        SyntaxError::UnexpectedEnd => "unexpected end of input"@,
        SyntaxError::UnexpectedToken => "unexpected token"@,
        SyntaxError::InvalidEdgeLabel(s) => "unknown edge label name "@ + debug_text(s.0@),
        SyntaxError::InvalidFunction(s) => "unknown function name "@ + debug_text(s.0@),
        SyntaxError::InvalidUnquoted(s) => "token "@ + debug_text(s.0@)
            + " which is not a literal cannot appear in an expression"@,
        SyntaxError::UnterminatedRule => "last rule is missing a closing delimiter"@,
    }
}

impl SyntaxError {
    /// Text that describes the error.
    pub fn message(&self) -> (r: String)
        ensures
            r@ == syntax_error_message(*self),
    {
        let mut out: Vec<char> = Vec::new();
        match self {
            SyntaxError::UnexpectedEnd => push_str(&mut out, "unexpected end of input"),
            SyntaxError::UnexpectedToken => push_str(&mut out, "unexpected token"),
            SyntaxError::InvalidEdgeLabel(s) => {
                push_str(&mut out, "unknown edge label name ");
                push_str(&mut out, debug_quoted(s.0.as_str()).as_str());
            },
            SyntaxError::InvalidFunction(s) => {
                push_str(&mut out, "unknown function name ");
                push_str(&mut out, debug_quoted(s.0.as_str()).as_str());
            },
            SyntaxError::InvalidUnquoted(s) => {
                push_str(&mut out, "token ");
                push_str(&mut out, debug_quoted(s.0.as_str()).as_str());
                push_str(&mut out, " which is not a literal cannot appear in an expression");
            },
            SyntaxError::UnterminatedRule => push_str(&mut out, "last rule is missing a closing delimiter"),
        }
        string_from_chars(&out)
    }
}

/// True for `@`, the selection of the current entity.
pub open spec fn is_select_current(e: Expression) -> bool {
    e matches Expression::Select(s) && s.path@.len() == 0 && s.origin is None && s.extra_label is None
}

fn select_current_exec() -> (r: Expression)
    ensures
        is_select_current(r),
{
    Expression::Select(Box::new(LimitedSelector::default()))
}

/// A selector for a path that does not start at the root node:
/// the path is preceded by a segment that matches anything any number of times.
pub fn selector_from_not_root(segments: Vec<SelectorSegment>) -> (r: Selector)
    ensures
        r.path.0@.len() == segments@.len() + 1,
        r.path.0@[0] matches SelectorSegment::AnyNumberOfTimes(p) && p.0@ == seq![
            SelectorSegment::Match(EdgeMatcher::Any),
        ],
        r.path.0@.skip(1) == segments@,
        !r.selects_edge,
        r.extra is None,
{
    let mut path: Vec<SelectorSegment> = Vec::new();
    path.push(SelectorSegment::anything_any_number_of_times());
    let ghost first = path@[0];
    let mut rest = segments;
    path.append(&mut rest);
    proof {
        assert(path@.skip(1) =~= segments@);
    }
    Selector::from_path(SelectorPath(path))
}

/// A condition on the type of the current node.
///
/// When special names are allowed and the name is that of a node type class,
/// the condition is `is-<class>(@)`; otherwise it is `typename(@) == "<name>"`.
pub fn type_match_condition(name_of_type: &str, allow_special_names: bool) -> (r: Expression)
    ensures
        allow_special_names && spec_node_type_class(name_of_type@) is Some ==> (r matches Expression::UnaryOperator(
            UnaryOperator::NodeIsA(c),
            arg,
        ) && Some(c) == spec_node_type_class(name_of_type@) && is_select_current(*arg)),
        !(allow_special_names && spec_node_type_class(name_of_type@) is Some) ==> (r matches Expression::BinaryOperator(
            l,
            BinaryOperator::Eq,
            rr,
        ) && (*l matches Expression::UnaryOperator(UnaryOperator::NodeTypeName, arg) && is_select_current(*arg))
            && (*rr matches Expression::String(n) && n@ == name_of_type@)),
{
    let resolved: Option<NodeTypeClass> = if allow_special_names {
        match node_type_class_by_name(name_of_type) {
            Ok(c) => Some(c),
            Err(_) => None,
        }
    } else {
        None
    };
    match resolved {
        Some(type_class) => Expression::UnaryOperator(
            UnaryOperator::NodeIsA(type_class),
            Box::new(select_current_exec()),
        ),
        None => Expression::BinaryOperator(
            Box::new(
                Expression::UnaryOperator(UnaryOperator::NodeTypeName, Box::new(select_current_exec())),
            ),
            BinaryOperator::Eq,
            Box::new(Expression::String(name_of_type.to_owned())),
        ),
    }
}

/// A condition that the index of the edge just traversed equals `index`.
pub fn index_match_condition(index: Expression) -> (r: Expression)
    ensures
        r == Expression::BinaryOperator(
            Box::new(Expression::MagicVariable(MagicVariableKey::EdgeIndex)),
            BinaryOperator::Eq,
            Box::new(index),
        ),
{
    Expression::BinaryOperator(
        Box::new(Expression::MagicVariable(MagicVariableKey::EdgeIndex)),
        BinaryOperator::Eq,
        Box::new(index),
    )
}

} // verus!
