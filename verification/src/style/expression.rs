//! Stylesheet expressions that evaluate to property values.

use crate::model::state::{EdgeLabel, NodeTypeClass, SpecEdgeLabel};
use vstd::prelude::*;

verus! {

/// Stylesheet expression: a literal, a variable invocation,
/// a query by a limited selector, or an operator applied to expressions.
#[derive(PartialEq, Eq, Debug)]
pub enum Expression {
    /// Variable invoked by its name.
    Variable(String),
    /// Built-in magic variable-like value.
    MagicVariable(MagicVariableKey),
    /// The `unset` (null) literal.
    Unset,
    /// Boolean literal.
    Bool(bool),
    /// String literal.
    String(String),
    /// Integer literal.
    Int(u64),
    /// Selectable element referred to by its selector.
    Select(Box<LimitedSelector>),
    /// Unary operator expression.
    UnaryOperator(UnaryOperator, Box<Expression>),
    /// Binary operator expression.
    BinaryOperator(Box<Expression>, BinaryOperator, Box<Expression>),
    /// Conditional ternary operator expression: if the first argument is truthy,
    /// it resolves to the second, otherwise to the third.
    Conditional(Box<Expression>, Box<Expression>, Box<Expression>),
}

/// Identifiers of variables that can be invoked within expressions.
#[derive(Clone, PartialEq, Eq, Debug)]
pub enum VariableKey {
    /// Common user variable, identified by its name.
    User(String),
    /// Built-in interpreter variable.
    Magic(MagicVariableKey),
}

/// Identifiers of built-in interpreter magic variables.
#[derive(Clone, Copy, PartialEq, Eq, Debug, Structural)]
pub enum MagicVariableKey {
    /// The index of the [`EdgeLabel::Index`] edge that has just been traversed.
    EdgeIndex,
    /// The name of the [`EdgeLabel::Named`] edge that has just been traversed.
    EdgeName,
    /// The discriminator of the [`EdgeLabel::Named`] edge that has just been traversed.
    EdgeDiscriminator,
}

/// Identifier of the operator in a unary operator expression.
#[derive(Clone, Copy, PartialEq, Eq, Debug, Structural)]
pub enum UnaryOperator {
    /// Coerces a value to a number if possible.
    Plus,
    /// Coerces a value to a number and negates it if possible.
    Minus,
    /// Coerces a value to a boolean and negates it.
    Not,
    /// Extracts a value from a selected node.
    NodeValue,
    /// Checks whether a selected node is of a given type class.
    NodeIsA(NodeTypeClass),
    /// Gets the name of a state node's type.
    NodeTypeName,
    /// Checks whether a value is defined.
    IsSet,
}

/// Identifier of the operator in a binary operator expression.
#[derive(Clone, Copy, PartialEq, Eq, Debug, Structural)]
pub enum BinaryOperator {
    /// Arithmetic addition or string concatenation.
    Plus,
    /// Arithmetic subtraction.
    Minus,
    /// Arithmetic multiplication.
    Mul,
    /// Euclidean integer division.
    Div,
    /// Euclidean integer remainder.
    Mod,
    /// Tests values for equality.
    Eq,
    /// Tests values for inequality.
    Ne,
    /// Less than.
    Lt,
    /// Less than or equal.
    Le,
    /// Greater than.
    Gt,
    /// Greater than or equal.
    Ge,
    /// Logical conjunction.
    And,
    /// Logical disjunction.
    Or,
}

/// Edge matcher that can be used with a limited selector.
#[derive(PartialEq, Eq, Debug)]
pub enum LimitedEdgeMatcher {
    /// Matches a statically defined edge label.
    Exact(EdgeLabel),
    /// Matches an [`EdgeLabel::Index`] whose index an expression gives when it is evaluated.
    DynIndex(Expression),
}

impl From<EdgeLabel> for LimitedEdgeMatcher {
    fn from(value: EdgeLabel) -> (r: Self) {
        LimitedEdgeMatcher::Exact(value)
    }
}

impl vstd::std_specs::convert::FromSpecImpl<EdgeLabel> for LimitedEdgeMatcher {
    open spec fn obeys_from_spec() -> bool {
        true
    }

    open spec fn from_spec(v: EdgeLabel) -> Self {
        LimitedEdgeMatcher::Exact(v)
    }
}

impl From<Expression> for LimitedEdgeMatcher {
    fn from(value: Expression) -> (r: Self) {
        LimitedEdgeMatcher::DynIndex(value)
    }
}

impl vstd::std_specs::convert::FromSpecImpl<Expression> for LimitedEdgeMatcher {
    open spec fn obeys_from_spec() -> bool {
        true
    }

    open spec fn from_spec(v: Expression) -> Self {
        LimitedEdgeMatcher::DynIndex(v)
    }
}

/// Selector that is limited to a single path of exact matches,
/// so that it selects at most one entity.
#[derive(PartialEq, Eq, Debug)]
pub struct LimitedSelector {
    /// Path that must be matched in order to select something.
    pub path: Vec<LimitedEdgeMatcher>,
    /// Overrides the origin from where the selector is evaluated.
    pub origin: Option<Box<Expression>>,
    /// Selects an extra element attached to the matched entity, if set.
    pub extra_label: Option<String>,
}

impl LimitedSelector {
    /// A limited selector that matches the node at the end of `path`.
    pub fn from_path(path: Vec<LimitedEdgeMatcher>) -> (r: LimitedSelector)
        ensures
            r.path@ == path@,
            r.origin is None,
            r.extra_label is None,
    {
        LimitedSelector { path, origin: None, extra_label: None }
    }

    /// Overrides the selection origin with an expression value.
    pub fn with_origin(self, origin: Expression) -> (r: LimitedSelector)
        ensures
            r.path == self.path,
            r.origin == Some(Box::new(origin)),
            r.extra_label == self.extra_label,
    {
        LimitedSelector { path: self.path, origin: Some(Box::new(origin)), extra_label: self.extra_label }
    }

    /// Adds an extra label to the selector.
    pub fn with_extra(self, extra_label: String) -> (r: LimitedSelector)
        ensures
            r.path == self.path,
            r.origin == self.origin,
            r.extra_label == Some(extra_label),
    {
        LimitedSelector { path: self.path, origin: self.origin, extra_label: Some(extra_label) }
    }
}

impl Default for LimitedSelector {
    fn default() -> (r: Self)
        ensures
            r.path@.len() == 0,
            r.origin is None,
            r.extra_label is None,
    {
        LimitedSelector { path: Vec::new(), origin: None, extra_label: None }
    }
}

// ------------------------------------------------------------------
// Models
// ------------------------------------------------------------------

/// Model of an [`Expression`], with strings as character sequences.
pub enum SpecExpr {
    Variable(Seq<char>),
    MagicVariable(MagicVariableKey),
    Unset,
    Bool(bool),
    String(Seq<char>),
    Int(u64),
    Select(Box<SpecLimitedSelector>),
    UnaryOperator(UnaryOperator, Box<SpecExpr>),
    BinaryOperator(Box<SpecExpr>, BinaryOperator, Box<SpecExpr>),
    Conditional(Box<SpecExpr>, Box<SpecExpr>, Box<SpecExpr>),
}

/// Model of a [`LimitedEdgeMatcher`].
pub enum SpecLimitedMatcher {
    Exact(SpecEdgeLabel),
    DynIndex(SpecExpr),
}

/// Model of a [`LimitedSelector`].
pub struct SpecLimitedSelector {
    pub path: Seq<SpecLimitedMatcher>,
    pub origin: Option<Box<SpecExpr>>,
    pub extra_label: Option<Seq<char>>,
}

/// The model of an expression.
pub open spec fn expr_view(e: Expression) -> SpecExpr
    decreases e,
{
    match e {
        Expression::Variable(s) => SpecExpr::Variable(s@),
        Expression::MagicVariable(m) => SpecExpr::MagicVariable(m),
        Expression::Unset => SpecExpr::Unset,
        Expression::Bool(b) => SpecExpr::Bool(b),
        Expression::String(s) => SpecExpr::String(s@),
        Expression::Int(i) => SpecExpr::Int(i),
        Expression::Select(sel) => SpecExpr::Select(Box::new(limited_selector_view(*sel))),
        Expression::UnaryOperator(op, a) => SpecExpr::UnaryOperator(op, Box::new(expr_view(*a))),
        Expression::BinaryOperator(l, op, r) => SpecExpr::BinaryOperator(
            Box::new(expr_view(*l)),
            op,
            Box::new(expr_view(*r)),
        ),
        Expression::Conditional(c, t, f) => SpecExpr::Conditional(
            Box::new(expr_view(*c)),
            Box::new(expr_view(*t)),
            Box::new(expr_view(*f)),
        ),
    }
}

/// The model of a limited selector.
pub open spec fn limited_selector_view(s: LimitedSelector) -> SpecLimitedSelector
    decreases s,
{
    SpecLimitedSelector {
        path: limited_path_view(s.path@),
        origin: match s.origin {
            Some(o) => Some(Box::new(expr_view(*o))),
            None => None,
        },
        extra_label: match s.extra_label {
            Some(x) => Some(x@),
            None => None,
        },
    }
}

/// The models of the matchers of a limited path.
pub open spec fn limited_path_view(p: Seq<LimitedEdgeMatcher>) -> Seq<SpecLimitedMatcher>
    decreases p,
{
    if p.len() == 0 {
        seq![]
    } else {
        limited_path_view(p.drop_last()).push(limited_matcher_view(p.last()))
    }
}

/// The model of a limited edge matcher.
pub open spec fn limited_matcher_view(m: LimitedEdgeMatcher) -> SpecLimitedMatcher
    decreases m,
{
    match m {
        LimitedEdgeMatcher::Exact(l) => SpecLimitedMatcher::Exact(l@),
        LimitedEdgeMatcher::DynIndex(e) => SpecLimitedMatcher::DynIndex(expr_view(e)),
    }
}

impl View for Expression {
    type V = SpecExpr;

    open spec fn view(&self) -> SpecExpr {
        expr_view(*self)
    }
}

impl View for LimitedSelector {
    type V = SpecLimitedSelector;

    open spec fn view(&self) -> SpecLimitedSelector {
        limited_selector_view(*self)
    }
}

} // verus!
