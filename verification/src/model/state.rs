//! Program state graph model: values, edges and categories of nodes.

use vstd::prelude::*;
use vstd::std_specs::cmp::{PartialEqSpec, PartialEqSpecImpl, PartialOrdSpecImpl};
use std::cmp::Ordering;

verus! {

/// Unique identifier of a program state node. Identifiers are compared and
/// copied by their views.
pub trait NodeId: Clone + std::fmt::Debug + Eq + std::hash::Hash + View {
    /// Tests two identifiers for equality.
    fn is_same(&self, other: &Self) -> (r: bool)
        ensures
            r == (self@ == other@),
    ;

    /// A copy of the identifier.
    fn copied(&self) -> (r: Self)
        ensures
            r@ == self@,
    ;
}

impl NodeId for u32 {
    fn is_same(&self, other: &Self) -> (r: bool) {
        *self == *other
    }

    fn copied(&self) -> (r: Self) {
        *self
    }
}

impl NodeId for u64 {
    fn is_same(&self, other: &Self) -> (r: bool) {
        *self == *other
    }

    fn copied(&self) -> (r: Self) {
        *self
    }
}

impl NodeId for usize {
    fn is_same(&self, other: &Self) -> (r: bool) {
        *self == *other
    }

    fn copied(&self) -> (r: Self) {
        *self
    }
}

/// Identifier of the specific type of a node, which can be read as a name.
/// Identifiers need only be unique among nodes of one kind (stack frames,
/// elementary values, objects).
pub trait NodeTypeId: Clone + Eq {
    /// The name of the type.
    fn type_string(&self) -> (r: &str);
}

impl NodeTypeId for String {
    fn type_string(&self) -> (r: &str) {
        self.as_str()
    }
}

impl<'a> NodeTypeId for &'a str {
    fn type_string(&self) -> (r: &str) {
        *self
    }
}

/// Enumerates elementary arithmetic values for nodes.
///
/// Values compare by the number they stand for, whatever their variant:
/// `true` is one and `false` is zero.
#[derive(Clone, Copy, Eq, Debug)]
pub enum NodeValue {
    /// Boolean value.
    Bool(bool),
    /// Signed integer value.
    Int(i64),
    /// Unsigned integer value.
    Uint(u64),
}

impl NodeValue {
    /// The arithmetic value a node value stands for: `true` is one, `false` is zero.
    pub open spec fn arith(self) -> int {
        match self {
            NodeValue::Bool(b) => if b { 1int } else { 0int },
            NodeValue::Int(i) => i as int,
            NodeValue::Uint(u) => u as int,
        }
    }

    /// Compares two values by the numbers they stand for.
    pub fn cmp(&self, other: &Self) -> (r: Ordering)
        ensures
            r == compare_values(*self, *other),
    {
        match (*self, *other) {
            (NodeValue::Bool(l), NodeValue::Bool(r)) => compare_u64(bool_number(l), bool_number(r)),
            (NodeValue::Bool(l), NodeValue::Int(r)) => compare_i64(signed_bool(l), r),
            (NodeValue::Bool(l), NodeValue::Uint(r)) => compare_u64(bool_number(l), r),
            (NodeValue::Int(l), NodeValue::Bool(r)) => compare_i64(l, signed_bool(r)),
            (NodeValue::Int(l), NodeValue::Int(r)) => compare_i64(l, r),
            (NodeValue::Int(l), NodeValue::Uint(r)) => {
                if l < 0 {
                    Ordering::Less
                } else {
                    compare_u64(unsigned_of(l), r)
                }
            },
            (NodeValue::Uint(l), NodeValue::Bool(r)) => compare_u64(l, bool_number(r)),
            (NodeValue::Uint(l), NodeValue::Int(r)) => {
                if r < 0 {
                    Ordering::Greater
                } else {
                    compare_u64(l, unsigned_of(r))
                }
            },
            (NodeValue::Uint(l), NodeValue::Uint(r)) => compare_u64(l, r),
        }
    }
}

/// Ordering of two numbers.
pub open spec fn compare_ints(a: int, b: int) -> Ordering {
    if a < b {
        Ordering::Less
    } else if a == b {
        Ordering::Equal
    } else {
        Ordering::Greater
    }
}

/// Ordering of two node values: that of the numbers they stand for.
pub open spec fn compare_values(a: NodeValue, b: NodeValue) -> Ordering {
    compare_ints(a.arith(), b.arith())
}

/// An unsigned integer as a number.
pub open spec fn unsigned_number(x: u64) -> int {
    x as int
}

/// A signed integer as a number.
pub open spec fn signed_number(x: i64) -> int {
    x as int
}

fn compare_u64(a: u64, b: u64) -> (r: Ordering)
    ensures
        r == compare_ints(unsigned_number(a), unsigned_number(b)),
{
    if a < b {
        Ordering::Less
    } else if a == b {
        Ordering::Equal
    } else {
        Ordering::Greater
    }
}

fn compare_i64(a: i64, b: i64) -> (r: Ordering)
    ensures
        r == compare_ints(signed_number(a), signed_number(b)),
{
    if a < b {
        Ordering::Less
    } else if a == b {
        Ordering::Equal
    } else {
        Ordering::Greater
    }
}

fn bool_number(b: bool) -> (r: u64)
    ensures
        r == NodeValue::Bool(b).arith(),
{
    if b {
        1
    } else {
        0
    }
}

fn signed_bool(b: bool) -> (r: i64)
    ensures
        r == NodeValue::Bool(b).arith(),
{
    if b {
        1
    } else {
        0
    }
}

fn unsigned_of(i: i64) -> (r: u64)
    requires
        i >= 0,
    ensures
        r as int == i as int,
{
    i as u64
}

impl PartialEq for NodeValue {
    fn eq(&self, other: &Self) -> (r: bool) {
        match self.cmp(other) {
            Ordering::Equal => true,
            _ => false,
        }
    }
}

impl PartialEqSpecImpl for NodeValue {
    open spec fn obeys_eq_spec() -> bool {
        true
    }

    open spec fn eq_spec(&self, other: &Self) -> bool {
        self.arith() == other.arith()
    }
}

impl PartialOrd for NodeValue {
    fn partial_cmp(&self, other: &Self) -> (r: Option<Ordering>) {
        Some(self.cmp(other))
    }
}

impl PartialOrdSpecImpl for NodeValue {
    open spec fn obeys_partial_cmp_spec() -> bool {
        true
    }

    open spec fn partial_cmp_spec(&self, other: &Self) -> Option<Ordering> {
        Some(compare_values(*self, *other))
    }
}

/// Comparison of node values is a total order on the numbers they stand for:
/// every value equals itself, swapping the operands reverses the result, and
/// the order is transitive; two values are equal exactly when they compare equal.
pub proof fn lemma_node_value_order(a: NodeValue, b: NodeValue, c: NodeValue)
    ensures
        compare_values(a, a) == Ordering::Equal,
        compare_values(a, b) == Ordering::Less <==> compare_values(b, a) == Ordering::Greater,
        compare_values(a, b) == Ordering::Equal <==> compare_values(b, a) == Ordering::Equal,
        compare_values(a, b) == Ordering::Less && compare_values(b, c) == Ordering::Less
            ==> compare_values(a, c) == Ordering::Less,
        compare_values(a, b) == Ordering::Equal && compare_values(b, c) == Ordering::Equal
            ==> compare_values(a, c) == Ordering::Equal,
        PartialEqSpec::eq_spec(&a, &b) <==> compare_values(a, b) == Ordering::Equal,
{
}

/// Values of different variants that stand for the same number are equal:
/// `true` equals the integers one, `false` equals zero, and a non-negative
/// signed integer equals the unsigned integer of the same value.
pub proof fn lemma_node_value_cross_variant(b: bool, i: i64, u: u64)
    ensures
        PartialEqSpec::eq_spec(&NodeValue::Bool(b), &NodeValue::Int(i)) <==> i == (if b { 1i64 } else { 0i64 }),
        PartialEqSpec::eq_spec(&NodeValue::Bool(b), &NodeValue::Uint(u)) <==> u == (if b { 1u64 } else { 0u64 }),
        PartialEqSpec::eq_spec(&NodeValue::Int(i), &NodeValue::Uint(u)) <==> i >= 0 && i as int == u as int,
{
}

/// A negative signed integer is below every unsigned integer.
pub proof fn lemma_negative_below_unsigned(i: i64, u: u64)
    requires
        i < 0,
    ensures
        compare_values(NodeValue::Int(i), NodeValue::Uint(u)) == Ordering::Less,
{
}

/// Types of program state edges.
#[derive(Clone, PartialEq, Eq, Hash, Debug)]
pub enum EdgeLabel {
    /// Identifies the entry point (the bottom-most stack frame).
    Main,
    /// Indicates an ordering relation between stack frames.
    Next,
    /// Identifies the return value of a function call.
    Result,
    /// Identifies the target of a reference node.
    Deref,
    /// Identifies an item of a sequence at a specific index.
    Index(usize),
    /// Identifies a named variable - global, local, or member;
    /// the second field tells apart variables of the same name.
    Named(String, usize),
    /// Indicates a variable that stores the length of a sequence.
    Length,
}

/// Model of an [`EdgeLabel`]: names are sequences of characters.
pub enum SpecEdgeLabel {
    Main,
    Next,
    Result,
    Deref,
    Index(usize),
    Named(Seq<char>, usize),
    Length,
}

impl View for EdgeLabel {
    type V = SpecEdgeLabel;

    open spec fn view(&self) -> SpecEdgeLabel {
        match self {
            EdgeLabel::Main => SpecEdgeLabel::Main,
            EdgeLabel::Next => SpecEdgeLabel::Next,
            EdgeLabel::Result => SpecEdgeLabel::Result,
            EdgeLabel::Deref => SpecEdgeLabel::Deref,
            EdgeLabel::Index(i) => SpecEdgeLabel::Index(*i),
            EdgeLabel::Named(n, d) => SpecEdgeLabel::Named(n@, *d),
            EdgeLabel::Length => SpecEdgeLabel::Length,
        }
    }
}

impl EdgeLabel {
    /// Tests two labels for equality.
    pub fn same_as(&self, other: &EdgeLabel) -> (r: bool)
        ensures
            r == (self@ == other@),
    {
        match (self, other) {
            (EdgeLabel::Main, EdgeLabel::Main) => true,
            (EdgeLabel::Next, EdgeLabel::Next) => true,
            (EdgeLabel::Result, EdgeLabel::Result) => true,
            (EdgeLabel::Deref, EdgeLabel::Deref) => true,
            (EdgeLabel::Index(a), EdgeLabel::Index(b)) => *a == *b,
            (EdgeLabel::Named(n, d), EdgeLabel::Named(m, e)) => *d == *e && crate::text::str_eq(
                n.as_str(),
                m.as_str(),
            ),
            (EdgeLabel::Length, EdgeLabel::Length) => true,
            _ => false,
        }
    }

    /// A copy of the label.
    pub fn duplicate(&self) -> (r: EdgeLabel)
        ensures
            r@ == self@,
    {
        match self {
            EdgeLabel::Main => EdgeLabel::Main,
            EdgeLabel::Next => EdgeLabel::Next,
            EdgeLabel::Result => EdgeLabel::Result,
            EdgeLabel::Deref => EdgeLabel::Deref,
            EdgeLabel::Index(i) => EdgeLabel::Index(*i),
            EdgeLabel::Named(n, d) => EdgeLabel::Named(n.clone(), *d),
            EdgeLabel::Length => EdgeLabel::Length,
        }
    }
}

/// Categories of types of program state nodes.
#[derive(Clone, Copy, PartialEq, Eq, Debug, Structural)]
pub enum NodeTypeClass {
    /// Type of the node that represents the program's global scope.
    Root,
    /// Type of nodes that represent stack frames.
    Frame,
    /// Type of nodes that represent elementary values.
    Atom,
    /// Type of nodes that represent structured values.
    Struct,
    /// Type of nodes that represent sequence (array) values.
    Array,
    /// Type of nodes that represent references.
    Ref,
}

} // verus!
