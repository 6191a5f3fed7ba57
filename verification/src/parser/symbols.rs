//! Definitions of symbol names used by semantic analysis.

use crate::model::state::{EdgeLabel, NodeTypeClass};
use crate::style::expression::{Expression, MagicVariableKey, UnaryOperator};
use crate::text::{debug_text, str_eq};
use vstd::prelude::*;

verus! {

/// Error returned by symbol name matchers if they cannot parse the symbol.
#[derive(Clone, PartialEq, Eq, Debug)]
pub struct InvalidSymbol(pub String);

/// The edge label that a symbol names:
/// `main`, `next`, `ret` (result), `ref` (dereference) and `len` (length).
pub open spec fn spec_edge_label(name: Seq<char>) -> Option<EdgeLabel> {
    if name == "main"@ {
        Some(EdgeLabel::Main)
    } else if name == "next"@ {
        Some(EdgeLabel::Next)
    } else if name == "ret"@ {
        Some(EdgeLabel::Result)
    } else if name == "ref"@ {
        Some(EdgeLabel::Deref)
    } else if name == "len"@ {
        Some(EdgeLabel::Length)
    } else {
        None
    }
}

/// The node type class that a symbol names:
/// `root`, `frame`, `val` (atom), `struct`, `arr` (array) and `ref`.
pub open spec fn spec_node_type_class(name: Seq<char>) -> Option<NodeTypeClass> {
    if name == "root"@ {
        Some(NodeTypeClass::Root)
    } else if name == "frame"@ {
        Some(NodeTypeClass::Frame)
    } else if name == "val"@ {
        Some(NodeTypeClass::Atom)
    } else if name == "struct"@ {
        Some(NodeTypeClass::Struct)
    } else if name == "arr"@ {
        Some(NodeTypeClass::Array)
    } else if name == "ref"@ {
        Some(NodeTypeClass::Ref)
    } else {
        None
    }
}

/// The function-like unary operator that a symbol names: `isset`, `val`,
/// `typename`, and `is-` followed by the name of a node type class.
pub open spec fn spec_unary_function(name: Seq<char>) -> Option<UnaryOperator> {
    if name == "isset"@ {
        Some(UnaryOperator::IsSet)
    } else if name == "val"@ {
        Some(UnaryOperator::NodeValue)
    } else if name == "typename"@ {
        Some(UnaryOperator::NodeTypeName)
    } else if name.len() >= 3 && name.take(3) == "is-"@ {
        match spec_node_type_class(name.skip(3)) {
            Some(c) => Some(UnaryOperator::NodeIsA(c)),
            None => None,
        }
    } else {
        None
    }
}

/// The magic variable that a symbol names: `--INDEX`, `--NAME` and `--DISCRIMINATOR`.
pub open spec fn spec_magic_variable(name: Seq<char>) -> Option<MagicVariableKey> {
    if name == "--INDEX"@ {
        Some(MagicVariableKey::EdgeIndex)
    } else if name == "--NAME"@ {
        Some(MagicVariableKey::EdgeName)
    } else if name == "--DISCRIMINATOR"@ {
        Some(MagicVariableKey::EdgeDiscriminator)
    } else {
        None
    }
}

/// The literal that a symbol names: `unset` or `none`, `true` and `false`.
pub open spec fn spec_literal(name: Seq<char>) -> Option<Expression> {
    if name == "unset"@ || name == "none"@ {
        Some(Expression::Unset)
    } else if name == "true"@ {
        Some(Expression::Bool(true))
    } else if name == "false"@ {
        Some(Expression::Bool(false))
    } else {
        None
    }
}

/// True if the symbol names a variable: it starts with two dashes.
pub open spec fn spec_is_variable_name(key: Seq<char>) -> bool {
    key.len() >= 2 && key[0] == '-' && key[1] == '-'
}

/// Maps [`EdgeLabel`]s to their symbol names.
pub fn edge_label_from_name(name: &str) -> (r: Result<EdgeLabel, InvalidSymbol>)
    ensures
        match spec_edge_label(name@) {
            Some(l) => r == Ok::<EdgeLabel, InvalidSymbol>(l),
            None => r matches Err(InvalidSymbol(s)) && s@ == name@,
        },
{
    if str_eq(name, "main") {
        Ok(EdgeLabel::Main)
    } else if str_eq(name, "next") {
        Ok(EdgeLabel::Next)
    } else if str_eq(name, "ret") {
        Ok(EdgeLabel::Result)
    } else if str_eq(name, "ref") {
        Ok(EdgeLabel::Deref)
    } else if str_eq(name, "len") {
        Ok(EdgeLabel::Length)
    } else {
        Err(InvalidSymbol(name.to_owned()))
    }
}

/// Determines whether a symbol is a variable name: one that starts with `--`.
pub fn is_variable_name(key: &str) -> (r: bool)
    ensures
        r == spec_is_variable_name(key@),
{
    key.unicode_len() >= 2 && key.get_char(0) == '-' && key.get_char(1) == '-'
}

/// Maps [`NodeTypeClass`]es to their names.
pub fn node_type_class_by_name(name: &str) -> (r: Result<NodeTypeClass, InvalidSymbol>)
    ensures
        match spec_node_type_class(name@) {
            Some(c) => r == Ok::<NodeTypeClass, InvalidSymbol>(c),
            None => r matches Err(InvalidSymbol(s)) && s@ == name@,
        },
{
    if str_eq(name, "root") {
        Ok(NodeTypeClass::Root)
    } else if str_eq(name, "frame") {
        Ok(NodeTypeClass::Frame)
    } else if str_eq(name, "val") {
        Ok(NodeTypeClass::Atom)
    } else if str_eq(name, "struct") {
        Ok(NodeTypeClass::Struct)
    } else if str_eq(name, "arr") {
        Ok(NodeTypeClass::Array)
    } else if str_eq(name, "ref") {
        Ok(NodeTypeClass::Ref)
    } else {
        Err(InvalidSymbol(name.to_owned()))
    }
}

/// Maps function-like [`UnaryOperator`]s to their names.
pub fn unary_function_by_name(name: &str) -> (r: Result<UnaryOperator, InvalidSymbol>)
    ensures
        match spec_unary_function(name@) {
            Some(o) => r == Ok::<UnaryOperator, InvalidSymbol>(o),
            None => r matches Err(InvalidSymbol(s)) && s@ == name@,
        },
{
    if str_eq(name, "isset") {
        Ok(UnaryOperator::IsSet)
    } else if str_eq(name, "val") {
        Ok(UnaryOperator::NodeValue)
    } else if str_eq(name, "typename") {
        Ok(UnaryOperator::NodeTypeName)
    } else {
        let n = name.unicode_len();
        if n >= 3 && str_eq(name.substring_char(0, 3), "is-") {
            let rest = name.substring_char(3, n);
            proof {
                assert(name@.skip(3) =~= name@.subrange(3, n as int));
                assert(name@.take(3) =~= name@.subrange(0, 3));
            }
            match node_type_class_by_name(rest) {
                Ok(c) => Ok(UnaryOperator::NodeIsA(c)),
                Err(_) => Err(InvalidSymbol(name.to_owned())),
            }
        } else {
            proof {
                if n >= 3 {
                    assert(name@.take(3) =~= name@.subrange(0, 3));
                }
            }
            Err(InvalidSymbol(name.to_owned()))
        }
    }
}

/// Maps literal [`Expression`]s to their names:
/// `unset` or `none`, `true` and `false`.
pub fn literal_expression_by_name(name: &str) -> (r: Result<Expression, InvalidSymbol>)
    ensures
        match spec_literal(name@) {
            Some(e) => r == Ok::<Expression, InvalidSymbol>(e),
            None => r matches Err(InvalidSymbol(s)) && s@ == name@,
        },
{
    if str_eq(name, "unset") || str_eq(name, "none") {
        Ok(Expression::Unset)
    } else if str_eq(name, "true") {
        Ok(Expression::Bool(true))
    } else if str_eq(name, "false") {
        Ok(Expression::Bool(false))
    } else {
        Err(InvalidSymbol(name.to_owned()))
    }
}

/// Maps [`MagicVariableKey`]s to their names.
pub fn magic_variable_by_name(name: &str) -> (r: Result<MagicVariableKey, InvalidSymbol>)
    ensures
        match spec_magic_variable(name@) {
            Some(m) => r == Ok::<MagicVariableKey, InvalidSymbol>(m),
            None => r matches Err(InvalidSymbol(s)) && s@ == name@,
        },
{
    if str_eq(name, "--INDEX") {
        Ok(MagicVariableKey::EdgeIndex)
    } else if str_eq(name, "--NAME") {
        Ok(MagicVariableKey::EdgeName)
    } else if str_eq(name, "--DISCRIMINATOR") {
        Ok(MagicVariableKey::EdgeDiscriminator)
    } else {
        Err(InvalidSymbol(name.to_owned()))
    }
}

/// Resolves an unquoted expression: a literal name, else a magic variable,
/// else a variable when the name starts with `--`.
pub fn resolve_unquoted_expression(name: &str) -> (r: Result<Expression, InvalidSymbol>)
    ensures
        match spec_literal(name@) {
            Some(e) => r == Ok::<Expression, InvalidSymbol>(e),
            None => match spec_magic_variable(name@) {
                Some(m) => r == Ok::<Expression, InvalidSymbol>(Expression::MagicVariable(m)),
                None => if spec_is_variable_name(name@) {
                    r matches Ok(Expression::Variable(s)) && s@ == name@
                } else {
                    r matches Err(InvalidSymbol(s)) && s@ == name@
                },
            },
        },
{
    match literal_expression_by_name(name) {
        Ok(e) => Ok(e),
        Err(_) => match magic_variable_by_name(name) {
            Ok(m) => Ok(Expression::MagicVariable(m)),
            Err(_) => {
                if is_variable_name(name) {
                    Ok(Expression::Variable(name.to_owned()))
                } else {
                    Err(InvalidSymbol(name.to_owned()))
                }
            },
        },
    }
}

impl InvalidSymbol {
    /// Text that describes the error.
    pub fn message(&self) -> (r: String)
        ensures
            r@ == "symbol "@ + debug_text(self.0@) + " is not valid in this context"@,
    {
        let mut out: Vec<char> = Vec::new();
        crate::text::push_str(&mut out, "symbol ");
        crate::text::push_str(&mut out, crate::text::debug_quoted(self.0.as_str()).as_str());
        crate::text::push_str(&mut out, " is not valid in this context");
        crate::text::string_from_chars(&out)
    }
}

} // verus!
