use aili::gdbstate::hints::{BadHintKey, PointerLengthHintKey};
use aili::model::state::NodeTypeId;
use aili::model::state::{EdgeLabel, NodeTypeClass, NodeValue};
use aili::model::vis::{InvalidHandle, ParentAssignmentError};
use aili::parser::grammar::{index_match_condition, selector_from_not_root, type_match_condition};
use aili::parser::report::FilteredErrorHandler;
use aili::parser::symbols::{
    edge_label_from_name, is_variable_name, literal_expression_by_name, magic_variable_by_name,
    node_type_class_by_name, resolve_unquoted_expression, unary_function_by_name, InvalidSymbol,
};
use aili::style::expression::{
    BinaryOperator, Expression, LimitedSelector, MagicVariableKey, UnaryOperator,
};
use aili::style::selector::{EdgeMatcher, SelectorPath, SelectorSegment};
use aili::style::stylesheet::{RawPropertyKey, StyleClause, StyleKey, StyleRule, Stylesheet};
use std::cell::RefCell;

#[test]
fn edge_label_names() {
    assert_eq!(edge_label_from_name("main"), Ok(EdgeLabel::Main));
    assert_eq!(edge_label_from_name("next"), Ok(EdgeLabel::Next));
    assert_eq!(edge_label_from_name("ret"), Ok(EdgeLabel::Result));
    assert_eq!(edge_label_from_name("ref"), Ok(EdgeLabel::Deref));
    assert_eq!(edge_label_from_name("len"), Ok(EdgeLabel::Length));
    assert_eq!(
        edge_label_from_name("length"),
        Err(InvalidSymbol("length".to_owned()))
    );
}

#[test]
fn type_class_and_function_names() {
    assert_eq!(node_type_class_by_name("val"), Ok(NodeTypeClass::Atom));
    assert_eq!(node_type_class_by_name("arr"), Ok(NodeTypeClass::Array));
    assert_eq!(
        node_type_class_by_name("atom"),
        Err(InvalidSymbol("atom".to_owned()))
    );
    assert_eq!(unary_function_by_name("isset"), Ok(UnaryOperator::IsSet));
    assert_eq!(unary_function_by_name("val"), Ok(UnaryOperator::NodeValue));
    assert_eq!(
        unary_function_by_name("typename"),
        Ok(UnaryOperator::NodeTypeName)
    );
    assert_eq!(
        unary_function_by_name("is-struct"),
        Ok(UnaryOperator::NodeIsA(NodeTypeClass::Struct))
    );
    assert_eq!(
        unary_function_by_name("is-"),
        Err(InvalidSymbol("is-".to_owned()))
    );
    assert_eq!(
        unary_function_by_name("is-thing"),
        Err(InvalidSymbol("is-thing".to_owned()))
    );
}

#[test]
fn literal_magic_and_variable_names() {
    assert_eq!(literal_expression_by_name("none"), Ok(Expression::Unset));
    assert_eq!(literal_expression_by_name("true"), Ok(Expression::Bool(true)));
    assert_eq!(
        magic_variable_by_name("--NAME"),
        Ok(MagicVariableKey::EdgeName)
    );
    assert!(is_variable_name("--x"));
    assert!(!is_variable_name("-x"));
    assert_eq!(
        resolve_unquoted_expression("unset"),
        Ok(Expression::Unset)
    );
    assert_eq!(
        resolve_unquoted_expression("--INDEX"),
        Ok(Expression::MagicVariable(MagicVariableKey::EdgeIndex))
    );
    assert_eq!(
        resolve_unquoted_expression("--j"),
        Ok(Expression::Variable("--j".to_owned()))
    );
    assert_eq!(
        resolve_unquoted_expression("abc"),
        Err(InvalidSymbol("abc".to_owned()))
    );
    assert_eq!(
        InvalidSymbol("abc".to_owned()).message(),
        "symbol \"abc\" is not valid in this context"
    );
}

#[test]
fn grammar_building_blocks() {
    let selector = selector_from_not_root(vec![SelectorSegment::Match(EdgeMatcher::AnyIndex)]);
    assert_eq!(
        selector.path,
        SelectorPath(vec![
            SelectorSegment::AnyNumberOfTimes(SelectorPath(vec![SelectorSegment::Match(
                EdgeMatcher::Any
            )])),
            SelectorSegment::Match(EdgeMatcher::AnyIndex),
        ])
    );
    assert!(!selector.selects_edge);
    assert_eq!(
        type_match_condition("struct", true),
        Expression::UnaryOperator(
            UnaryOperator::NodeIsA(NodeTypeClass::Struct),
            Box::new(Expression::Select(Box::new(LimitedSelector::default())))
        )
    );
    assert_eq!(
        type_match_condition("struct", false),
        Expression::BinaryOperator(
            Box::new(Expression::UnaryOperator(
                UnaryOperator::NodeTypeName,
                Box::new(Expression::Select(Box::new(LimitedSelector::default())))
            )),
            BinaryOperator::Eq,
            Box::new(Expression::String("struct".to_owned()))
        )
    );
    assert_eq!(
        index_match_condition(Expression::Int(2)),
        Expression::BinaryOperator(
            Box::new(Expression::MagicVariable(MagicVariableKey::EdgeIndex)),
            BinaryOperator::Eq,
            Box::new(Expression::Int(2))
        )
    );
}

#[test]
fn hint_keys() {
    assert_eq!(
        PointerLengthHintKey::try_from(RawPropertyKey::Property("length".to_owned())),
        Ok(PointerLengthHintKey::Length)
    );
    assert_eq!(
        PointerLengthHintKey::try_from(RawPropertyKey::Property("size".to_owned())),
        Err(BadHintKey::InvalidKey("size".to_owned()))
    );
    assert_eq!(
        PointerLengthHintKey::try_from(RawPropertyKey::QuotedProperty("length".to_owned())),
        Err(BadHintKey::Quoted("length".to_owned()))
    );
    assert_eq!(
        PointerLengthHintKey::try_from(RawPropertyKey::FragmentProperty(
            "a".to_owned(),
            "b".to_owned()
        )),
        Err(BadHintKey::Fragment("a".to_owned(), "b".to_owned()))
    );
    assert_eq!(
        BadHintKey::InvalidKey("size".to_owned()).message(),
        "unrecognized key: size"
    );
}

#[test]
fn stylesheet_keys_are_converted_and_unconvertible_ones_dropped() {
    let rule: StyleRule<RawPropertyKey> = StyleRule {
        selector: Default::default(),
        properties: vec![
            StyleClause {
                key: StyleKey::Property(RawPropertyKey::Property("length".to_owned())),
                value: Expression::Int(1),
            },
            StyleClause {
                key: StyleKey::Property(RawPropertyKey::Property("color".to_owned())),
                value: Expression::Int(2),
            },
            StyleClause {
                key: StyleKey::Variable("--v".to_owned()),
                value: Expression::Int(3),
            },
        ],
    };
    let sheet = Stylesheet(vec![rule]);
    let converted: Stylesheet<PointerLengthHintKey> = sheet.map_key();
    assert_eq!(converted.0.len(), 1);
    assert_eq!(
        converted.0[0].properties,
        vec![
            StyleClause {
                key: StyleKey::Property(PointerLengthHintKey::Length),
                value: Expression::Int(1),
            },
            StyleClause {
                key: StyleKey::Variable("--v".to_owned()),
                value: Expression::Int(3),
            },
        ]
    );
    let key: StyleKey<RawPropertyKey> = StyleKey::Variable("--w".to_owned());
    let same: StyleKey<RawPropertyKey> = key.map_key();
    assert_eq!(same, StyleKey::Variable("--w".to_owned()));
}

#[test]
fn filtered_error_handler_cools_down() {
    let seen = RefCell::new(Vec::new());
    let mut handler = FilteredErrorHandler::new(|e: u32| seen.borrow_mut().push(e));
    handler.handle_error(1);
    handler.handle_error(2);
    handler.token_parsed();
    handler.token_parsed();
    handler.token_parsed();
    handler.handle_error(3);
    for _ in 0..4 {
        handler.token_parsed();
    }
    handler.handle_error(4);
    drop(handler);
    assert_eq!(*seen.borrow(), vec![1, 4]);
}

#[test]
fn node_values_compare_arithmetically() {
    assert_eq!(NodeValue::Bool(true), NodeValue::Int(1));
    assert_eq!(NodeValue::Bool(false), NodeValue::Uint(0));
    assert_eq!(NodeValue::Int(5), NodeValue::Uint(5));
    assert_ne!(NodeValue::Int(-1), NodeValue::Uint(u64::MAX));
    assert!(NodeValue::Int(-1) < NodeValue::Uint(0));
    assert!(NodeValue::Uint(u64::MAX) > NodeValue::Int(i64::MAX));
    assert!(NodeValue::Bool(true) > NodeValue::Int(0));
    assert_eq!(
        NodeValue::Int(-3).cmp(&NodeValue::Bool(false)),
        std::cmp::Ordering::Less
    );
}

#[test]
fn edge_matchers() {
    let named = EdgeLabel::Named("x".to_owned(), 2);
    assert!(EdgeMatcher::Any.matches(&EdgeLabel::Main));
    assert!(EdgeMatcher::AnyNamed.matches(&named));
    assert!(!EdgeMatcher::AnyNamed.matches(&EdgeLabel::Index(0)));
    assert!(EdgeMatcher::AnyIndex.matches(&EdgeLabel::Index(0)));
    assert!(EdgeMatcher::Named("x".to_owned()).matches(&named));
    assert!(!EdgeMatcher::Named("y".to_owned()).matches(&named));
    assert!(EdgeMatcher::Exact(EdgeLabel::Named("x".to_owned(), 2)).matches(&named));
    assert!(!EdgeMatcher::Exact(EdgeLabel::Named("x".to_owned(), 0)).matches(&named));
}

#[test]
fn visualization_errors() {
    let e: ParentAssignmentError = InvalidHandle.into();
    assert_eq!(e, ParentAssignmentError::InvalidHandle(InvalidHandle));
    assert_eq!(e.message(), "invalid visualization entity handle");
    assert_eq!(
        ParentAssignmentError::StructureViolation.message(),
        "visualization tree operation was rejected because it would create a cycle"
    );
}

#[test]
fn messages_quote_symbols_as_debug_formatting_does() {
    assert_eq!(
        BadHintKey::Quoted("a\"b".to_owned()).message(),
        "quoted keys are not allowed: \"a\\\"b\""
    );
    assert_eq!(
        BadHintKey::Fragment("start".to_owned(), "x\ny".to_owned()).message(),
        "fragment keys are not allowed: start/\"x\\ny\""
    );
    assert_eq!(
        InvalidSymbol("tab\there".to_owned()).message(),
        "symbol \"tab\\there\" is not valid in this context"
    );
}

#[test]
fn type_identifiers_read_as_names() {
    assert_eq!("int".to_owned().type_string(), "int");
    assert_eq!("node *".type_string(), "node *");
}
