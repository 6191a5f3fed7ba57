use aili::model::state::{EdgeLabel, NodeTypeClass};
use aili::parser::grammar::{ParseFailure, SyntaxError};
use aili::parser::lexer::{LexerError, Token};
use aili::parser::syntax::parse_tokens;
use aili::parser::{parse_stylesheet, parse_with_reports, ParseError, ParseErrorInfo, ParseReport};
use aili::style::expression::{
    BinaryOperator, Expression, LimitedEdgeMatcher, LimitedSelector, MagicVariableKey,
    UnaryOperator,
};
use aili::style::selector::{EdgeMatcher, Selector, SelectorPath, SelectorSegment};
use aili::style::stylesheet::{RawPropertyKey, StyleClause, StyleKey, StyleRule, Stylesheet};

/// Parses a source and collects the errors that reach the handler.
fn parse(source: &str) -> (Result<Stylesheet, ParseFailure>, Vec<ParseError>) {
    let mut errors = Vec::new();
    let result = parse_stylesheet(source, |e| errors.push(e));
    (result, errors)
}

/// Parses a source that must parse without any error.
fn parse_clean(source: &str) -> Stylesheet {
    let (result, errors) = parse(source);
    assert_eq!(errors, vec![]);
    result.expect("Stylesheet should have parsed")
}

/// Parses a source that must report some error, but still parse.
fn parse_with_errors(source: &str) -> Stylesheet {
    let (result, errors) = parse(source);
    assert!(!errors.is_empty(), "Expected an error to be emitted");
    result.expect("Stylesheet should have parsed")
}

fn property(name: &str) -> StyleKey {
    StyleKey::Property(RawPropertyKey::Property(name.to_owned()))
}

fn current() -> Expression {
    Expression::Select(LimitedSelector::default().into())
}

fn variable(name: &str) -> Expression {
    Expression::Variable(name.to_owned())
}

fn bop(l: Expression, op: BinaryOperator, r: Expression) -> Expression {
    Expression::BinaryOperator(l.into(), op, r.into())
}

fn uop(op: UnaryOperator, e: Expression) -> Expression {
    Expression::UnaryOperator(op, e.into())
}

fn single_rule(properties: Vec<StyleClause>) -> Stylesheet {
    Stylesheet(vec![StyleRule {
        selector: Selector::default(),
        properties,
    }])
}

fn clause(key: StyleKey, value: Expression) -> StyleClause {
    StyleClause { key, value }
}

fn not_root(segments: Vec<SelectorSegment>) -> Selector {
    let mut path = vec![SelectorSegment::anything_any_number_of_times()];
    path.extend(segments);
    Selector::from_path(SelectorPath(path))
}

fn matching(label: EdgeLabel) -> SelectorSegment {
    SelectorSegment::Match(label.into())
}

// Grammar over tokens

#[test]
fn empty_stylesheet() {
    let (result, _, log) = parse_tokens(&vec![]);
    assert_eq!(result, Ok(Stylesheet::default()));
    assert_eq!(log, vec![]);
}

#[test]
fn smallest_empty_rule() {
    let tokens = vec![Token::RootMatcher, Token::OpenBrace, Token::CloseBrace];
    let (result, halt, log) = parse_tokens(&tokens);
    assert_eq!(result, Ok(single_rule(vec![])));
    assert_eq!(halt, 3);
    assert_eq!(log, vec![]);
}

#[test]
fn end_before_rule_body() {
    let (result, _, log) = parse_tokens(&vec![Token::RootMatcher]);
    assert_eq!(result, Ok(Stylesheet::default()));
    assert_eq!(log, vec![(1, SyntaxError::UnexpectedEnd)]);
}

#[test]
fn end_inside_rule_body() {
    let tokens = vec![
        Token::RootMatcher,
        Token::OpenBrace,
        Token::Unquoted("display".to_owned()),
        Token::Colon,
        Token::Unquoted("none".to_owned()),
    ];
    let (result, _, log) = parse_tokens(&tokens);
    assert_eq!(log, vec![(5, SyntaxError::UnterminatedRule)]);
    assert_eq!(
        result,
        Ok(single_rule(vec![clause(property("display"), Expression::Unset)]))
    );
}

#[test]
fn push_unexpected_token() {
    let tokens = vec![Token::RootMatcher, Token::At, Token::Hash, Token::Slash];
    let (result, _, log) = parse_tokens(&tokens);
    assert!(!log.is_empty());
    assert!(result.is_ok());
}

// Whole stylesheets

#[test]
fn minimal_empty_rule() {
    assert_eq!(parse_clean(":: { }"), single_rule(vec![]));
}

#[test]
fn assign_unquoted_to_unquoted() {
    assert_eq!(
        parse_clean(":: { abc:def }"),
        single_rule(vec![clause(property("abc"), Expression::String("def".to_owned()))])
    );
}

#[test]
fn assign_single_letter_to_single_letter() {
    assert_eq!(
        parse_clean(":: { a:b }"),
        single_rule(vec![clause(property("a"), Expression::String("b".to_owned()))])
    );
}

#[test]
fn multiple_clauses_with_trailing_semicolon() {
    assert_eq!(
        parse_clean(":: { a: 1; b: 2; }"),
        single_rule(vec![
            clause(property("a"), Expression::Int(1)),
            clause(property("b"), Expression::Int(2)),
        ])
    );
}

#[test]
fn variable_invocations() {
    assert_eq!(
        parse_clean(":: { --i: --j }"),
        single_rule(vec![clause(StyleKey::Variable("--i".to_owned()), variable("--j"))])
    );
}

#[test]
fn arihhmetic_operators() {
    let expected = bop(
        bop(
            uop(UnaryOperator::Minus, Expression::Int(1)),
            BinaryOperator::Minus,
            bop(Expression::Int(3), BinaryOperator::Mul, Expression::Int(2)),
        ),
        BinaryOperator::Plus,
        bop(
            bop(Expression::Int(4), BinaryOperator::Div, Expression::Int(2)),
            BinaryOperator::Mod,
            uop(UnaryOperator::Plus, Expression::Int(5)),
        ),
    );
    assert_eq!(
        parse_clean(":: { a: -1 - 3 * 2 + 4 / 2 % +5 }"),
        single_rule(vec![clause(property("a"), expected)])
    );
}

#[test]
fn empty_select_expression() {
    assert_eq!(
        parse_clean(":: { value: @ }"),
        single_rule(vec![clause(property("value"), current())])
    );
}

#[test]
fn logical_operators() {
    let expected = bop(
        bop(
            current(),
            BinaryOperator::Or,
            bop(
                variable("--a"),
                BinaryOperator::And,
                uop(UnaryOperator::Not, variable("--b")),
            ),
        ),
        BinaryOperator::Or,
        bop(variable("--i"), BinaryOperator::Eq, Expression::Int(0)),
    );
    assert_eq!(
        parse_clean(":: { value: @ || --a && !--b || --i == 0 }"),
        single_rule(vec![clause(property("value"), expected)])
    );
}

#[test]
fn select_expression_with_path() {
    let expected = Expression::Select(
        LimitedSelector::from_path(vec![
            EdgeLabel::Named("a".to_owned(), 0).into(),
            EdgeLabel::Index(42).into(),
        ])
        .into(),
    );
    assert_eq!(
        parse_clean(":: { value: @(\"a\" [42]) }"),
        single_rule(vec![clause(property("value"), expected)])
    );
}

#[test]
fn ternary_operator() {
    let expected = Expression::Conditional(
        bop(variable("--a"), BinaryOperator::And, variable("--b")).into(),
        Expression::String("true".to_owned()).into(),
        bop(Expression::Int(1), BinaryOperator::Plus, variable("--a")).into(),
    );
    assert_eq!(
        parse_clean(":: { value: --a && --b ? \"true\" : 1 + --a }"),
        single_rule(vec![clause(property("value"), expected)])
    );
}

#[test]
fn selector_edge_matchers() {
    let expected = Stylesheet(vec![StyleRule {
        selector: not_root(
            vec![
                EdgeLabel::Main.into(),
                EdgeLabel::Next.into(),
                EdgeLabel::Result.into(),
                EdgeLabel::Deref.into(),
                EdgeLabel::Length.into(),
                EdgeMatcher::AnyIndex,
                EdgeLabel::Index(42).into(),
                EdgeMatcher::Named("a".to_owned()),
                EdgeLabel::Named("b".to_owned(), 1).into(),
                EdgeMatcher::Any,
                EdgeMatcher::AnyNamed,
            ]
            .into_iter()
            .map(SelectorSegment::Match)
            .collect(),
        ),
        properties: Vec::new(),
    }]);
    assert_eq!(
        parse_clean("main next ret ref len [] [42] \"a\" \"b\"#1 * % { }"),
        expected
    );
}

#[test]
fn selector_pseudo_elements() {
    let expected = Stylesheet(vec![
        StyleRule {
            selector: Selector::default().selecting_edge(),
            properties: Vec::new(),
        },
        StyleRule {
            selector: Selector::default().with_extra("".to_owned()),
            properties: Vec::new(),
        },
        StyleRule {
            selector: Selector::default().with_extra("hello-world".to_owned()),
            properties: Vec::new(),
        },
        StyleRule {
            selector: Selector::from_path(SelectorPath(vec![matching(EdgeLabel::Main)]))
                .selecting_edge()
                .with_extra("".to_owned()),
            properties: Vec::new(),
        },
    ]);
    assert_eq!(
        parse_clean(
            "::::edge { } ::::extra { } ::::extra(hello-world) { } :: main::edge::extra { }"
        ),
        expected
    );
}

#[test]
fn branched_selectors() {
    let expected = Stylesheet(vec![StyleRule {
        selector: Selector::from_path(SelectorPath(vec![SelectorSegment::AnyNumberOfTimes(
            SelectorPath(vec![SelectorSegment::Branch(vec![
                SelectorPath(vec![matching(EdgeLabel::Next), matching(EdgeLabel::Result)]),
                SelectorPath(vec![SelectorSegment::AnyNumberOfTimes(SelectorPath(vec![
                    SelectorSegment::Match(EdgeMatcher::AnyNamed),
                ]))]),
            ])]),
        )])),
        properties: Vec::new(),
    }]);
    assert_eq!(parse_clean(":: .many(.alt(next ret, .many(%))) { }"), expected);
}

#[test]
fn special_property_keys() {
    let expected = single_rule(vec![
        clause(property("display"), Expression::Unset),
        clause(
            StyleKey::Property(RawPropertyKey::QuotedProperty("display".to_owned())),
            Expression::String("unset".to_owned()),
        ),
        clause(property("parent"), Expression::Bool(true)),
        clause(property("target"), Expression::Bool(false)),
        clause(
            StyleKey::Property(RawPropertyKey::QuotedProperty("--i".to_owned())),
            Expression::Int(1),
        ),
    ]);
    assert_eq!(
        parse_clean(
            ":: { display: unset; \"display\": \"unset\"; parent: true; target: false; \"--i\": 1 }"
        ),
        expected
    );
}

#[test]
fn restricted_selector() {
    let expected = Stylesheet(vec![StyleRule {
        selector: Selector::from_path(SelectorPath(vec![
            SelectorSegment::AnyNumberOfTimes(SelectorPath(vec![
                SelectorSegment::Match(EdgeMatcher::Any),
                SelectorSegment::Condition(variable("--c")),
            ])),
            SelectorSegment::Condition(bop(variable("--i"), BinaryOperator::Eq, Expression::Int(0))),
        ])),
        properties: Vec::new(),
    }]);
    assert_eq!(parse_clean(":: .many(*.if(--c)).if(--i == 0) { }"), expected);
}

#[test]
fn named_operators() {
    let expected = single_rule(vec![
        clause(property("a"), uop(UnaryOperator::IsSet, variable("--i"))),
        clause(
            property("b"),
            uop(UnaryOperator::NodeIsA(NodeTypeClass::Root), current()),
        ),
        clause(property("c"), uop(UnaryOperator::NodeTypeName, current())),
        clause(property("d"), uop(UnaryOperator::NodeValue, current())),
    ]);
    assert_eq!(
        parse_clean(":: { a: isset(--i); b: is-root(@); c: typename(@); d: val(@); }"),
        expected
    );
}

#[test]
fn conditional_operator_precedence() {
    let expected = Expression::Conditional(
        Expression::Int(1).into(),
        Expression::Conditional(
            bop(variable("--a"), BinaryOperator::And, Expression::Int(2)).into(),
            Expression::Int(3).into(),
            Expression::Int(4).into(),
        )
        .into(),
        bop(variable("--a"), BinaryOperator::And, Expression::Int(5)).into(),
    );
    assert_eq!(
        parse_clean(":: { a: 1 ? --a && 2 ? 3 : 4 : --a && 5 }"),
        single_rule(vec![clause(property("a"), expected)])
    );
}

#[test]
fn invalid_selector() {
    // The affected rules are discarded, all others are retained
    let expected = Stylesheet(vec![
        StyleRule {
            selector: Selector::default(),
            properties: Vec::new(),
        },
        StyleRule {
            selector: not_root(vec![]),
            properties: Vec::new(),
        },
        StyleRule {
            selector: not_root(vec![]),
            properties: Vec::new(),
        },
    ]);
    assert_eq!(parse_with_errors(":: { } # { }  main > } { } }"), expected);
}

#[test]
fn unclosed_rule_body() {
    let expected = Stylesheet(vec![
        StyleRule {
            selector: Selector::from_path(SelectorPath(vec![SelectorSegment::Match(
                EdgeMatcher::AnyNamed,
            )])),
            properties: Vec::new(),
        },
        StyleRule {
            selector: Selector::default(),
            properties: vec![clause(
                StyleKey::Variable("--a".to_owned()),
                Expression::String("b".to_owned()),
            )],
        },
    ]);
    let (result, errors) = parse(":: % { } :: { --a: b ");
    assert_eq!(
        errors,
        vec![ParseError {
            error_data: SyntaxError::UnterminatedRule.into(),
            line_number: 1,
        }]
    );
    assert_eq!(result, Ok(expected));
}

#[test]
fn missing_semicolon() {
    assert_eq!(
        parse_with_errors(":: { a: a; b: b /* missing semicolon */ x: x; c: c }"),
        Stylesheet::default()
    );
}

#[test]
fn empty_clause_right_hand_side() {
    assert_eq!(
        parse_with_errors(":: { a: a; b: /* missing rhs */; c: c }"),
        Stylesheet::default()
    );
}

#[test]
fn missing_clause_separator() {
    assert_eq!(
        parse_with_errors(":: { a: a; b /* missing colon */ b; c: c }"),
        Stylesheet::default()
    );
}

#[test]
fn missing_clause_separator_and_right_hand_side() {
    assert_eq!(parse_with_errors(":: { a: a; b; c: c }"), Stylesheet::default());
}

#[test]
fn multiple_tokens_on_left_hand_side() {
    assert_eq!(parse_with_errors(":: { a: a; b b: b; c: c }"), Stylesheet::default());
}

#[test]
fn invalid_token_on_left_hand_side() {
    assert_eq!(parse_with_errors(":: { a: a; 42: b; c: c }"), Stylesheet::default());
}

#[test]
fn extra_semicolon() {
    assert_eq!(parse_with_errors(":: { a: a; ; c: c }"), Stylesheet::default());
}

#[test]
fn stack_overflow() {
    let source = r"*.if(
        0 ? 0 ? 0 ? 0 ? 0 ? 0 ? 0 ? 0 ? 0 ? 0 ? 0 ?
            0 ? 0 ? 0 ? 0 ? 0 ? 0 ? 0 ? 0 ? 0 ? 0 ? 0 ?
                0 ? 0 ? 0 ? 0 ? 0 ? 0 ? 0 ? 0 ? 0 ? 0 ? 0 ?
                    0 ? 0 ? 0 ? 0 ? 0 ? 0 ? 0 ? 0 ? 0 ? 0 ? 0 ?
                        0 ? 0 ? 0 ? 0 ? 0 ? 0 ? 0 ? 0 ? 0 ? 0 ? 0 ?
                            0 ? 0 ? 0 ? 0 ? 0 ? 0 ? 0 : 0 : 0 : 0 : 0 : 0 :
                        0 : 0 : 0 : 0 : 0 : 0 : 0 : 0 : 0 : 0 : 0 :
                    0 : 0 : 0 : 0 : 0 : 0 : 0 : 0 : 0 : 0 : 0 :
                0 : 0 : 0 : 0 : 0 : 0 : 0 : 0 : 0 : 0 : 0 :
            0 : 0 : 0 : 0 : 0 : 0 : 0 : 0 : 0 : 0 : 0 :
        0 : 0 : 0 : 0 : 0 : 0 : 0 : 0 : 0 : 0 : 0 
    ) { }";
    let (result, errors) = parse(source);
    assert_eq!(errors, vec![]);
    assert_eq!(result, Err(ParseFailure::StackOverflow));
}

#[test]
fn fragment_attributes() {
    let expected = single_rule(vec![
        clause(
            StyleKey::Property(RawPropertyKey::FragmentProperty(
                "start".to_owned(),
                "a".to_owned(),
            )),
            Expression::String("a".to_owned()),
        ),
        clause(
            StyleKey::Property(RawPropertyKey::FragmentProperty("end".to_owned(), "b".to_owned())),
            Expression::String("b".to_owned()),
        ),
    ]);
    assert_eq!(parse_clean(":: { start/a: a; end/b: b }"), expected);
}

#[test]
fn type_assertions_in_selectors() {
    let type_name_is = |name: &str| {
        SelectorSegment::Condition(bop(
            uop(UnaryOperator::NodeTypeName, current()),
            BinaryOperator::Eq,
            Expression::String(name.to_owned()),
        ))
    };
    let expected = Stylesheet(vec![StyleRule {
        selector: Selector::from_path(SelectorPath(vec![
            SelectorSegment::Condition(uop(UnaryOperator::NodeIsA(NodeTypeClass::Struct), current())),
            type_name_is("struct"),
            type_name_is("vector"),
            type_name_is("vector"),
        ])),
        properties: Vec::new(),
    }]);
    assert_eq!(
        parse_clean(":: :struct :\"struct\" :vector :\"vector\" { }"),
        expected
    );
}

#[test]
fn dynamic_index_matcher_in_expression() {
    let index_expression = bop(variable("--len"), BinaryOperator::Minus, Expression::Int(1));
    let expected = single_rule(vec![clause(
        property("parent"),
        Expression::Select(
            LimitedSelector::from_path(vec![
                LimitedEdgeMatcher::DynIndex(index_expression),
                LimitedEdgeMatcher::DynIndex(variable("--i")),
            ])
            .into(),
        ),
    )]);
    assert_eq!(parse_clean(":: { parent: @([--len - 1][--i]) }"), expected);
}

#[test]
fn dynamic_index_matcher_in_selector() {
    let index_is = |e: Expression| {
        SelectorSegment::Condition(bop(
            Expression::MagicVariable(MagicVariableKey::EdgeIndex),
            BinaryOperator::Eq,
            e,
        ))
    };
    let expected = Stylesheet(vec![StyleRule {
        selector: Selector::from_path(SelectorPath(vec![
            SelectorSegment::Match(EdgeMatcher::AnyIndex),
            index_is(bop(variable("--len"), BinaryOperator::Minus, Expression::Int(1))),
            SelectorSegment::Match(EdgeMatcher::AnyIndex),
            index_is(variable("--i")),
        ])),
        properties: Vec::new(),
    }]);
    assert_eq!(parse_clean(":: [--len - 1] [--i] { }"), expected);
}

#[test]
fn select_origin_override() {
    let expected = single_rule(vec![clause(
        property("parent"),
        Expression::Select(
            LimitedSelector::from_path(vec![EdgeLabel::Main.into()])
                .with_origin(current())
                .into(),
        ),
    )]);
    assert_eq!(parse_clean(":: { parent: @((@) main) }"), expected);
}

#[test]
fn error_cooldown() {
    let source = r#" /* first line ends here */
        /      /* invalid */
        :: abc /* 2 valid tokens */
        /      /* invalid (not reported, still in cooldown) */
        :: { } /* 3 valid tokens (next error will be reported) */
        "         unterminated string (lexer error, will be reported)
        ::     /* 1 valid token */
        123abc /* invalid number (lexer error, not reported) */
        :: abc /* 2 valid tokens */
        $      /* weird character (lexer error, not reported, still in cooldown) */
        "#;
    let expected_errors = vec![
        ParseError {
            error_data: SyntaxError::UnexpectedToken.into(),
            line_number: 2,
        },
        ParseError {
            error_data: LexerError::UnterminatedQuoted.into(),
            line_number: 6,
        },
    ];
    let (result, errors) = parse(source);
    assert_eq!(errors, expected_errors);
    assert!(result.is_ok());
}

// Further cases

#[test]
fn unknown_edge_name_discards_its_rule() {
    let (result, errors) = parse(":: nowhere { a: 1 } :: { b: 2 }");
    assert_eq!(
        result,
        Ok(single_rule(vec![clause(property("b"), Expression::Int(2))]))
    );
    assert_eq!(errors.len(), 1);
    assert!(matches!(
        errors[0].error_data,
        ParseErrorInfo::SyntaxError(SyntaxError::InvalidEdgeLabel(_))
    ));
}

#[test]
fn unknown_function_is_reported_after_its_call() {
    let tokens = vec![
        Token::RootMatcher,
        Token::OpenBrace,
        Token::Unquoted("a".to_owned()),
        Token::Colon,
        Token::Unquoted("nope".to_owned()),
        Token::OpenParen,
        Token::Int(1),
        Token::CloseParen,
        Token::CloseBrace,
    ];
    let (result, halt, log) = parse_tokens(&tokens);
    assert_eq!(result, Ok(Stylesheet::default()));
    assert_eq!(halt, 9);
    assert_eq!(log.len(), 1);
    assert_eq!(log[0].0, 8);
    assert!(matches!(log[0].1, SyntaxError::InvalidFunction(_)));
}

#[test]
fn magic_variables_and_literals() {
    let expected = single_rule(vec![
        clause(
            property("a"),
            bop(
                Expression::MagicVariable(MagicVariableKey::EdgeName),
                BinaryOperator::Ne,
                Expression::Bool(false),
            ),
        ),
        clause(property("b"), Expression::MagicVariable(MagicVariableKey::EdgeDiscriminator)),
    ]);
    assert_eq!(
        parse_clean(":: { a: --NAME != false; b: --DISCRIMINATOR }"),
        expected
    );
}

#[test]
fn comparison_binds_tighter_than_conjunction() {
    let expected = bop(
        bop(Expression::Int(1), BinaryOperator::Lt, Expression::Int(2)),
        BinaryOperator::And,
        bop(Expression::Int(3), BinaryOperator::Ge, Expression::Int(4)),
    );
    assert_eq!(
        parse_clean(":: { a: 1 < 2 && 3 >= 4 }"),
        single_rule(vec![clause(property("a"), expected)])
    );
}

#[test]
fn reports_list_every_error_and_accepted_token() {
    let (result, reports) = parse_with_reports(":: { a: 1 }");
    assert_eq!(result, Ok(single_rule(vec![clause(property("a"), Expression::Int(1))])));
    assert_eq!(reports, vec![ParseReport::TokenAccepted; 6]);

    // the filter later drops the second error, which follows the first too closely
    let (result, reports) = parse_with_reports("\"a\n\"b\n::");
    assert_eq!(result, Ok(Stylesheet::default()));
    assert_eq!(
        reports,
        vec![
            ParseReport::Error(ParseError {
                error_data: LexerError::UnterminatedQuoted.into(),
                line_number: 1,
            }),
            ParseReport::Error(ParseError {
                error_data: LexerError::UnterminatedQuoted.into(),
                line_number: 2,
            }),
            ParseReport::TokenAccepted,
            ParseReport::Error(ParseError {
                error_data: SyntaxError::UnexpectedEnd.into(),
                line_number: 3,
            }),
        ]
    );
    let (_, errors) = parse("\"a\n\"b\n::");
    assert_eq!(errors.len(), 1);
}

#[test]
fn error_messages() {
    assert_eq!(ParseFailure::StackOverflow.message(), "parser stack overflow");
    assert_eq!(ParseFailure::Generic.message(), "irrecoverable parser failure");
    assert_eq!(
        ParseError {
            error_data: SyntaxError::InvalidFunction(aili::parser::symbols::InvalidSymbol("f\\".to_owned())).into(),
            line_number: 12,
        }
        .message(),
        "line 12: unknown function name \"f\\\\\""
    );
    assert_eq!(
        ParseError {
            error_data: LexerError::UnterminatedQuoted.into(),
            line_number: 3,
        }
        .message(),
        "line 3: unterminated string literal"
    );
    assert_eq!(
        SyntaxError::UnterminatedRule.message(),
        "last rule is missing a closing delimiter"
    );
}

#[test]
fn filtered_errors_are_listed_in_order() {
    let (result, errors) = aili::parser::parse_with_errors("\"a\n\"b\n::");
    assert_eq!(result, Ok(Stylesheet::default()));
    assert_eq!(
        errors,
        vec![ParseError {
            error_data: LexerError::UnterminatedQuoted.into(),
            line_number: 1,
        }]
    );
    // the handler receives exactly the listed errors
    let source = "\"a\n:: { a: 1; b: 2; c: 3 }\n\"b\n::";
    let (_, errors) = aili::parser::parse_with_errors(source);
    let (_, handled) = parse(source);
    assert_eq!(errors, handled);
    assert_eq!(errors.len(), 2);
    assert_eq!(errors[1].line_number, 3);
}
