use aili::model::state::EdgeLabel;
use aili::style::cascade::FlatSelectorSegment::{Branch, Jump, MatchEdge, MatchNode};
use aili::style::cascade::{CascadeStyle, FlatSelector};
use aili::style::expression::Expression;
use aili::style::selector::{EdgeMatcher, Selector, SelectorPath, SelectorSegment};
use aili::style::stylesheet::{RawPropertyKey, StyleClause, StyleKey, StyleRule, Stylesheet};

#[test]
fn flatten_empty_selector() {
    let original_selector = Selector {
        path: SelectorPath(vec![]),
        selects_edge: false,
        extra: None,
    };
    let expected_flat_selector = FlatSelector {
        path: vec![MatchNode],
    };
    assert_eq!(
        FlatSelector::from(original_selector),
        expected_flat_selector
    );
}

#[test]
fn flatten_linear_selector() {
    let original_selector = Selector {
        path: SelectorPath(vec![
            SelectorSegment::Match(EdgeMatcher::AnyNamed),
            SelectorSegment::Match(EdgeLabel::Result.into()),
        ]),
        selects_edge: false,
        extra: None,
    };
    let expected_flat_selector = FlatSelector {
        path: vec![
            MatchNode,
            MatchEdge(EdgeMatcher::AnyNamed),
            MatchNode,
            MatchEdge(EdgeLabel::Result.into()),
            MatchNode,
        ],
    };
    assert_eq!(
        FlatSelector::from(original_selector),
        expected_flat_selector
    );
}

#[test]
fn flatten_repeated_selector() {
    let original_selector = Selector {
        path: SelectorPath(vec![
            SelectorSegment::Match(EdgeLabel::Result.into()),
            SelectorSegment::AnyNumberOfTimes(SelectorPath(vec![
                SelectorSegment::Match(EdgeMatcher::Any),
                SelectorSegment::Match(EdgeMatcher::AnyIndex),
            ])),
            SelectorSegment::Match(EdgeLabel::Deref.into()),
        ]),
        selects_edge: false,
        extra: None,
    };
    let expected_flat_selector = FlatSelector {
        path: vec![
            MatchNode,
            MatchEdge(EdgeLabel::Result.into()),
            /* 2 */ Branch(8),
            MatchNode,
            MatchEdge(EdgeMatcher::Any),
            MatchNode,
            MatchEdge(EdgeMatcher::AnyIndex),
            Jump(2),
            /* 8 */ MatchNode,
            MatchEdge(EdgeLabel::Deref.into()),
            MatchNode,
        ],
    };
    assert_eq!(
        FlatSelector::from(original_selector),
        expected_flat_selector
    );
}

#[test]
fn flatten_branched_selector() {
    let original_selector = Selector {
        path: SelectorPath(vec![
            SelectorSegment::Match(EdgeLabel::Result.into()),
            SelectorSegment::Branch(vec![
                SelectorPath(vec![SelectorSegment::Match(EdgeMatcher::Any)]),
                SelectorPath(vec![
                    SelectorSegment::Match(EdgeMatcher::AnyNamed),
                    SelectorSegment::Match(EdgeMatcher::Named("hello".to_owned())),
                ]),
                SelectorPath(vec![SelectorSegment::Match(EdgeMatcher::AnyIndex)]),
            ]),
            SelectorSegment::Match(EdgeLabel::Deref.into()),
        ]),
        selects_edge: false,
        extra: None,
    };
    let expected_flat_selector = FlatSelector {
        path: vec![
            MatchNode,
            MatchEdge(EdgeLabel::Result.into()),
            Branch(7),
            Branch(12),
            MatchNode,
            MatchEdge(EdgeMatcher::Any),
            Jump(14),
            /* 7 */ MatchNode,
            MatchEdge(EdgeMatcher::AnyNamed),
            MatchNode,
            MatchEdge(EdgeMatcher::Named("hello".to_owned())),
            Jump(14),
            /* 12 */ MatchNode,
            MatchEdge(EdgeMatcher::AnyIndex),
            /* 14 */ MatchNode,
            MatchEdge(EdgeLabel::Deref.into()),
            MatchNode,
        ],
    };
    assert_eq!(
        FlatSelector::from(original_selector),
        expected_flat_selector
    );
}

#[test]
fn flatten_branched_and_repeated_selector() {
    let original_selector = Selector {
        path: SelectorPath(vec![
            SelectorSegment::Match(EdgeLabel::Main.into()),
            SelectorSegment::AnyNumberOfTimes(SelectorPath(vec![
                SelectorSegment::Match(EdgeLabel::Next.into()),
                SelectorSegment::Branch(vec![
                    SelectorPath(vec![SelectorSegment::AnyNumberOfTimes(SelectorPath(vec![
                        SelectorSegment::Match(EdgeLabel::Deref.into()),
                    ]))]),
                    SelectorPath(vec![
                        SelectorSegment::Match(EdgeMatcher::AnyIndex),
                        SelectorSegment::Match(EdgeMatcher::Any),
                    ]),
                ]),
            ])),
        ]),
        selects_edge: false,
        extra: None,
    };
    let expected_flat_selector = FlatSelector {
        path: vec![
            MatchNode,
            MatchEdge(EdgeLabel::Main.into()),
            /* 2 */ Branch(16),
            MatchNode,
            MatchEdge(EdgeLabel::Next.into()),
            Branch(11),
            /* 6 */ Branch(10),
            MatchNode,
            MatchEdge(EdgeLabel::Deref.into()),
            Jump(6),
            /* 10 */ Jump(15),
            /* 11 */ MatchNode,
            MatchEdge(EdgeMatcher::AnyIndex),
            MatchNode,
            MatchEdge(EdgeMatcher::Any),
            /* 15 */ Jump(2),
            /* 16 */ MatchNode,
        ],
    };
    assert_eq!(
        FlatSelector::from(original_selector),
        expected_flat_selector
    );
}

#[test]
fn flatten_edge_selector_has_no_final_node_match() {
    let original_selector = Selector {
        path: SelectorPath(vec![SelectorSegment::Match(EdgeMatcher::Any)]),
        selects_edge: true,
        extra: None,
    };
    assert_eq!(
        FlatSelector::from(original_selector),
        FlatSelector {
            path: vec![MatchNode, MatchEdge(EdgeMatcher::Any)]
        }
    );
}

#[test]
fn flatten_single_alternative_adds_no_jumps() {
    let original_selector = Selector {
        path: SelectorPath(vec![SelectorSegment::Branch(vec![SelectorPath(vec![
            SelectorSegment::Match(EdgeMatcher::AnyIndex),
        ])])]),
        selects_edge: false,
        extra: None,
    };
    assert_eq!(
        FlatSelector::from(original_selector),
        FlatSelector {
            path: vec![MatchNode, MatchEdge(EdgeMatcher::AnyIndex), MatchNode]
        }
    );
}

#[test]
fn cascade_style_moves_extra_label_to_rule() {
    let sheet: Stylesheet<RawPropertyKey> = Stylesheet(vec![
        StyleRule {
            selector: Selector {
                path: SelectorPath(vec![SelectorSegment::Match(EdgeMatcher::Any)]),
                selects_edge: false,
                extra: Some("label".to_owned()),
            },
            properties: vec![StyleClause {
                key: StyleKey::Variable("--x".to_owned()),
                value: Expression::Int(3),
            }],
        },
        StyleRule::default(),
    ]);
    let style = CascadeStyle::from(sheet);
    assert_eq!(
        style.selector_machine().0,
        vec![
            FlatSelector {
                path: vec![MatchNode, MatchEdge(EdgeMatcher::Any), MatchNode]
            },
            FlatSelector {
                path: vec![MatchNode]
            },
        ]
    );
    assert_eq!(style.rule_at(0).extra_label, Some("label".to_owned()));
    assert_eq!(style.rule_at(0).properties.len(), 1);
    assert_eq!(style.rule_at(1).extra_label, None);
    assert!(style.rule_at(1).properties.is_empty());
}
