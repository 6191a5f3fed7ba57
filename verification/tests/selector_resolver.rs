use aili::model::state::EdgeLabel;
use aili::style::cascade::FlatSelectorSegment::{Branch, Jump, MatchEdge, MatchNode, Restrict};
use aili::style::cascade::{CascadeSelector, CascadeStyle, FlatSelector};
use aili::style::expression::Expression;
use aili::style::selector::{EdgeMatcher, Selector, SelectorPath, SelectorSegment};
use aili::style::selector_resolver::{SelectionCaret, SelectorResolver, SelectorState};
use aili::style::stylesheet::{RawPropertyKey, StyleRule, Stylesheet};

fn always(_: &Expression) -> bool {
    true
}

fn never(_: &Expression) -> bool {
    false
}

#[test]
fn empty_selector_selects_the_root() {
    let selectors = CascadeSelector(vec![FlatSelector {
        path: vec![MatchNode],
    }]);
    let mut resolver = SelectorResolver::<u32>::new(&selectors);
    assert!(resolver.has_edges_to_resolve());
    let matched = resolver.resolve_node(0, always);
    assert_eq!(matched, vec![(0, SelectionCaret::Node)]);
    assert!(!resolver.has_edges_to_resolve());
}

#[test]
fn named_child_is_selected_only_through_its_edge() {
    let selectors = CascadeSelector(vec![FlatSelector {
        path: vec![
            MatchNode,
            MatchEdge(EdgeMatcher::Named("a".to_owned())),
            MatchNode,
        ],
    }]);
    let mut resolver = SelectorResolver::<u32>::new(&selectors);
    assert_eq!(resolver.resolve_node(0, always), vec![]);
    assert!(resolver.has_edges_to_resolve());

    resolver.push_edge(&EdgeLabel::Named("a".to_owned(), 0));
    assert!(resolver.has_edges_to_resolve());
    assert_eq!(resolver.resolve_node(1, always), vec![(0, SelectionCaret::Node)]);
    resolver.pop_edge();

    resolver.push_edge(&EdgeLabel::Named("b".to_owned(), 0));
    assert!(!resolver.has_edges_to_resolve());
    assert_eq!(resolver.resolve_node(2, always), vec![]);
    resolver.pop_edge();
}

#[test]
fn edge_selector_reports_preceding_edge() {
    let selectors = CascadeSelector(vec![FlatSelector {
        path: vec![MatchNode, MatchEdge(EdgeMatcher::Any)],
    }]);
    let mut resolver = SelectorResolver::<u32>::new(&selectors);
    assert_eq!(resolver.resolve_node(0, always), vec![]);
    resolver.push_edge(&EdgeLabel::Next);
    assert_eq!(
        resolver.resolve_node(1, always),
        vec![(0, SelectionCaret::PrecedingEdge)]
    );
}

#[test]
fn restriction_gates_the_match() {
    let selectors = CascadeSelector(vec![FlatSelector {
        path: vec![MatchNode, Restrict(Expression::Bool(true))],
    }]);
    let mut passing = SelectorResolver::<u32>::new(&selectors);
    assert_eq!(passing.resolve_node(0, always), vec![(0, SelectionCaret::Node)]);
    let mut failing = SelectorResolver::<u32>::new(&selectors);
    assert_eq!(failing.resolve_node(0, never), vec![]);
}

#[test]
fn sequence_point_matches_a_node_only_once() {
    // Follows any edges any number of times, and selects nothing
    let selectors = CascadeSelector(vec![FlatSelector {
        path: vec![MatchNode, MatchEdge(EdgeMatcher::Any), Jump(0)],
    }]);
    let mut resolver = SelectorResolver::<u32>::new(&selectors);
    assert_eq!(resolver.resolve_node(0, always), vec![]);
    assert!(resolver.has_edges_to_resolve());
    resolver.push_edge(&EdgeLabel::Next);
    // A new node continues the walk
    assert_eq!(resolver.resolve_node(1, always), vec![]);
    assert!(resolver.has_edges_to_resolve());
    resolver.push_edge(&EdgeLabel::Next);
    // Coming back to the first node ends it
    assert_eq!(resolver.resolve_node(0, always), vec![]);
    assert!(!resolver.has_edges_to_resolve());
}

#[test]
fn branch_selects_every_node_on_the_way() {
    // Selects the node, and everything reachable over `next` edges
    let selectors = CascadeSelector(vec![FlatSelector {
        path: vec![
            Branch(4),
            MatchNode,
            MatchEdge(EdgeLabel::Next.into()),
            Jump(0),
            MatchNode,
        ],
    }]);
    let mut resolver = SelectorResolver::<u32>::new(&selectors);
    assert_eq!(resolver.resolve_node(0, always), vec![(0, SelectionCaret::Node)]);
    resolver.push_edge(&EdgeLabel::Next);
    assert_eq!(resolver.resolve_node(1, always), vec![(0, SelectionCaret::Node)]);
    resolver.push_edge(&EdgeLabel::Main);
    assert!(!resolver.has_edges_to_resolve());
    assert_eq!(resolver.resolve_node(2, always), vec![]);
}

#[test]
fn compiled_stylesheet_resolves_its_rules() {
    let stylesheet: Stylesheet<RawPropertyKey> = Stylesheet(vec![
        StyleRule {
            selector: Selector::from_path(SelectorPath(vec![])),
            properties: vec![],
        },
        StyleRule {
            selector: Selector::from_path(SelectorPath(vec![SelectorSegment::Match(
                EdgeLabel::Main.into(),
            )])),
            properties: vec![],
        },
    ]);
    let style = CascadeStyle::from(stylesheet);
    let mut resolver = SelectorResolver::<u32>::new(style.selector_machine());
    assert_eq!(resolver.resolve_node(0, always), vec![(0, SelectionCaret::Node)]);
    resolver.push_edge(&EdgeLabel::Main);
    assert_eq!(resolver.resolve_node(1, always), vec![(1, SelectionCaret::Node)]);
}

#[test]
fn selector_state_steps() {
    let state = SelectorState {
        rule_index: 3,
        instruction_index: 4,
    };
    assert_eq!(
        state.advance(),
        SelectorState {
            rule_index: 3,
            instruction_index: 5
        }
    );
    assert_eq!(
        state.jump(0),
        SelectorState {
            rule_index: 3,
            instruction_index: 0
        }
    );
}

#[test]
fn root_matches_a_selector_that_ends_there() {
    let style = CascadeStyle::from(Stylesheet::<RawPropertyKey>(vec![StyleRule {
        selector: Selector {
            path: SelectorPath(vec![]),
            selects_edge: false,
            extra: None,
        },
        properties: vec![],
    }]));
    let mut resolver = SelectorResolver::<usize>::new(style.selector_machine());
    assert_eq!(resolver.resolve_node(0, always), vec![(0, SelectionCaret::Node)]);
    assert!(!resolver.has_edges_to_resolve());
}
