//! Selectors that match paths in the program state graph.

use super::expression::{Expression, SpecExpr};
use crate::model::state::{EdgeLabel, SpecEdgeLabel};
use vstd::prelude::*;

verus! {

/// Matcher of a single edge.
#[derive(PartialEq, Eq, Debug)]
pub enum EdgeMatcher {
    /// Matches every edge.
    Any,
    /// Matches every [`EdgeLabel::Named`] edge.
    AnyNamed,
    /// Matches every [`EdgeLabel::Index`] edge.
    AnyIndex,
    /// Matches [`EdgeLabel::Named`] edges of this name, whatever their discriminator.
    Named(String),
    /// Matches exactly this edge.
    Exact(EdgeLabel),
}

impl From<EdgeLabel> for EdgeMatcher {
    fn from(value: EdgeLabel) -> (r: Self) {
        EdgeMatcher::Exact(value)
    }
}

impl vstd::std_specs::convert::FromSpecImpl<EdgeLabel> for EdgeMatcher {
    open spec fn obeys_from_spec() -> bool {
        true
    }

    open spec fn from_spec(v: EdgeLabel) -> Self {
        EdgeMatcher::Exact(v)
    }
}

/// True if the matcher matches an edge with this label.
pub open spec fn spec_matches(m: EdgeMatcher, label: SpecEdgeLabel) -> bool {
    match m {
        EdgeMatcher::Any => true,
        EdgeMatcher::AnyNamed => label is Named,
        EdgeMatcher::AnyIndex => label is Index,
        EdgeMatcher::Named(name) => label matches SpecEdgeLabel::Named(n, _) && n == name@,
        EdgeMatcher::Exact(e) => label == e@,
    }
}

impl EdgeMatcher {
    /// Tests whether the matcher matches an edge.
    pub fn matches(&self, label: &EdgeLabel) -> (r: bool)
        ensures
            r == spec_matches(*self, label@),
    {
        match self {
            EdgeMatcher::Any => true,
            EdgeMatcher::AnyNamed => matches!(label, EdgeLabel::Named(_, _)),
            EdgeMatcher::AnyIndex => matches!(label, EdgeLabel::Index(_)),
            EdgeMatcher::Named(name) => match label {
                EdgeLabel::Named(n, _) => crate::text::str_eq(n.as_str(), name.as_str()),
                _ => false,
            },
            EdgeMatcher::Exact(e) => e.same_as(label),
        }
    }
}

/// Sequence of selector segments that must match in order.
#[derive(PartialEq, Eq, Debug)]
pub struct SelectorPath(pub Vec<SelectorSegment>);

/// One segment of a selector path.
#[derive(PartialEq, Eq, Debug)]
pub enum SelectorSegment {
    /// Matches one edge.
    Match(EdgeMatcher),
    /// Matches the inner path any number of times, including zero.
    AnyNumberOfTimes(SelectorPath),
    /// Matches any one of the alternative paths.
    Branch(Vec<SelectorPath>),
    /// Matches if the condition evaluates to a truthy value.
    Condition(Expression),
}

impl SelectorSegment {
    /// A segment that matches any path: any edge, any number of times.
    pub fn anything_any_number_of_times() -> (r: SelectorSegment)
        ensures
            r matches SelectorSegment::AnyNumberOfTimes(p) && p.0@ == seq![
                SelectorSegment::Match(EdgeMatcher::Any),
            ],
    {
        SelectorSegment::AnyNumberOfTimes(SelectorPath(vec![SelectorSegment::Match(EdgeMatcher::Any)]))
    }
}

/// Selector of a stylesheet rule.
#[derive(PartialEq, Eq, Debug)]
pub struct Selector {
    /// Path from the root that must be matched.
    pub path: SelectorPath,
    /// Selects the edge that leads to the matched node, instead of the node.
    pub selects_edge: bool,
    /// Selects an extra element attached to the matched entity, if set.
    pub extra: Option<String>,
}

impl Default for Selector {
    fn default() -> (r: Self)
        ensures
            r.path.0@.len() == 0,
            !r.selects_edge,
            r.extra is None,
    {
        Selector { path: SelectorPath(Vec::new()), selects_edge: false, extra: None }
    }
}

impl Selector {
    /// A selector that matches the node at the end of `path`.
    pub fn from_path(path: SelectorPath) -> (r: Selector)
        ensures
            r.path == path,
            !r.selects_edge,
            r.extra is None,
    {
        Selector { path, selects_edge: false, extra: None }
    }

    /// The same selector, made to select the edge that leads to the matched node.
    pub fn selecting_edge(self) -> (r: Selector)
        ensures
            r.path == self.path,
            r.selects_edge,
            r.extra == self.extra,
    {
        Selector { path: self.path, selects_edge: true, extra: self.extra }
    }

    /// The same selector, made to select an extra element of the matched entity.
    pub fn with_extra(self, extra: String) -> (r: Selector)
        ensures
            r.path == self.path,
            r.selects_edge == self.selects_edge,
            r.extra == Some(extra),
    {
        Selector { path: self.path, selects_edge: self.selects_edge, extra: Some(extra) }
    }
}

// ------------------------------------------------------------------
// Models
// ------------------------------------------------------------------

/// Model of an [`EdgeMatcher`].
pub enum SpecMatcher {
    Any,
    AnyNamed,
    AnyIndex,
    Named(Seq<char>),
    Exact(SpecEdgeLabel),
}

/// Model of a [`SelectorSegment`].
pub enum SpecSegment {
    Match(SpecMatcher),
    AnyNumberOfTimes(Seq<SpecSegment>),
    Branch(Seq<Seq<SpecSegment>>),
    Condition(SpecExpr),
}

/// Model of a [`Selector`].
pub struct SpecSelector {
    pub path: Seq<SpecSegment>,
    pub selects_edge: bool,
    pub extra: Option<Seq<char>>,
}

/// The model of an edge matcher.
pub open spec fn matcher_view(m: EdgeMatcher) -> SpecMatcher {
    match m {
        EdgeMatcher::Any => SpecMatcher::Any,
        EdgeMatcher::AnyNamed => SpecMatcher::AnyNamed,
        EdgeMatcher::AnyIndex => SpecMatcher::AnyIndex,
        EdgeMatcher::Named(n) => SpecMatcher::Named(n@),
        EdgeMatcher::Exact(l) => SpecMatcher::Exact(l@),
    }
}

/// The model of a selector segment.
pub open spec fn segment_view(s: SelectorSegment) -> SpecSegment
    decreases s,
{
    match s {
        SelectorSegment::Match(m) => SpecSegment::Match(matcher_view(m)),
        SelectorSegment::AnyNumberOfTimes(p) => SpecSegment::AnyNumberOfTimes(segments_view(p.0@)),
        SelectorSegment::Branch(l) => SpecSegment::Branch(paths_view(l@)),
        SelectorSegment::Condition(e) => SpecSegment::Condition(e@),
    }
}

/// The models of a sequence of segments.
pub open spec fn segments_view(s: Seq<SelectorSegment>) -> Seq<SpecSegment>
    decreases s,
{
    if s.len() == 0 {
        seq![]
    } else {
        segments_view(s.drop_last()).push(segment_view(s.last()))
    }
}

/// The models of a sequence of paths.
pub open spec fn paths_view(s: Seq<SelectorPath>) -> Seq<Seq<SpecSegment>>
    decreases s,
{
    if s.len() == 0 {
        seq![]
    } else {
        paths_view(s.drop_last()).push(segments_view(s.last().0@))
    }
}

impl View for SelectorPath {
    type V = Seq<SpecSegment>;

    open spec fn view(&self) -> Seq<SpecSegment> {
        segments_view(self.0@)
    }
}

impl View for Selector {
    type V = SpecSelector;

    open spec fn view(&self) -> SpecSelector {
        SpecSelector {
            path: segments_view(self.path.0@),
            selects_edge: self.selects_edge,
            extra: match self.extra {
                Some(x) => Some(x@),
                None => None,
            },
        }
    }
}

/// `[]` selects exactly the elements of an array: its matcher accepts an
/// edge exactly when the matcher of one particular index does. So it accepts
/// no length, member, dereference or frame edge, and no edge is both an
/// element and a member.
pub proof fn lemma_any_index_matches_elements(label: SpecEdgeLabel)
    ensures
        spec_matches(EdgeMatcher::AnyIndex, label) <==> exists|i: usize|
            #[trigger] spec_matches(EdgeMatcher::Exact(EdgeLabel::Index(i)), label),
        spec_matches(EdgeMatcher::AnyIndex, label) <==> exists|i: usize| #![auto] label == SpecEdgeLabel::Index(i),
        !(spec_matches(EdgeMatcher::AnyIndex, label) && spec_matches(EdgeMatcher::AnyNamed, label)),
        spec_matches(EdgeMatcher::AnyIndex, label) ==> spec_matches(EdgeMatcher::Any, label),
{
    if let SpecEdgeLabel::Index(i) = label {
        assert(spec_matches(EdgeMatcher::Exact(EdgeLabel::Index(i)), label));
        assert(label == SpecEdgeLabel::Index(i));
    }
}

/// A named selector selects exactly the members: the matcher of any member
/// accepts an edge exactly when the edge is a member of some name, and the
/// matcher of one name accepts only members of that name.
pub proof fn lemma_any_named_matches_members(label: SpecEdgeLabel, name: String)
    ensures
        spec_matches(EdgeMatcher::AnyNamed, label) <==> exists|n: Seq<char>, d: usize|
            #![auto] label == SpecEdgeLabel::Named(n, d),
        spec_matches(EdgeMatcher::Named(name), label) <==> exists|d: usize|
            #![auto] label == SpecEdgeLabel::Named(name@, d),
        spec_matches(EdgeMatcher::Named(name), label) ==> spec_matches(EdgeMatcher::AnyNamed, label),
{
    if let SpecEdgeLabel::Named(n, d) = label {
        assert(label == SpecEdgeLabel::Named(n, d));
    }
}

/// The wildcard matcher accepts every edge, and the matcher of one edge
/// accepts that edge and no other.
pub proof fn lemma_any_and_exact_matchers(e: EdgeLabel, label: SpecEdgeLabel)
    ensures
        spec_matches(EdgeMatcher::Any, label),
        spec_matches(EdgeMatcher::Exact(e), e@),
        spec_matches(EdgeMatcher::Exact(e), label) ==> label == e@,
{
}

} // verus!
